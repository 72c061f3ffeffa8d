//! The pins of the written symbols lie where the wires of the sheet end.

use vstd::prelude::*;
use crate::anchors::below;
use crate::canvas::blocks_view;
use crate::extract::{
    block_of, blocks_of, comp_order, components, content_of, first_unsound, is_comp, known_upto,
    lemma_sound, lib_id_of, path_behind, sound, source_of,
};
use crate::generate::{is_generated, GeneratedSchematic, SchOptions, Steps};
use crate::geometry::{
    empty_box, gather, is_symbol, lemma_pin_index, pin_index, pins_view, renamed, Gathered,
    MirrorAxis, PinView,
};
use crate::model::DesignModel;
use crate::netlist::is_design;
use crate::order::lemma_sorted_items;
use crate::pins::pad_position;
use crate::place::PlacedComp;
use crate::reader::{inside, items_of, mirrored, says};
use crate::schematic::Schematic;
use crate::sexpr::SexprView;
use crate::shown::{countable, law_document_shows_the_sheet, library, sheet_document, shows_sheet};
use crate::symbols::{ids_unique, law_lib_ids_are_unique, lemma_id_known};
use crate::units::{sat, Point};
use crate::written::{blocks_fit, comps_fit, is_comp_symbol, sheets_fit};

verus! {

// ---------------------------------------------------------------- where a pin is seen

/// The place that an element names.
pub open spec fn seen_place(node: SexprView) -> (int, int, int) {
    let at = items_of(inside(node, "at"@)[0]);
    (at[1]->Num_0, at[2]->Num_0, at[3]->Int_0)
}

/// The point of a symbol as its mirror leaves it.
pub open spec fn seen_mirrored(node: SexprView, x: int, y: int) -> (int, int) {
    let m = inside(node, "mirror"@);
    if m.len() == 0 {
        (x, y)
    } else if items_of(m[0])[1] == SexprView::Symbol("x"@) {
        (x, -y)
    } else {
        (-x, y)
    }
}

/// Where a point of the library symbol is seen on the sheet. In the library Y points up, on the
/// sheet it points down, and symbols turn counter-clockwise by quarters.
pub open spec fn seen_point(node: SexprView, x: int, y: int) -> Point {
    let (ax, ay, angle) = seen_place(node);
    let (mx, my) = seen_mirrored(node, x, y);
    let quarter = (angle % 360) / 90;
    if angle % 90 != 0 || quarter == 0 {
        Point { x: sat(ax + mx), y: sat(ay - my) }
    } else if quarter == 1 {
        Point { x: sat(ax - my), y: sat(ay - mx) }
    } else if quarter == 2 {
        Point { x: sat(ax - mx), y: sat(ay + my) }
    } else {
        Point { x: sat(ax + my), y: sat(ay + mx) }
    }
}

/// The pins that a library symbol describes.
pub open spec fn described_pins(lib: SexprView) -> Seq<PinView> {
    gather(lib, Gathered { pins: Seq::empty(), bbox: empty_box() }).pins
}

/// The first pin of the number.
pub open spec fn is_first_pin(pins: Seq<PinView>, number: Seq<char>, i: int) -> bool {
    0 <= i < pins.len() && pins[i].number == number && forall|j: int|
        0 <= j < i ==> (#[trigger] pins[j]).number != number
}

/// The pin that the router means lies where a reader of the symbol and of its library symbol sees it.
pub open spec fn pin_is_seen(
    node: SexprView,
    lib: SexprView,
    design: DesignModel,
    p: PlacedComp,
    number: Seq<char>,
) -> bool {
    match pad_position(design, p, number) {
        Some(q) => exists|i: int|
            #![trigger described_pins(lib)[i]]
            is_first_pin(described_pins(lib), number, i) && q == seen_point(
                node,
                described_pins(lib)[i].x as int,
                described_pins(lib)[i].y as int,
            ),
        None => forall|i: int|
            0 <= i < described_pins(lib).len() ==> (#[trigger] described_pins(lib)[i]).number
                != number,
    }
}

/// A written component has its pins where the router took them to be.
pub proof fn law_pins_are_where_wires_end(
    node: SexprView,
    lib: SexprView,
    design: DesignModel,
    p: PlacedComp,
    project: Seq<char>,
    path: Seq<char>,
    number: Seq<char>,
)
    requires
        is_comp_symbol(node, design.comps@[p.comp as int], p, project, path),
        is_symbol(design.comps@[p.comp as int].geom, lib),
    ensures
        pin_is_seen(node, lib, design, p, number),
{
    let geom = design.comps@[p.comp as int].geom;
    let pins = described_pins(lib);
    assert(pins_view(geom.pins@) == pins);
    lemma_pin_index(geom.pins@, number, 0);
    match pin_index(geom.pins@, number, 0) {
        Some(i) => {
            assert(pins[i] == geom.pins@[i]@);
            assert forall|j: int| 0 <= j < i implies (#[trigger] pins[j]).number != number by {
                assert(pins[j] == geom.pins@[j]@);
            }
            assert(is_first_pin(pins, number, i));
            let at = inside(node, "at"@)[0];
            assert(items_of(at)[1] == SexprView::Num(p.at.x as int));
            assert(items_of(at)[2] == SexprView::Num(p.at.y as int));
            assert(items_of(at)[3] == SexprView::Int(p.rotation as int));
            let x = geom.pins@[i].x as int;
            let y = geom.pins@[i].y as int;
            lemma_mirror_seen(node, p.mirror, x, y);
            assert(pad_position(design, p, number) == Some(seen_point(node, x, y)));
        },
        None => {
            assert forall|i: int| 0 <= i < pins.len() implies (#[trigger] pins[i]).number
                != number by {
                assert(pins[i] == geom.pins@[i]@);
            }
        },
    }
}

proof fn lemma_mirror_seen(node: SexprView, mirror: Option<MirrorAxis>, x: int, y: int)
    requires
        mirrored(node, mirror),
    ensures
        seen_mirrored(node, x, y) == match mirror {
            Some(MirrorAxis::X) => (x, -y),
            Some(MirrorAxis::Y) => (-x, y),
            None => (x, y),
        },
{
    reveal_strlit("x");
    reveal_strlit("y");
    assert("x"@[0] == 'x' && "y"@[0] == 'y');
    let m = inside(node, "mirror"@);
    match mirror {
        Some(MirrorAxis::X) => {
            assert(items_of(m[0])[1] == SexprView::Symbol("x"@));
        },
        Some(MirrorAxis::Y) => {
            assert(items_of(m[0])[1] == SexprView::Symbol("y"@));
        },
        None => {},
    }
}

// ---------------------------------------------------------------- one id, one block

/// One text of a symbol is one tree.
pub open spec fn one_tree_per_text(sch: Schematic) -> bool {
    forall|a: int, c: int|
        0 <= a < sch.instances@.len() && 0 <= c < sch.instances@.len() && #[trigger] content_of(
            sch,
            sch.instances@[a],
        ) == #[trigger] content_of(sch, sch.instances@[c]) ==> block_of(sch, sch.instances@[a])
            == block_of(sch, sch.instances@[c])
}

proof fn lemma_known(sch: Schematic, order: Seq<usize>, i: int, n: int)
    requires
        0 <= i <= n <= order.len(),
    ensures
        ids_unique(known_upto(sch, order, n)),
        known_upto(sch, order, i).is_prefix_of(known_upto(sch, order, n)),
        i < n ==> known_upto(sch, order, n).contains(
            (content_of(sch, sch.instances@[order[i] as int]), lib_id_of(sch, order, i)),
        ),
    decreases n,
{
    if n > 0 {
        let before = known_upto(sch, order, n - 1);
        let inst = sch.instances@[order[n - 1] as int];
        let content = content_of(sch, inst);
        let after = known_upto(sch, order, n);
        lemma_known(
            sch,
            order,
            if i < n {
                i
            } else {
                n - 1
            },
            n - 1,
        );
        law_lib_ids_are_unique(before, content, source_of(inst));
        lemma_id_known(before, content, 0);
        assert(before.is_prefix_of(after));
        if i == n - 1 {
            let pair = (content, lib_id_of(sch, order, i));
            if crate::symbols::id_known(before, content, 0) is Some {
                let k = choose|k: int| 0 <= k < before.len() && #[trigger] before[k] == pair;
                assert(after[k] == pair);
            } else {
                assert(after[before.len() as int] == pair);
            }
        } else if i < n - 1 {
            let pair = (
                content_of(sch, sch.instances@[order[i] as int]),
                lib_id_of(sch, order, i),
            );
            let k = choose|k: int| 0 <= k < before.len() && before[k] == pair;
            assert(after[k] == pair);
        }
    }
}

proof fn lemma_components_below(sch: Schematic, n: int)
    requires
        0 <= n <= sch.instances@.len(),
    ensures
        below(components(sch, n), sch.instances@.len() as int),
    decreases n,
{
    assert(sch.instances.len() == sch.instances@.len());
    if n > 0 {
        lemma_components_below(sch, n - 1);
    }
}

/// The components are instances of the schematic.
proof fn lemma_order_below(sch: Schematic)
    ensures
        below(comp_order(sch), sch.instances@.len() as int),
{
    let n = sch.instances@.len() as int;
    let order = comp_order(sch);
    lemma_components_below(sch, n);
    lemma_sorted_items(components(sch, n), path_behind(sch), |i: usize| i < n);
    assert forall|i: int| 0 <= i < order.len() implies #[trigger] order[i] < n by {
        assert((|i: usize| i < n)(order[i]));
    }
}

/// The written library symbols are those of the components: each stands under the library id of its
/// component, and one id stands for one block.
pub proof fn law_one_id_for_one_block(sch: Schematic, design: DesignModel, limit: u64)
    requires
        is_design(design, sch, limit),
        first_unsound(sch, comp_order(sch), 0) is None,
        one_tree_per_text(sch),
    ensures
        blocks_fit(design, blocks_of(sch)),
        forall|c: int|
            0 <= c < design.comps@.len() ==> is_symbol(
                (#[trigger] design.comps@[c]).geom,
                blocks_of(sch)[c],
            ),
{
    reveal(is_design);
    lemma_order_below(sch);
    let order = comp_order(sch);
    let n = order.len() as int;
    let blocks = blocks_of(sch);
    assert forall|c: int| 0 <= c < n implies is_symbol(
        (#[trigger] design.comps@[c]).geom,
        blocks[c],
    ) && says(blocks[c], design.comps@[c].geom.lib_id@) && design.comps@[c].geom.lib_id@
        == lib_id_of(sch, order, c) by {
        let inst = sch.instances@[order[c] as int];
        lemma_sound(sch, order, 0, c);
        assert(is_comp(design.comps@[c], sch, inst, lib_id_of(sch, order, c)));
        assert(blocks[c] == renamed(block_of(sch, inst), Some(lib_id_of(sch, order, c))));
        lemma_block_named(sch, inst);
        let items = block_of(sch, inst)->List_0;
        assert(items.update(1, SexprView::Str(lib_id_of(sch, order, c)))[1] == SexprView::Str(
            lib_id_of(sch, order, c),
        ));
    }
    assert forall|c: int, e: int|
        0 <= c < blocks.len() && 0 <= e < blocks.len() && design.comps@[c].geom.lib_id@
            == design.comps@[e].geom.lib_id@ implies #[trigger] blocks[c] == #[trigger] blocks[e] by {
        let known = known_upto(sch, order, n);
        lemma_known(sch, order, c, n);
        lemma_known(sch, order, e, n);
        let a = sch.instances@[order[c] as int];
        let b = sch.instances@[order[e] as int];
        let x = design.comps@[c];
        let y = design.comps@[e];
        let i = choose|i: int|
            0 <= i < known.len() && known[i] == (content_of(sch, a), lib_id_of(sch, order, c));
        let j = choose|j: int|
            0 <= j < known.len() && known[j] == (content_of(sch, b), lib_id_of(sch, order, e));
        if i < j {
            assert(known[i].1 != known[j].1);
        } else if j < i {
            assert(known[j].1 != known[i].1);
        }
        assert(content_of(sch, a) == content_of(sch, b));
        assert(order[c] < sch.instances@.len() && order[e] < sch.instances@.len());
    }
    assert forall|c: int| 0 <= c < blocks.len() implies says(
        #[trigger] blocks[c],
        design.comps@[c].geom.lib_id@,
    ) by {
        let x = design.comps@[c];
    }
}

proof fn lemma_block_named(sch: Schematic, inst: crate::schematic::Instance)
    requires
        sound(sch, inst),
    ensures
        block_of(sch, inst) is List,
        block_of(sch, inst)->List_0.len() > 1,
{
}

// ---------------------------------------------------------------- what is generated

/// Every generated document shows its sheet, and its symbols have their pins where the wires end.
pub proof fn law_files_show_their_sheets(
    g: GeneratedSchematic,
    sch: Schematic,
    opts: SchOptions,
    st: Steps,
    si: int,
)
    requires
        is_generated(g, sch, opts, st),
        0 <= si < st.plan.sheets@.len(),
        first_unsound(sch, comp_order(sch), 0) is None,
        one_tree_per_text(sch),
        comps_fit(st.design, st.finished[si].placed@),
        sheets_fit(st.plan, blocks_view(st.routed[si].blocks@)),
        countable(st.finished[si].placed@, st.routed[si]),
    ensures
        exists|path: Seq<char>| #[trigger]
            shows_sheet(
                g.files@[si].content@,
                st.design,
                st.symbols,
                st.plan,
                st.finished[si].placed@,
                st.routed[si],
                opts.project_name@,
                path,
            ),
        forall|i: int, number: Seq<char>|
            #![trigger pad_position(st.design, st.finished[si].placed@[i], number)]
            0 <= i < st.finished[si].placed@.len() ==> ({
                let p = st.finished[si].placed@[i];
                let lib = st.symbols[p.comp as int];
                library(g.files@[si].content@).contains(lib) && pin_is_seen(
                    inside(g.files@[si].content@, "symbol"@)[i],
                    lib,
                    st.design,
                    p,
                    number,
                )
            }),
{
    reveal(is_generated);
    let doc = g.files@[si].content@;
    let placed = st.finished[si].placed@;
    let prefix = st.paths_upto(opts, si)[si];
    law_one_id_for_one_block(sch, st.design, opts.config.bulk_capacitance_pf);
    law_document_shows_the_sheet(
        st.design,
        st.symbols,
        st.plan,
        placed,
        st.routed[si],
        si,
        prefix,
        opts,
    );
    let w = sheet_document(
        st.design,
        st.symbols,
        st.plan,
        placed,
        st.routed[si],
        si,
        prefix,
        opts,
    );
    assert(doc == w.document());
    let path = w.path_prefix();
    assert forall|i: int, number: Seq<char>|
        #![trigger pad_position(st.design, placed[i], number)]
        0 <= i < placed.len() implies ({
        let p = placed[i];
        let lib = st.symbols[p.comp as int];
        library(doc).contains(lib) && pin_is_seen(
            inside(doc, "symbol"@)[i],
            lib,
            st.design,
            p,
            number,
        )
    }) by {
        let p = placed[i];
        let c = st.design.comps@[p.comp as int];
        law_pins_are_where_wires_end(
            inside(doc, "symbol"@)[i],
            st.symbols[p.comp as int],
            st.design,
            p,
            opts.project_name@,
            path,
            number,
        );
    }
}

} // verus!
