//! Every generated document shows its sheet: what was routed is written, element by element, and
//! no element is written that was not routed.

use vstd::prelude::*;
use crate::canvas::{blocks_view, RoutedSheet};
use crate::document::{fresh_document, WriterView};
use crate::generate::{paper_for, sheet_drawn, sheet_options, SchOptions};
use crate::model::DesignModel;
use crate::nodes::{v_int, v_node, v_text};
use crate::order::{law_sort_is_permutation, sorted_by, upto};
use crate::place::PlacedComp;
use crate::reader::{
    all_tagged, elements, group_reading, inside, items_of, lemma_elements_all, lemma_tags, says,
    says_under,
};
use crate::sexpr::{is_tagged, SexprView};
use crate::sheets::SheetPlan;
use crate::wiring::paths;
use crate::written::{
    blocks_fit, blocks_shown, comps_fit, comps_shown, flags_shown, global_labels_shown, has_library,
    hier_labels_shown, is_block, is_comp_symbol, is_flag_symbol, is_global_label, is_hier_label,
    is_junction, is_net_label, is_no_connect, is_outline, is_rail_symbol, is_run, junctions_shown,
    lemma_blocks, lemma_comps, lemma_flags, lemma_global_labels, lemma_held_stays,
    lemma_hier_labels, lemma_junctions, lemma_library_stays, lemma_net_labels, lemma_no_connects,
    lemma_rails, lemma_wires, lemma_zones, libs_sound, net_labels_shown, no_connects_shown,
    outlines_shown, rails_shown, runs_of, runs_shown, sheets_fit,
};

verus! {

// ---------------------------------------------------------------- what a document shows

/// The junctions of the document are those of the sheet.
pub open spec fn shows_junctions(doc: SexprView, r: RoutedSheet) -> bool {
    let v = inside(doc, "junction"@);
    v.len() == r.junctions@.len() && forall|i: int|
        0 <= i < v.len() ==> is_junction(#[trigger] v[i], r.junctions@[i])
}

pub open spec fn shows_no_connects(doc: SexprView, r: RoutedSheet) -> bool {
    let v = inside(doc, "no_connect"@);
    v.len() == r.no_connects@.len() && forall|i: int|
        0 <= i < v.len() ==> is_no_connect(#[trigger] v[i], r.no_connects@[i])
}

/// The wires of the document are the straight runs of those of the sheet.
pub open spec fn shows_wires(doc: SexprView, r: RoutedSheet) -> bool {
    let v = inside(doc, "wire"@);
    let runs = runs_of(paths(r.wires@), r.wires@.len() as int);
    v.len() == runs.len() && forall|i: int| 0 <= i < v.len() ==> is_run(#[trigger] v[i], runs[i])
}

pub open spec fn shows_net_labels(doc: SexprView, r: RoutedSheet) -> bool {
    let v = inside(doc, "label"@);
    v.len() == r.net_labels@.len() && forall|i: int|
        0 <= i < v.len() ==> is_net_label(#[trigger] v[i], r.net_labels@[i])
}

pub open spec fn shows_global_labels(doc: SexprView, r: RoutedSheet) -> bool {
    let v = inside(doc, "global_label"@);
    v.len() == r.global_labels@.len() && forall|i: int|
        0 <= i < v.len() ==> is_global_label(#[trigger] v[i], r.global_labels@[i])
}

pub open spec fn shows_hier_labels(doc: SexprView, r: RoutedSheet) -> bool {
    let v = inside(doc, "hierarchical_label"@);
    v.len() == r.hier_labels@.len() && forall|i: int|
        0 <= i < v.len() ==> is_hier_label(#[trigger] v[i], r.hier_labels@[i])
}

pub open spec fn shows_outlines(doc: SexprView, r: RoutedSheet) -> bool {
    let v = inside(doc, "rectangle"@);
    v.len() == r.zones@.len() && inside(doc, "text"@).len() == r.zones@.len() && forall|i: int|
        0 <= i < v.len() ==> is_outline(#[trigger] v[i], r.zones@[i])
}

/// The blocks of the document are those of the sheet, each for its child sheet.
pub open spec fn shows_blocks(doc: SexprView, plan: SheetPlan, r: RoutedSheet) -> bool {
    let v = inside(doc, "sheet"@);
    let bs = blocks_view(r.blocks@);
    v.len() == bs.len() && forall|i: int|
        0 <= i < v.len() ==> is_block(#[trigger] v[i], plan.sheets@[bs[i].sheet as int], bs[i])
}

/// The library of the document.
pub open spec fn library(doc: SexprView) -> Seq<SexprView> {
    items_of(inside(doc, "lib_symbols"@)[0])
}

/// The library symbol that the element names is in the library, under its name.
pub open spec fn finds_library(doc: SexprView, node: SexprView) -> bool {
    exists|k: int| #[trigger] names_library(doc, node, k)
}

pub open spec fn names_library(doc: SexprView, node: SexprView, k: int) -> bool {
    0 <= k < library(doc).len() && exists|id: Seq<char>| #[trigger]
        says_under(node, "lib_id"@, id) && says(library(doc)[k], id)
}

/// The symbols of the document are the components, then the symbols of the rails, then the flags;
/// and the library holds what each of them is drawn by.
pub open spec fn shows_symbols(
    doc: SexprView,
    design: DesignModel,
    blocks: Seq<SexprView>,
    placed: Seq<PlacedComp>,
    r: RoutedSheet,
    project: Seq<char>,
    path: Seq<char>,
) -> bool {
    let v = inside(doc, "symbol"@);
    let rails = placed.len() as int;
    let flags = rails + r.power_symbols@.len();
    &&& v.len() == flags + r.pwr_flags@.len()
    &&& forall|i: int|
        0 <= i < rails ==> is_comp_symbol(
            v[i],
            design.comps@[(#[trigger] placed[i]).comp as int],
            placed[i],
            project,
            path,
        ) && library(doc).contains(blocks[placed[i].comp as int])
    &&& forall|i: int|
        0 <= i < r.power_symbols@.len() ==> is_rail_symbol(
            v[rails + i],
            #[trigger] r.power_symbols@[i],
        )
    &&& forall|i: int|
        0 <= i < r.pwr_flags@.len() ==> is_flag_symbol(v[flags + i], #[trigger] r.pwr_flags@[i])
    &&& inside(doc, "lib_symbols"@).len() == 1
    &&& forall|i: int| 0 <= i < v.len() ==> finds_library(doc, #[trigger] v[i])
}

// ---------------------------------------------------------------- lists by their tag

/// Every list of the document holds elements of its own kind.
pub open spec fn sorted_in(w: WriterView) -> bool {
    &&& all_tagged(w.junctions, "junction"@)
    &&& all_tagged(w.no_connects, "no_connect"@)
    &&& all_tagged(w.wires, "wire"@)
    &&& all_tagged(w.labels, "label"@)
    &&& all_tagged(w.global_labels, "global_label"@)
    &&& all_tagged(w.hier_labels, "hierarchical_label"@)
    &&& all_tagged(w.texts, "text"@)
    &&& all_tagged(w.graphics, "rectangle"@)
    &&& all_tagged(w.symbols, "symbol"@)
    &&& all_tagged(w.sheets, "sheet"@)
}

/// The tag of an element that the sheet brings.
pub open spec fn is_kind(tag: Seq<char>) -> bool {
    tag == "junction"@ || tag == "no_connect"@ || tag == "wire"@ || tag == "label"@ || tag
        == "global_label"@ || tag == "hierarchical_label"@ || tag == "text"@ || tag == "rectangle"@
        || tag == "symbol"@ || tag == "sheet"@
}

proof fn lemma_document(w: WriterView, tag: Seq<char>)
    requires
        is_kind(tag) || tag == "lib_symbols"@,
    ensures
        inside(w.document(), tag) == (if tag == "lib_symbols"@ {
            seq![v_node("lib_symbols"@, w.lib_trees())]
        } else {
            Seq::empty()
        }) + elements(w.junctions, tag) + elements(w.no_connects, tag) + elements(w.wires, tag)
            + elements(w.labels, tag) + elements(w.global_labels, tag) + elements(
            w.hier_labels,
            tag,
        ) + elements(w.texts, tag) + elements(w.graphics, tag) + elements(w.symbols, tag)
            + elements(w.sheets, tag),
{
    broadcast use group_reading;

    lemma_tags();
    let head = elements(
        Seq::<SexprView>::empty().push(
            v_node("version"@, seq![v_int(crate::writer::KICAD_SCH_VERSION as int)]),
        ).push(v_node("generator"@, seq![v_text(w.generator)])).push(
            v_node("generator_version"@, seq![v_text(w.generator_version)]),
        ).push(crate::writer::v_uuid(w.uuids.root_id())).push(
            v_node("paper"@, seq![v_text(w.paper)]),
        ).push(
            v_node("title_block"@, seq![v_node("title"@, seq![v_text(w.title)])]),
        ).push(v_node("lib_symbols"@, w.lib_trees())),
        tag,
    );
    let want = if tag == "lib_symbols"@ {
        seq![v_node("lib_symbols"@, w.lib_trees())]
    } else {
        Seq::empty()
    };
    assert(head =~= want);
}

pub proof fn lemma_kinds(w: WriterView)
    requires
        sorted_in(w),
    ensures
        inside(w.document(), "junction"@) == w.junctions,
        inside(w.document(), "no_connect"@) == w.no_connects,
        inside(w.document(), "wire"@) == w.wires,
        inside(w.document(), "label"@) == w.labels,
        inside(w.document(), "global_label"@) == w.global_labels,
        inside(w.document(), "hierarchical_label"@) == w.hier_labels,
        inside(w.document(), "text"@) == w.texts,
        inside(w.document(), "rectangle"@) == w.graphics,
        inside(w.document(), "symbol"@) == w.symbols,
        inside(w.document(), "sheet"@) == w.sheets,
        inside(w.document(), "lib_symbols"@) == seq![v_node("lib_symbols"@, w.lib_trees())],
{
    lemma_tags();
    lemma_kind(w, "junction"@);
    lemma_kind(w, "no_connect"@);
    lemma_kind(w, "wire"@);
    lemma_kind(w, "label"@);
    lemma_kind(w, "global_label"@);
    lemma_kind(w, "hierarchical_label"@);
    lemma_kind(w, "text"@);
    lemma_kind(w, "rectangle"@);
    lemma_kind(w, "symbol"@);
    lemma_kind(w, "sheet"@);
    lemma_kind(w, "lib_symbols"@);
}

/// The list of a kind.
pub open spec fn list_of(w: WriterView, tag: Seq<char>) -> Seq<SexprView> {
    if tag == "junction"@ {
        w.junctions
    } else if tag == "no_connect"@ {
        w.no_connects
    } else if tag == "wire"@ {
        w.wires
    } else if tag == "label"@ {
        w.labels
    } else if tag == "global_label"@ {
        w.global_labels
    } else if tag == "hierarchical_label"@ {
        w.hier_labels
    } else if tag == "text"@ {
        w.texts
    } else if tag == "rectangle"@ {
        w.graphics
    } else if tag == "symbol"@ {
        w.symbols
    } else if tag == "sheet"@ {
        w.sheets
    } else {
        seq![v_node("lib_symbols"@, w.lib_trees())]
    }
}

proof fn lemma_kind(w: WriterView, tag: Seq<char>)
    requires
        sorted_in(w),
        is_kind(tag) || tag == "lib_symbols"@,
    ensures
        inside(w.document(), tag) == list_of(w, tag),
{
    lemma_tags();
    lemma_document(w, tag);
    lemma_elements_all(w.junctions, "junction"@, tag);
    lemma_elements_all(w.no_connects, "no_connect"@, tag);
    lemma_elements_all(w.wires, "wire"@, tag);
    lemma_elements_all(w.labels, "label"@, tag);
    lemma_elements_all(w.global_labels, "global_label"@, tag);
    lemma_elements_all(w.hier_labels, "hierarchical_label"@, tag);
    lemma_elements_all(w.texts, "text"@, tag);
    lemma_elements_all(w.graphics, "rectangle"@, tag);
    lemma_elements_all(w.symbols, "symbol"@, tag);
    lemma_elements_all(w.sheets, "sheet"@, tag);
    assert(inside(w.document(), tag) =~= list_of(w, tag));
}

proof fn lemma_library(w: WriterView, k: int)
    requires
        0 <= k < w.libs.len() <= usize::MAX,
    ensures
        w.lib_trees().contains(w.libs[k].tree),
{
    broadcast use vstd::seq_lib::group_to_multiset_ensures;

    let all = upto(w.libs.len() as int);
    let gt = crate::document::lib_behind(w.libs);
    let order = sorted_by(all, gt);
    law_sort_is_permutation(all, gt);
    assert(all[k] == k);
    assert(all.contains(k as usize));
    assert(all.to_multiset().count(k as usize) > 0);
    assert(order.contains(k as usize));
    let i = choose|i: int| 0 <= i < order.len() && order[i] == k as usize;
    assert(w.lib_trees()[i] == w.libs[k].tree);
}

// ---------------------------------------------------------------- one sheet

/// The whole document of a sheet.
pub open spec fn sheet_document(
    design: DesignModel,
    blocks: Seq<SexprView>,
    plan: SheetPlan,
    placed: Seq<PlacedComp>,
    r: RoutedSheet,
    si: int,
    prefix: Option<Seq<char>>,
    opts: SchOptions,
) -> WriterView {
    sheet_drawn(design, blocks, plan, placed, r, si, prefix, opts).with_blocks(
        plan,
        blocks_view(r.blocks@),
        blocks_view(r.blocks@).len() as int,
    )
}

/// There are not more symbols than can be counted.
pub open spec fn countable(placed: Seq<PlacedComp>, r: RoutedSheet) -> bool {
    placed.len() + r.power_symbols@.len() + r.pwr_flags@.len() <= usize::MAX
}

#[verifier::spinoff_prover]
pub proof fn lemma_sheet_fields(
    design: DesignModel,
    blocks: Seq<SexprView>,
    plan: SheetPlan,
    placed: Seq<PlacedComp>,
    r: RoutedSheet,
    si: int,
    prefix: Option<Seq<char>>,
    opts: SchOptions,
) -> (t: (WriterView, WriterView, WriterView, WriterView))
    requires
        blocks_fit(design, blocks),
        comps_fit(design, placed),
        sheets_fit(plan, blocks_view(r.blocks@)),
    ensures
        ({
            let w = sheet_document(design, blocks, plan, placed, r, si, prefix, opts);
            let o = sheet_options(plan.sheets@[si], r.extents, si, prefix, opts);
            let none = Seq::<SexprView>::empty();
            &&& junctions_shown(w.junctions, none, r.junctions@, r.junctions@.len() as int)
            &&& no_connects_shown(w.no_connects, none, r.no_connects@, r.no_connects@.len() as int)
            &&& runs_shown(w.wires, none, runs_of(paths(r.wires@), paths(r.wires@).len() as int))
            &&& net_labels_shown(w.labels, none, r.net_labels@, r.net_labels@.len() as int)
            &&& global_labels_shown(
                w.global_labels,
                none,
                r.global_labels@,
                r.global_labels@.len() as int,
            )
            &&& hier_labels_shown(w.hier_labels, none, r.hier_labels@, r.hier_labels@.len() as int)
            &&& outlines_shown(w.graphics, none, r.zones@, r.zones@.len() as int)
            &&& all_tagged(w.texts, "text"@)
            &&& w.texts.len() == r.zones@.len()
            &&& blocks_shown(
                w.sheets,
                none,
                plan,
                blocks_view(r.blocks@),
                blocks_view(r.blocks@).len() as int,
            )
            &&& t.0 == fresh_document(o)
            &&& comps_shown(t.1, t.0, design, blocks, placed, placed.len() as int)
            &&& rails_shown(t.2, t.1, r.power_symbols@, r.power_symbols@.len() as int)
            &&& flags_shown(t.3, t.2, r.pwr_flags@, r.pwr_flags@.len() as int)
            &&& t.1.libs.is_prefix_of(t.2.libs)
            &&& t.2.libs.is_prefix_of(t.3.libs)
            &&& t.3.libs == w.libs
            &&& t.3.symbols == w.symbols
            &&& libs_sound(w.libs)
            &&& w.libs.len() <= placed.len() + r.power_symbols@.len() + r.pwr_flags@.len()
            &&& w.uuids.seed == t.0.uuids.seed
            &&& w.prefix == prefix
            &&& w.project == opts.project_name@
            &&& w.title == plan.sheets@[si].title@
            &&& w.paper == paper_for(opts.config, r.extents).spec_kicad_name()
            &&& w.generator == opts.generator@
            &&& w.generator_version == opts.generator_version@
        }),
{
    reveal(sheet_drawn);
    let o = sheet_options(plan.sheets@[si], r.extents, si, prefix, opts);
    let w0 = fresh_document(o);
    let wires = paths(r.wires@);
    lemma_comps(w0, design, blocks, placed, placed.len() as int);
    let w1 = w0.with_comps(design, blocks, placed, placed.len() as int);
    lemma_wires(w1, wires, wires.len() as int);
    let w2 = w1.with_wires(wires, wires.len() as int);
    lemma_junctions(w2, r.junctions@, r.junctions@.len() as int);
    let w3 = w2.with_junctions(r.junctions@, r.junctions@.len() as int);
    lemma_net_labels(w3, r.net_labels@, r.net_labels@.len() as int);
    let w4 = w3.with_net_labels(r.net_labels@, r.net_labels@.len() as int);
    lemma_global_labels(w4, r.global_labels@, r.global_labels@.len() as int);
    let w5 = w4.with_global_labels(r.global_labels@, r.global_labels@.len() as int);
    lemma_hier_labels(w5, r.hier_labels@, r.hier_labels@.len() as int);
    let w6 = w5.with_hier_labels(r.hier_labels@, r.hier_labels@.len() as int);
    lemma_rails(w6, r.power_symbols@, r.power_symbols@.len() as int);
    let w7 = w6.with_power_symbols(r.power_symbols@, r.power_symbols@.len() as int);
    lemma_flags(w7, r.pwr_flags@, r.pwr_flags@.len() as int);
    let w8 = w7.with_pwr_flags(r.pwr_flags@, r.pwr_flags@.len() as int);
    lemma_no_connects(w8, r.no_connects@, r.no_connects@.len() as int);
    let w9 = w8.with_no_connects(r.no_connects@, r.no_connects@.len() as int);
    lemma_zones(w9, r.zones@, r.zones@.len() as int);
    let w10 = w9.with_zones(r.zones@, r.zones@.len() as int);
    let bs = blocks_view(r.blocks@);
    lemma_blocks(w10, plan, bs, bs.len() as int);
    (w0, w1, w7, w8)
}

/// What the document of a sheet shows.
pub open spec fn shows_sheet(
    doc: SexprView,
    design: DesignModel,
    blocks: Seq<SexprView>,
    plan: SheetPlan,
    placed: Seq<PlacedComp>,
    r: RoutedSheet,
    project: Seq<char>,
    path: Seq<char>,
) -> bool {
    &&& shows_junctions(doc, r)
    &&& shows_no_connects(doc, r)
    &&& shows_wires(doc, r)
    &&& shows_net_labels(doc, r)
    &&& shows_global_labels(doc, r)
    &&& shows_hier_labels(doc, r)
    &&& shows_outlines(doc, r)
    &&& shows_blocks(doc, plan, r)
    &&& shows_symbols(doc, design, blocks, placed, r, project, path)
}

/// The document of a sheet shows everything that was placed and routed on it, and nothing else.
#[verifier::spinoff_prover]
pub proof fn law_document_shows_the_sheet(
    design: DesignModel,
    blocks: Seq<SexprView>,
    plan: SheetPlan,
    placed: Seq<PlacedComp>,
    r: RoutedSheet,
    si: int,
    prefix: Option<Seq<char>>,
    opts: SchOptions,
)
    requires
        blocks_fit(design, blocks),
        comps_fit(design, placed),
        sheets_fit(plan, blocks_view(r.blocks@)),
        countable(placed, r),
    ensures
        ({
            let w = sheet_document(design, blocks, plan, placed, r, si, prefix, opts);
            shows_sheet(
                w.document(),
                design,
                blocks,
                plan,
                placed,
                r,
                opts.project_name@,
                w.path_prefix(),
            )
        }),
{
    let w = sheet_document(design, blocks, plan, placed, r, si, prefix, opts);
    let t = lemma_sheet_fields(design, blocks, plan, placed, r, si, prefix, opts);
    let doc = w.document();
    lemma_shown_tags(design, blocks, plan, placed, r, w, t.0, t.1, t.2, t.3);
    lemma_kinds(w);
    assert(t.0.path_prefix() == w.path_prefix());
    assert(paths(r.wires@).len() == r.wires@.len());
    assert forall|i: int| 0 <= i < w.junctions.len() implies is_junction(
        #[trigger] w.junctions[i],
        r.junctions@[i],
    ) by {
        assert(w.junctions[0 + i] == w.junctions[i]);
        let p = r.junctions@[i];
    }
    assert forall|i: int| 0 <= i < w.no_connects.len() implies is_no_connect(
        #[trigger] w.no_connects[i],
        r.no_connects@[i],
    ) by {
        let p = r.no_connects@[i];
    }
    let runs = runs_of(paths(r.wires@), r.wires@.len() as int);
    assert forall|i: int| 0 <= i < w.wires.len() implies is_run(#[trigger] w.wires[i], runs[i]) by {
        let p = runs[i];
    }
    assert forall|i: int| 0 <= i < w.labels.len() implies is_net_label(
        #[trigger] w.labels[i],
        r.net_labels@[i],
    ) by {
        let p = r.net_labels@[i];
    }
    assert forall|i: int| 0 <= i < w.global_labels.len() implies is_global_label(
        #[trigger] w.global_labels[i],
        r.global_labels@[i],
    ) by {
        let p = r.global_labels@[i];
    }
    assert forall|i: int| 0 <= i < w.hier_labels.len() implies is_hier_label(
        #[trigger] w.hier_labels[i],
        r.hier_labels@[i],
    ) by {
        let p = r.hier_labels@[i];
    }
    assert forall|i: int| 0 <= i < w.graphics.len() implies is_outline(
        #[trigger] w.graphics[i],
        r.zones@[i],
    ) by {
        let p = r.zones@[i];
    }
    let bs = blocks_view(r.blocks@);
    assert forall|i: int| 0 <= i < w.sheets.len() implies is_block(
        #[trigger] w.sheets[i],
        plan.sheets@[bs[i].sheet as int],
        bs[i],
    ) by {
        let p = bs[i];
    }
    lemma_symbols_shown(design, blocks, placed, r, w, t.0, t.1, t.2, t.3);
}

/// The elements of each list are of its kind.
pub proof fn lemma_shown_tags(
    design: DesignModel,
    blocks: Seq<SexprView>,
    plan: SheetPlan,
    placed: Seq<PlacedComp>,
    r: RoutedSheet,
    w: WriterView,
    w0: WriterView,
    w1: WriterView,
    w7: WriterView,
    w8: WriterView,
)
    requires
        ({
            let none = Seq::<SexprView>::empty();
            &&& junctions_shown(w.junctions, none, r.junctions@, r.junctions@.len() as int)
            &&& no_connects_shown(w.no_connects, none, r.no_connects@, r.no_connects@.len() as int)
            &&& runs_shown(w.wires, none, runs_of(paths(r.wires@), paths(r.wires@).len() as int))
            &&& net_labels_shown(w.labels, none, r.net_labels@, r.net_labels@.len() as int)
            &&& global_labels_shown(
                w.global_labels,
                none,
                r.global_labels@,
                r.global_labels@.len() as int,
            )
            &&& hier_labels_shown(w.hier_labels, none, r.hier_labels@, r.hier_labels@.len() as int)
            &&& outlines_shown(w.graphics, none, r.zones@, r.zones@.len() as int)
            &&& all_tagged(w.texts, "text"@)
            &&& blocks_shown(
                w.sheets,
                none,
                plan,
                blocks_view(r.blocks@),
                blocks_view(r.blocks@).len() as int,
            )
            &&& w0.symbols == none
            &&& comps_shown(w1, w0, design, blocks, placed, placed.len() as int)
            &&& rails_shown(w7, w1, r.power_symbols@, r.power_symbols@.len() as int)
            &&& flags_shown(w8, w7, r.pwr_flags@, r.pwr_flags@.len() as int)
            &&& w8.symbols == w.symbols
        }),
    ensures
        sorted_in(w),
{
    assert forall|i: int| 0 <= i < w.junctions.len() implies is_tagged(
        #[trigger] w.junctions[i],
        "junction"@,
    ) by {
        assert(is_junction(w.junctions[0 + i], r.junctions@[i]));
    }
    assert forall|i: int| 0 <= i < w.no_connects.len() implies is_tagged(
        #[trigger] w.no_connects[i],
        "no_connect"@,
    ) by {
        assert(is_no_connect(w.no_connects[0 + i], r.no_connects@[i]));
    }
    let runs = runs_of(paths(r.wires@), paths(r.wires@).len() as int);
    assert forall|i: int| 0 <= i < w.wires.len() implies is_tagged(#[trigger] w.wires[i], "wire"@) by {
        assert(is_run(w.wires[0 + i], runs[i]));
    }
    assert forall|i: int| 0 <= i < w.labels.len() implies is_tagged(
        #[trigger] w.labels[i],
        "label"@,
    ) by {
        assert(is_net_label(w.labels[0 + i], r.net_labels@[i]));
    }
    assert forall|i: int| 0 <= i < w.global_labels.len() implies is_tagged(
        #[trigger] w.global_labels[i],
        "global_label"@,
    ) by {
        assert(is_global_label(w.global_labels[0 + i], r.global_labels@[i]));
    }
    assert forall|i: int| 0 <= i < w.hier_labels.len() implies is_tagged(
        #[trigger] w.hier_labels[i],
        "hierarchical_label"@,
    ) by {
        assert(is_hier_label(w.hier_labels[0 + i], r.hier_labels@[i]));
    }
    assert forall|i: int| 0 <= i < w.graphics.len() implies is_tagged(
        #[trigger] w.graphics[i],
        "rectangle"@,
    ) by {
        assert(is_outline(w.graphics[0 + i], r.zones@[i]));
    }
    let bs = blocks_view(r.blocks@);
    assert forall|i: int| 0 <= i < w.sheets.len() implies is_tagged(
        #[trigger] w.sheets[i],
        "sheet"@,
    ) by {
        assert(is_block(w.sheets[0 + i], plan.sheets@[bs[i].sheet as int], bs[i]));
    }
    assert forall|i: int| 0 <= i < w.symbols.len() implies is_tagged(
        #[trigger] w.symbols[i],
        "symbol"@,
    ) by {
        let a = placed.len() as int;
        let b = a + r.power_symbols@.len();
        if i < a {
            let p = placed[i];
            assert(w1.symbols[0 + i] == w.symbols[i]);
        } else if i < b {
            assert(is_rail_symbol(w7.symbols[a + (i - a)], r.power_symbols@[i - a]));
            assert(w7.symbols[i] == w.symbols[i]);
        } else {
            assert(is_flag_symbol(w8.symbols[b + (i - b)], r.pwr_flags@[i - b]));
        }
    }
}

#[verifier::spinoff_prover]
proof fn lemma_symbols_shown(
    design: DesignModel,
    blocks: Seq<SexprView>,
    placed: Seq<PlacedComp>,
    r: RoutedSheet,
    w: WriterView,
    w0: WriterView,
    w1: WriterView,
    w7: WriterView,
    w8: WriterView,
)
    requires
        sorted_in(w),
        w0.symbols == Seq::<SexprView>::empty(),
        w0.project == w.project,
        w0.path_prefix() == w.path_prefix(),
        comps_shown(w1, w0, design, blocks, placed, placed.len() as int),
        rails_shown(w7, w1, r.power_symbols@, r.power_symbols@.len() as int),
        flags_shown(w8, w7, r.pwr_flags@, r.pwr_flags@.len() as int),
        w1.libs.is_prefix_of(w7.libs),
        w7.libs.is_prefix_of(w8.libs),
        w8.libs == w.libs,
        w8.symbols == w.symbols,
        libs_sound(w.libs),
        w.libs.len() <= usize::MAX,
    ensures
        shows_symbols(w.document(), design, blocks, placed, r, w.project, w.path_prefix()),
{
    let doc = w.document();
    lemma_kinds(w);
    let v = w.symbols;
    let a = placed.len() as int;
    let b = a + r.power_symbols@.len();
    let trees = library(doc);
    assert forall|i: int| 0 <= i < a implies is_comp_symbol(
        v[i],
        design.comps@[(#[trigger] placed[i]).comp as int],
        placed[i],
        w.project,
        w.path_prefix(),
    ) && trees.contains(blocks[placed[i].comp as int]) && has_library(w.libs, v[i]) by {
        let c = design.comps@[placed[i].comp as int];
        let block = blocks[placed[i].comp as int];
        assert(w1.symbols[0 + i] == v[i]);
        lemma_held_stays(w1.libs, w7.libs, c, block);
        lemma_held_stays(w7.libs, w8.libs, c, block);
        let k = choose|k: int|
            0 <= k < w.libs.len() && (#[trigger] w.libs[k]).id == c.geom.lib_id@ && w.libs[k].tree
                == block;
        lemma_in_library(w, k);
        assert(says_under(v[i], "lib_id"@, w.libs[k].id));
    }
    assert forall|i: int| 0 <= i < r.power_symbols@.len() implies is_rail_symbol(
        v[a + i],
        #[trigger] r.power_symbols@[i],
    ) && has_library(w.libs, v[a + i]) by {
        assert(is_rail_symbol(w7.symbols[w1.symbols.len() + i], r.power_symbols@[i]));
        assert(w7.symbols[a + i] == v[a + i]);
        assert(has_library(w7.libs, v[a + i]));
        lemma_library_stays(w7.libs, w8.libs, v[a + i]);
    }
    assert forall|i: int| 0 <= i < r.pwr_flags@.len() implies is_flag_symbol(
        v[b + i],
        #[trigger] r.pwr_flags@[i],
    ) && has_library(w.libs, v[b + i]) by {
        assert(is_flag_symbol(w8.symbols[w7.symbols.len() + i], r.pwr_flags@[i]));
    }
    assert forall|i: int| 0 <= i < v.len() implies finds_library(doc, #[trigger] v[i]) by {
        if i < a {
            let p = placed[i];
        } else if i < b {
            let p = r.power_symbols@[i - a];
            assert(v[a + (i - a)] == v[i]);
        } else {
            let p = r.pwr_flags@[i - b];
            assert(v[b + (i - b)] == v[i]);
        }
        assert(has_library(w.libs, v[i]));
        lemma_finds_library(w, v[i]);
    }
}

proof fn lemma_in_library(w: WriterView, k: int)
    requires
        sorted_in(w),
        0 <= k < w.libs.len() <= usize::MAX,
    ensures
        library(w.document()).contains(w.libs[k].tree),
{
    lemma_kinds(w);
    lemma_library(w, k);
    let trees = library(w.document());
    assert(trees == seq![SexprView::Symbol("lib_symbols"@)] + w.lib_trees());
    let j = choose|j: int| 0 <= j < w.lib_trees().len() && w.lib_trees()[j] == w.libs[k].tree;
    assert(trees[j + 1] == w.libs[k].tree);
}

proof fn lemma_finds_library(w: WriterView, node: SexprView)
    requires
        sorted_in(w),
        libs_sound(w.libs),
        w.libs.len() <= usize::MAX,
        has_library(w.libs, node),
    ensures
        finds_library(w.document(), node),
{
    let k = choose|k: int|
        0 <= k < w.libs.len() && says_under(node, "lib_id"@, (#[trigger] w.libs[k]).id);
    lemma_in_library(w, k);
    let trees = library(w.document());
    let j = choose|j: int| 0 <= j < trees.len() && trees[j] == w.libs[k].tree;
    assert(says(trees[j], w.libs[k].id));
    assert(names_library(w.document(), node, j));
}

} // verus!
