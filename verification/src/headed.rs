//! The head of a document, and the paths by which the sheets of a design are found.

use vstd::prelude::*;
use crate::canvas::{blocks_view, BlockView, RoutedSheet};
use crate::document::{sheet_head, sheet_pins, WriterView};
use crate::extract::{comp_order, first_unsound};
use crate::generate::{
    block_of, child_paths, is_generated, paper_for, with_paths, GeneratedSchematic, SchOptions,
    Steps,
};
use crate::model::DesignModel;
use crate::nodes::{v_int, v_node, v_text};
use crate::place::PlacedComp;
use crate::reader::{
    elements, group_reading, inside, lemma_elements_all, lemma_pair, lemma_tags, says_under,
};
use crate::schematic::Schematic;
use crate::seats::{law_one_id_for_one_block, one_tree_per_text};
use crate::sexpr::SexprView;
use crate::sheets::{SheetDef, SheetPlan};
use crate::shown::{
    countable, law_document_shows_the_sheet, lemma_kinds, lemma_sheet_fields, lemma_shown_tags,
    sheet_document, shows_sheet, sorted_in,
};
use crate::uuid::{key_of, UuidGenView};
use crate::writer::{v_uuid, KICAD_SCH_VERSION};
use crate::written::{
    blocks_fit, comps_fit, lemma_blocks, lemma_sheet_head, lemma_sheet_pins, sheets_fit,
};

verus! {

// ---------------------------------------------------------------- the head

/// The head element with the tag.
pub open spec fn head_of(w: WriterView, tag: Seq<char>) -> SexprView {
    if tag == "generator"@ {
        v_node("generator"@, seq![v_text(w.generator)])
    } else if tag == "generator_version"@ {
        v_node("generator_version"@, seq![v_text(w.generator_version)])
    } else if tag == "uuid"@ {
        v_uuid(w.uuids.root_id())
    } else if tag == "paper"@ {
        v_node("paper"@, seq![v_text(w.paper)])
    } else {
        v_node("title_block"@, seq![v_node("title"@, seq![v_text(w.title)])])
    }
}

pub open spec fn is_head(tag: Seq<char>) -> bool {
    tag == "generator"@ || tag == "generator_version"@ || tag == "uuid"@ || tag == "paper"@ || tag
        == "title_block"@
}

#[verifier::spinoff_prover]
proof fn lemma_head_only(w: WriterView, tag: Seq<char>)
    requires
        is_head(tag),
    ensures
        elements(
            Seq::<SexprView>::empty().push(
                v_node("version"@, seq![v_int(KICAD_SCH_VERSION as int)]),
            ).push(v_node("generator"@, seq![v_text(w.generator)])).push(
                v_node("generator_version"@, seq![v_text(w.generator_version)]),
            ).push(v_uuid(w.uuids.root_id())).push(v_node("paper"@, seq![v_text(w.paper)])).push(
                v_node("title_block"@, seq![v_node("title"@, seq![v_text(w.title)])]),
            ).push(v_node("lib_symbols"@, w.lib_trees())),
            tag,
        ) == seq![head_of(w, tag)],
{
    broadcast use group_reading;

    lemma_tags();
    let head = elements(
        Seq::<SexprView>::empty().push(
            v_node("version"@, seq![v_int(KICAD_SCH_VERSION as int)]),
        ).push(v_node("generator"@, seq![v_text(w.generator)])).push(
            v_node("generator_version"@, seq![v_text(w.generator_version)]),
        ).push(v_uuid(w.uuids.root_id())).push(v_node("paper"@, seq![v_text(w.paper)])).push(
            v_node("title_block"@, seq![v_node("title"@, seq![v_text(w.title)])]),
        ).push(v_node("lib_symbols"@, w.lib_trees())),
        tag,
    );
    assert(head =~= seq![head_of(w, tag)]);
}

#[verifier::spinoff_prover]
proof fn lemma_head(w: WriterView, tag: Seq<char>)
    requires
        sorted_in(w),
        is_head(tag),
    ensures
        inside(w.document(), tag) == seq![head_of(w, tag)],
{
    broadcast use group_reading;

    lemma_tags();
    lemma_head_only(w, tag);
    lemma_elements_all(w.junctions, "junction"@, tag);
    lemma_elements_all(w.no_connects, "no_connect"@, tag);
    lemma_elements_all(w.wires, "wire"@, tag);
    lemma_elements_all(w.labels, "label"@, tag);
    lemma_elements_all(w.global_labels, "global_label"@, tag);
    lemma_elements_all(w.hier_labels, "hierarchical_label"@, tag);
    lemma_elements_all(w.texts, "text"@, tag);
    lemma_elements_all(w.graphics, "rectangle"@, tag);
    lemma_elements_all(w.symbols, "symbol"@, tag);
    lemma_elements_all(w.sheets, "sheet"@, tag);
    assert(inside(w.document(), tag) =~= seq![head_of(w, tag)]);
}

/// The document names what it is: the paper, who wrote it, its own id, and the title of the sheet.
pub open spec fn is_headed(
    doc: SexprView,
    paper: Seq<char>,
    generator: Seq<char>,
    version: Seq<char>,
    title: Seq<char>,
    id: Seq<char>,
) -> bool {
    &&& says_under(doc, "paper"@, paper)
    &&& says_under(doc, "generator"@, generator)
    &&& says_under(doc, "generator_version"@, version)
    &&& says_under(doc, "uuid"@, id)
    &&& inside(doc, "title_block"@).len() == 1
    &&& says_under(inside(doc, "title_block"@)[0], "title"@, title)
}

/// The document of a sheet bears its title, the paper that its content needs, the name and the
/// version of its generator, and its own id.
pub proof fn law_document_is_headed(
    design: DesignModel,
    blocks: Seq<SexprView>,
    plan: SheetPlan,
    placed: Seq<PlacedComp>,
    r: RoutedSheet,
    si: int,
    prefix: Option<Seq<char>>,
    opts: SchOptions,
)
    requires
        blocks_fit(design, blocks),
        comps_fit(design, placed),
        sheets_fit(plan, blocks_view(r.blocks@)),
        countable(placed, r),
    ensures
        ({
            let w = sheet_document(design, blocks, plan, placed, r, si, prefix, opts);
            is_headed(
                w.document(),
                paper_for(opts.config, r.extents).spec_kicad_name(),
                opts.generator@,
                opts.generator_version@,
                plan.sheets@[si].title@,
                w.uuids.root_id(),
            )
        }),
{
    let w = sheet_document(design, blocks, plan, placed, r, si, prefix, opts);
    let t = lemma_sheet_fields(design, blocks, plan, placed, r, si, prefix, opts);
    lemma_shown_tags(design, blocks, plan, placed, r, w, t.0, t.1, t.2, t.3);
    lemma_head_reads(w);
}

proof fn lemma_head_reads(w: WriterView)
    requires
        sorted_in(w),
    ensures
        is_headed(
            w.document(),
            w.paper,
            w.generator,
            w.generator_version,
            w.title,
            w.uuids.root_id(),
        ),
{
    lemma_tags();
    lemma_head(w, "paper"@);
    lemma_head(w, "generator"@);
    lemma_head(w, "generator_version"@);
    lemma_head(w, "uuid"@);
    lemma_head(w, "title_block"@);
    lemma_pair("paper"@, v_text(w.paper));
    lemma_pair("generator"@, v_text(w.generator));
    lemma_pair("generator_version"@, v_text(w.generator_version));
    lemma_pair("uuid"@, v_text(w.uuids.root_id()));
    lemma_pair("title"@, v_text(w.title));
    lemma_title(w.title);
}

proof fn lemma_title(title: Seq<char>)
    ensures
        inside(v_node("title_block"@, seq![v_node("title"@, seq![v_text(title)])]), "title"@)
            == seq![v_node("title"@, seq![v_text(title)])],
{
    broadcast use group_reading;

    let t = v_node("title"@, seq![v_text(title)]);
    assert(elements(Seq::<SexprView>::empty().push(t), "title"@) =~= seq![t]);
}

// ---------------------------------------------------------------- the ids of blocks

#[verifier::spinoff_prover]
proof fn lemma_block_id(w: WriterView, child: SheetDef, b: BlockView, id: Seq<char>, u: UuidGenView)
    ensures
        ({
            let o = block_of(child, b);
            says_under(
                v_node(
                    "sheet"@,
                    (sheet_head(o, id) + sheet_pins(u, o, o.pins.len() as int).0).push(
                        w.instances(seq![v_node("page"@, seq![v_text(o.page)])]),
                    ),
                ),
                "uuid"@,
                id,
            )
        }),
{
    broadcast use group_reading;

    lemma_tags();
    let o = block_of(child, b);
    lemma_sheet_pins(u, child, b, b.pins.len() as int);
    let pins = sheet_pins(u, o, o.pins.len() as int).0;
    let tie = w.instances(seq![v_node("page"@, seq![v_text(o.page)])]);
    let node = v_node("sheet"@, (sheet_head(o, id) + pins).push(tie));
    lemma_elements_all(pins, "pin"@, "uuid"@);
    lemma_sheet_head(o, id, "uuid"@);
    lemma_pair("uuid"@, v_text(id));
    assert(inside(node, "uuid"@) =~= seq![v_uuid(id)]);
}

/// Each block carries the id that was taken for it.
proof fn lemma_block_ids(w: WriterView, plan: SheetPlan, bs: Seq<BlockView>, n: int)
    requires
        0 <= n <= bs.len(),
        sheets_fit(plan, bs),
    ensures
        w.with_blocks(plan, bs, n).sheets.len() == w.sheets.len() + n,
        forall|i: int|
            0 <= i < n ==> says_under(
                w.with_blocks(plan, bs, n).sheets[w.sheets.len() + i],
                "uuid"@,
                w.with_blocks(plan, bs, i).sheet_id(
                    block_of(plan.sheets@[(#[trigger] bs[i]).sheet as int], bs[i]),
                ),
            ),
    decreases n,
{
    if n > 0 {
        lemma_block_ids(w, plan, bs, n - 1);
        let p = w.with_blocks(plan, bs, n - 1);
        let b = bs[n - 1];
        let child = plan.sheets@[b.sheet as int];
        let o = block_of(child, b);
        let r = w.with_blocks(plan, bs, n);
        let k = key_of(seq!["sheet"@, o.file_name, o.title]);
        lemma_block_id(p, child, b, p.sheet_id(o), p.uuids.after(k));
        assert forall|i: int| 0 <= i < n implies says_under(
            r.sheets[w.sheets.len() + i],
            "uuid"@,
            w.with_blocks(plan, bs, i).sheet_id(
                block_of(plan.sheets@[(#[trigger] bs[i]).sheet as int], bs[i]),
            ),
        ) by {
            if i < n - 1 {
                assert(r.sheets[w.sheets.len() + i] == p.sheets[w.sheets.len() + i]);
            } else {
                assert(r.sheets[w.sheets.len() + i] == r.sheets.last());
            }
        }
    }
}

// ---------------------------------------------------------------- paths

proof fn lemma_child_paths(w: WriterView, plan: SheetPlan, bs: Seq<BlockView>, n: int)
    requires
        0 <= n <= bs.len(),
        sheets_fit(plan, bs),
    ensures
        child_paths(w, plan, bs, n).len() == n,
        forall|i: int|
            0 <= i < n ==> (#[trigger] child_paths(w, plan, bs, n)[i]).0 == bs[i].sheet
                && child_paths(w, plan, bs, n)[i].1 == w.path_prefix() + seq!['/']
                + w.with_blocks(plan, bs, i).sheet_id(
                block_of(plan.sheets@[bs[i].sheet as int], bs[i]),
            ),
    decreases n,
{
    if n > 0 {
        lemma_child_paths(w, plan, bs, n - 1);
        assert(bs[n - 1].sheet < plan.sheets@.len());
    }
}

/// The path that is listed for a sheet is set, where it is listed once; others stay.
proof fn lemma_with_paths(
    v: Seq<Option<Seq<char>>>,
    kids: Seq<(usize, Seq<char>)>,
    n: int,
    s: int,
)
    requires
        0 <= n <= kids.len(),
        0 <= s < v.len(),
        forall|i: int| 0 <= i < kids.len() ==> (#[trigger] kids[i]).0 < v.len(),
        forall|i: int, j: int|
            0 <= i < kids.len() && 0 <= j < kids.len() && (#[trigger] kids[i]).0 == (
            #[trigger] kids[j]).0 ==> i == j,
    ensures
        with_paths(v, kids, n).len() == v.len(),
        forall|k: int|
            0 <= k < n && (#[trigger] kids[k]).0 == s ==> with_paths(v, kids, n)[s] == Some(
                kids[k].1,
            ),
        (forall|k: int| 0 <= k < n ==> (#[trigger] kids[k]).0 != s) ==> with_paths(v, kids, n)[s]
            == v[s],
    decreases n,
{
    if n > 0 {
        lemma_with_paths(v, kids, n - 1, s);
        assert(kids[n - 1].0 < v.len());
    }
}

/// Every block stands for a sheet behind its own, and no two blocks for the same one.
pub open spec fn blocks_form_a_tree(st: Steps) -> bool {
    let n = st.plan.sheets@.len() as int;
    &&& forall|si: int| 0 <= si < n ==> sheets_fit(st.plan, #[trigger] st.blocks(si))
    &&& forall|si: int, k: int|
        0 <= si < n && 0 <= k < st.blocks(si).len() ==> (#[trigger] st.blocks(si)[k]).sheet > si
    &&& forall|a: int, k: int, b: int, l: int|
        0 <= a < n && 0 <= b < n && 0 <= k < st.blocks(a).len() && 0 <= l < st.blocks(b).len() && (
        #[trigger] st.blocks(a)[k]).sheet == (#[trigger] st.blocks(b)[l]).sheet ==> a == b && k == l
}

/// The kids of sheet number `si`, with their paths.
pub open spec fn kids_of(st: Steps, opts: SchOptions, si: int) -> Seq<(usize, Seq<char>)> {
    let w = st.drawn(opts, si, st.paths_upto(opts, si)[si]);
    child_paths(w, st.plan, st.blocks(si), st.blocks(si).len() as int)
}

proof fn lemma_kids(st: Steps, opts: SchOptions, si: int)
    requires
        blocks_form_a_tree(st),
        0 <= si < st.plan.sheets@.len(),
    ensures
        ({
            let kids = kids_of(st, opts, si);
            &&& kids.len() == st.blocks(si).len()
            &&& forall|i: int| 0 <= i < kids.len() ==> (#[trigger] kids[i]).0 == st.blocks(si)[i].sheet
            &&& forall|i: int| 0 <= i < kids.len() ==> (#[trigger] kids[i]).0 < st.plan.sheets@.len()
            &&& forall|i: int, j: int|
                0 <= i < kids.len() && 0 <= j < kids.len() && (#[trigger] kids[i]).0 == (
                #[trigger] kids[j]).0 ==> i == j
        }),
{
    let w = st.drawn(opts, si, st.paths_upto(opts, si)[si]);
    let bs = st.blocks(si);
    lemma_child_paths(w, st.plan, bs, bs.len() as int);
    let kids = kids_of(st, opts, si);
    assert forall|i: int| 0 <= i < kids.len() implies (#[trigger] kids[i]).0
        < st.plan.sheets@.len() by {
        assert(bs[i].sheet < st.plan.sheets@.len());
    }
    assert forall|i: int, j: int|
        0 <= i < kids.len() && 0 <= j < kids.len() && (#[trigger] kids[i]).0 == (
        #[trigger] kids[j]).0 implies i == j by {
        assert(st.blocks(si)[i].sheet == st.blocks(si)[j].sheet);
    }
}

/// Once a sheet is written, the paths of the sheets on it are known and stay.
proof fn lemma_path_known(st: Steps, opts: SchOptions, si: int, k: int, n: int)
    requires
        blocks_form_a_tree(st),
        0 <= si < n <= st.plan.sheets@.len(),
        0 <= k < st.blocks(si).len(),
    ensures
        st.paths_upto(opts, n).len() == st.plan.sheets@.len(),
        st.paths_upto(opts, n)[st.blocks(si)[k].sheet as int] == Some(kids_of(st, opts, si)[k].1),
    decreases n,
{
    let s = st.blocks(si)[k].sheet as int;
    let before = st.paths_upto(opts, n - 1);
    lemma_paths_len(st, opts, n - 1);
    lemma_kids(st, opts, n - 1);
    lemma_kids(st, opts, si);
    let kids = kids_of(st, opts, n - 1);
    assert(st.blocks(si)[k].sheet < st.plan.sheets@.len()) by {
        assert(sheets_fit(st.plan, st.blocks(si)));
    }
    lemma_with_paths(before, kids, kids.len() as int, s);
    if si == n - 1 {
        assert(kids[k].0 == s);
    } else {
        lemma_path_known(st, opts, si, k, n - 1);
        assert forall|j: int| 0 <= j < kids.len() implies (#[trigger] kids[j]).0 != s by {
            if kids[j].0 == s {
                assert(st.blocks(n - 1)[j].sheet == st.blocks(si)[k].sheet);
            }
        }
    }
}

proof fn lemma_paths_len(st: Steps, opts: SchOptions, n: int)
    requires
        blocks_form_a_tree(st),
        0 <= n <= st.plan.sheets@.len(),
    ensures
        st.paths_upto(opts, n).len() == st.plan.sheets@.len(),
    decreases n,
{
    if n > 0 {
        lemma_paths_len(st, opts, n - 1);
        lemma_kids(st, opts, n - 1);
        let kids = kids_of(st, opts, n - 1);
        lemma_with_paths(st.paths_upto(opts, n - 1), kids, kids.len() as int, 0);
    }
}

/// What a document of the design is written from.
pub open spec fn writer_of(st: Steps, opts: SchOptions, si: int) -> WriterView {
    sheet_document(
        st.design,
        st.symbols,
        st.plan,
        st.finished[si].placed@,
        st.routed[si],
        si,
        st.paths_upto(opts, si)[si],
        opts,
    )
}

/// What is needed to draw the sheet.
pub open spec fn sheet_fits(st: Steps, si: int) -> bool {
    &&& 0 <= si < st.plan.sheets@.len()
    &&& comps_fit(st.design, st.finished[si].placed@)
    &&& sheets_fit(st.plan, st.blocks(si))
    &&& countable(st.finished[si].placed@, st.routed[si])
}

/// The file shows its sheet, with symbols that are tied to the path.
pub open spec fn shows_under(
    g: GeneratedSchematic,
    opts: SchOptions,
    st: Steps,
    si: int,
    path: Seq<char>,
) -> bool {
    shows_sheet(
        g.files@[si].content@,
        st.design,
        st.symbols,
        st.plan,
        st.finished[si].placed@,
        st.routed[si],
        opts.project_name@,
        path,
    )
}

proof fn lemma_file(g: GeneratedSchematic, sch: Schematic, opts: SchOptions, st: Steps, si: int)
    requires
        is_generated(g, sch, opts, st),
        first_unsound(sch, comp_order(sch), 0) is None,
        one_tree_per_text(sch),
        sheet_fits(st, si),
    ensures
        ({
            let w = writer_of(st, opts, si);
            let start = st.drawn(opts, si, st.paths_upto(opts, si)[si]);
            &&& g.files@[si].content@ == w.document()
            &&& shows_under(g, opts, st, si, w.path_prefix())
            &&& w.prefix == st.paths_upto(opts, si)[si]
            &&& start.path_prefix() == w.path_prefix()
            &&& inside(w.document(), "sheet"@) == w.sheets
            &&& start.sheets.len() == 0
            &&& says_under(w.document(), "uuid"@, w.uuids.root_id())
            &&& w == start.with_blocks(st.plan, st.blocks(si), st.blocks(si).len() as int)
        }),
{
    reveal(is_generated);
    let w = writer_of(st, opts, si);
    let placed = st.finished[si].placed@;
    let r = st.routed[si];
    let prefix = st.paths_upto(opts, si)[si];
    let start = st.drawn(opts, si, prefix);
    law_one_id_for_one_block(sch, st.design, opts.config.bulk_capacitance_pf);
    law_document_shows_the_sheet(st.design, st.symbols, st.plan, placed, r, si, prefix, opts);
    law_document_is_headed(st.design, st.symbols, st.plan, placed, r, si, prefix, opts);
    let t = lemma_sheet_fields(st.design, st.symbols, st.plan, placed, r, si, prefix, opts);
    lemma_shown_tags(st.design, st.symbols, st.plan, placed, r, w, t.0, t.1, t.2, t.3);
    lemma_kinds(w);
    lemma_blocks(start, st.plan, st.blocks(si), st.blocks(si).len() as int);
    assert(st.document(opts, si) == w.document());
}

/// The symbols of the root sheet are tied to the id of its document.
pub proof fn law_root_path_is_its_id(
    g: GeneratedSchematic,
    sch: Schematic,
    opts: SchOptions,
    st: Steps,
)
    requires
        is_generated(g, sch, opts, st),
        first_unsound(sch, comp_order(sch), 0) is None,
        one_tree_per_text(sch),
        sheet_fits(st, 0),
    ensures
        exists|id: Seq<char>| #[trigger]
            says_under(g.files@[0].content@, "uuid"@, id) && shows_under(
                g,
                opts,
                st,
                0,
                seq!['/'] + id,
            ),
{
    lemma_file(g, sch, opts, st, 0);
    let w = writer_of(st, opts, 0);
    assert(says_under(g.files@[0].content@, "uuid"@, w.uuids.root_id()));
}

/// The symbols of a child sheet are tied to the path of its parent, followed by the id of the block
/// that stands for the child on the parent.
pub proof fn law_paths_lead_through_blocks(
    g: GeneratedSchematic,
    sch: Schematic,
    opts: SchOptions,
    st: Steps,
    si: int,
    k: int,
)
    requires
        is_generated(g, sch, opts, st),
        first_unsound(sch, comp_order(sch), 0) is None,
        one_tree_per_text(sch),
        blocks_form_a_tree(st),
        sheet_fits(st, si),
        0 <= k < st.blocks(si).len(),
        sheet_fits(st, st.blocks(si)[k].sheet as int),
    ensures
        exists|path: Seq<char>, id: Seq<char>|
            #![trigger shows_under(g, opts, st, si, path), says_under(
                inside(g.files@[si].content@, "sheet"@)[k],
                "uuid"@,
                id,
            )]
            shows_under(g, opts, st, si, path) && says_under(
                inside(g.files@[si].content@, "sheet"@)[k],
                "uuid"@,
                id,
            ) && shows_under(
                g,
                opts,
                st,
                st.blocks(si)[k].sheet as int,
                path + seq!['/'] + id,
            ),
{
    let s = st.blocks(si)[k].sheet as int;
    let bs = st.blocks(si);
    let start = st.drawn(opts, si, st.paths_upto(opts, si)[si]);
    let w = writer_of(st, opts, si);
    lemma_file(g, sch, opts, st, si);
    lemma_file(g, sch, opts, st, s);
    assert(st.blocks(si)[k].sheet > si);
    lemma_path_known(st, opts, si, k, s);
    lemma_child_paths(start, st.plan, bs, bs.len() as int);
    lemma_block_ids(start, st.plan, bs, bs.len() as int);
    let id = start.with_blocks(st.plan, bs, k).sheet_id(
        block_of(st.plan.sheets@[bs[k].sheet as int], bs[k]),
    );
    let path = w.path_prefix();
    assert(kids_of(st, opts, si)[k].1 == path + seq!['/'] + id);
    assert(writer_of(st, opts, s).path_prefix() == path + seq!['/'] + id);
    assert(inside(g.files@[si].content@, "sheet"@)[k] == w.sheets[0 + k]);
    assert(shows_under(g, opts, st, si, path));
    assert(says_under(inside(g.files@[si].content@, "sheet"@)[k], "uuid"@, id));
}

} // verus!
