//! What the document of a sheet shows: every element of the routed sheet, and nothing else.

use vstd::prelude::*;
use crate::canvas::{
    BlockPin, BlockView, GlobalLabel, HierLabel, NetLabel, PowerSymbol, PwrFlag, Zone,
};
use crate::document::{
    lib_at, moved_by, pin_nodes, pin_numbers, power_id_of, sheet_head, sheet_pins, with_lib,
    LibView, SheetRefView, WriterView,
};
use crate::extract::{opt_chars, opt_text_chars};
use crate::generate::{block_of, place_of};
use crate::model::{Comp, DesignModel};
use crate::nodes::{v_at, v_at_turned, v_int, v_node, v_num, v_text, v_word, v_xy};
use crate::place::PlacedComp;
use crate::reader::{
    all_tagged, carries, chooses, direction_word, elements, group_reading, has_property, inside,
    is_mark, items_of, labels_itself, lemma_at, lemma_elements_all, lemma_five, lemma_four,
    lemma_mark_says, lemma_pair, lemma_pin_nodes, lemma_symbol_carries, lemma_symbol_says,
    lemma_symbol_tied, lemma_tags, lemma_three, lemma_two, lemma_uses_tag, mirrored, runs_between,
    says, says_under, stands_at, stands_turned, tied,
};
use crate::sexpr::{is_tagged, SexprView};
use crate::sheets::{SheetDef, SheetPlan};
use crate::units::Point;
use crate::uuid::{key_of, UuidGenView};
use crate::writer::{
    edge_rotation, flag_tokens, label_tokens, v_effects, v_flag_symbol, v_power_symbol, v_property,
    v_stroke, v_uuid, xy_text, PortDirection, POWER_LIB_NICKNAME,
};

verus! {

// ---------------------------------------------------------------- what is shown

/// The junction stands at the point.
pub open spec fn is_junction(node: SexprView, at: Point) -> bool {
    is_tagged(node, "junction"@) && stands_at(node, at)
}

pub open spec fn is_no_connect(node: SexprView, at: Point) -> bool {
    is_tagged(node, "no_connect"@) && stands_at(node, at)
}

/// The wire runs straight between the points.
pub open spec fn is_run(node: SexprView, ends: (Point, Point)) -> bool {
    is_tagged(node, "wire"@) && runs_between(node, ends.0, ends.1)
}

pub open spec fn is_net_label(node: SexprView, l: NetLabel) -> bool {
    is_tagged(node, "label"@) && says(node, l.net@) && stands_turned(node, l.at, l.rotation as int)
}

pub open spec fn is_global_label(node: SexprView, l: GlobalLabel) -> bool {
    is_tagged(node, "global_label"@) && says(node, l.net@) && stands_turned(
        node,
        l.at,
        l.rotation as int,
    ) && chooses(node, "shape"@, direction_word(l.direction))
}

pub open spec fn is_hier_label(node: SexprView, l: HierLabel) -> bool {
    is_tagged(node, "hierarchical_label"@) && says(node, l.net@) && stands_turned(
        node,
        l.at,
        l.rotation as int,
    ) && chooses(node, "shape"@, direction_word(l.direction))
}

/// The symbol stands for the component: at its place, turned and mirrored as it is placed, with its
/// texts where they were put, and with what is known of the part.
pub open spec fn is_comp_symbol(
    node: SexprView,
    c: Comp,
    p: PlacedComp,
    project: Seq<char>,
    path: Seq<char>,
) -> bool {
    &&& is_tagged(node, "symbol"@)
    &&& says_under(node, "lib_id"@, c.geom.lib_id@)
    &&& stands_turned(node, p.at, p.rotation as int)
    &&& mirrored(node, p.mirror)
    &&& labels_itself(node, c.refdes@, p.ref_at, c.value@, p.value_at)
    &&& chooses(
        node,
        "dnp"@,
        if c.dnp {
            "yes"@
        } else {
            "no"@
        },
    )
    &&& carries(node, "Footprint"@, opt_text_chars(c.footprint))
    &&& carries(node, "Datasheet"@, opt_chars(c.datasheet))
    &&& carries(node, "Description"@, opt_chars(c.description))
    &&& carries(node, "MPN"@, opt_chars(c.mpn))
    &&& tied(node, project, path, c.refdes@)
}

/// The symbol joins its place to the rail: its value is the name of the rail.
pub open spec fn is_rail_symbol(node: SexprView, s: PowerSymbol) -> bool {
    exists|id: Seq<char>| #[trigger] is_mark(node, id, s.at, 0, s.net@)
}

/// The symbol declares the rail at its place driven.
pub open spec fn is_flag_symbol(node: SexprView, f: PwrFlag) -> bool {
    exists|id: Seq<char>| #[trigger] is_mark(node, id, f.at, f.rotation as int, "PWR_FLAG"@)
}

/// The straight runs of the first `n` wires.
pub open spec fn runs_of(wires: Seq<Seq<Point>>, n: int) -> Seq<(Point, Point)>
    decreases n,
{
    if n <= 0 || n > wires.len() {
        Seq::empty()
    } else {
        let w = wires[n - 1];
        runs_of(wires, n - 1) + Seq::new(
            (if w.len() >= 2 {
                w.len() - 1
            } else {
                0
            }) as nat,
            |i: int| (w[i], w[i + 1]),
        )
    }
}

// ---------------------------------------------------------------- adding one by one

proof fn lemma_junction_node(at: Point, id: Seq<char>)
    ensures
        is_junction(
            v_node(
                "junction"@,
                seq![
                    v_at(at),
                    v_node("diameter"@, seq![v_int(0)]),
                    v_node("color"@, seq![v_int(0), v_int(0), v_int(0), v_int(0)]),
                    v_uuid(id),
                ],
            ),
            at,
        ),
{
    broadcast use group_reading;

    lemma_tags();
    lemma_at(at, 0);
    let a = v_at(at);
    let b = v_node("diameter"@, seq![v_int(0)]);
    let c = v_node("color"@, seq![v_int(0), v_int(0), v_int(0), v_int(0)]);
    lemma_four(a, b, c, v_uuid(id));
    let node = v_node("junction"@, seq![a, b, c, v_uuid(id)]);
    assert(inside(node, "at"@) =~= seq![v_at(at)]);
}

pub open spec fn junctions_shown(v: Seq<SexprView>, before: Seq<SexprView>, at: Seq<Point>, n: int) -> bool {
    &&& v.len() == before.len() + n
    &&& before.is_prefix_of(v)
    &&& forall|i: int| 0 <= i < n ==> is_junction(v[before.len() + i], #[trigger] at[i])
}

pub proof fn lemma_junctions(w: WriterView, at: Seq<Point>, n: int)
    requires
        0 <= n <= at.len(),
    ensures
        ({
            let r = w.with_junctions(at, n);
            &&& r == (WriterView { uuids: r.uuids, junctions: r.junctions, ..w })
            &&& junctions_shown(r.junctions, w.junctions, at, n)
            &&& r.uuids.seed == w.uuids.seed
        }),
    decreases n,
{
    if n > 0 {
        lemma_junctions(w, at, n - 1);
        let b = w.with_junctions(at, n - 1);
        let k = key_of(seq!["junction"@, xy_text(at[n - 1])]);
        lemma_junction_node(at[n - 1], b.uuids.next_id(k));
        let r = w.with_junctions(at, n);
        assert(r.junctions.len() == b.junctions.len() + 1);
        assert(r.junctions[w.junctions.len() + n - 1] == r.junctions.last());
        assert forall|i: int| 0 <= i < n implies is_junction(
            r.junctions[w.junctions.len() + i],
            #[trigger] at[i],
        ) by {
            if i < n - 1 {
                assert(r.junctions[w.junctions.len() + i] == b.junctions[w.junctions.len() + i]);
            }
        }
    }
}

proof fn lemma_no_connect_node(at: Point, id: Seq<char>)
    ensures
        is_no_connect(v_node("no_connect"@, seq![v_at(at), v_uuid(id)]), at),
{
    broadcast use group_reading;

    lemma_tags();
    lemma_at(at, 0);
    lemma_two(v_at(at), v_uuid(id));
    let node = v_node("no_connect"@, seq![v_at(at), v_uuid(id)]);
    assert(inside(node, "at"@) =~= seq![v_at(at)]);
}

pub open spec fn no_connects_shown(v: Seq<SexprView>, before: Seq<SexprView>, at: Seq<Point>, n: int) -> bool {
    &&& v.len() == before.len() + n
    &&& before.is_prefix_of(v)
    &&& forall|i: int| 0 <= i < n ==> is_no_connect(v[before.len() + i], #[trigger] at[i])
}

pub proof fn lemma_no_connects(w: WriterView, at: Seq<Point>, n: int)
    requires
        0 <= n <= at.len(),
    ensures
        ({
            let r = w.with_no_connects(at, n);
            &&& r == (WriterView { uuids: r.uuids, no_connects: r.no_connects, ..w })
            &&& no_connects_shown(r.no_connects, w.no_connects, at, n)
            &&& r.uuids.seed == w.uuids.seed
        }),
    decreases n,
{
    if n > 0 {
        lemma_no_connects(w, at, n - 1);
        let b = w.with_no_connects(at, n - 1);
        let k = key_of(seq!["no_connect"@, xy_text(at[n - 1])]);
        lemma_no_connect_node(at[n - 1], b.uuids.next_id(k));
        let r = w.with_no_connects(at, n);
        assert(r.no_connects[w.no_connects.len() + n - 1] == r.no_connects.last());
        assert forall|i: int| 0 <= i < n implies is_no_connect(
            r.no_connects[w.no_connects.len() + i],
            #[trigger] at[i],
        ) by {
            if i < n - 1 {
                assert(r.no_connects[w.no_connects.len() + i] == b.no_connects[w.no_connects.len()
                    + i]);
            }
        }
    }
}

proof fn lemma_run_node(a: Point, b: Point, id: Seq<char>)
    ensures
        is_run(
            v_node("wire"@, seq![v_node("pts"@, seq![v_xy(a), v_xy(b)]), v_stroke(), v_uuid(id)]),
            (a, b),
        ),
{
    broadcast use group_reading;

    lemma_tags();
    let pts = v_node("pts"@, seq![v_xy(a), v_xy(b)]);
    lemma_three(pts, v_stroke(), v_uuid(id));
    let xa = SexprView::List(
        seq![SexprView::Symbol("xy"@), SexprView::Num(a.x as int), SexprView::Num(a.y as int)],
    );
    let xb = SexprView::List(
        seq![SexprView::Symbol("xy"@), SexprView::Num(b.x as int), SexprView::Num(b.y as int)],
    );
    assert(v_xy(a)->List_0 =~= xa->List_0);
    assert(v_xy(b)->List_0 =~= xb->List_0);
    assert(pts->List_0 =~= seq![SexprView::Symbol("pts"@), xa, xb]);
    let node = v_node("wire"@, seq![pts, v_stroke(), v_uuid(id)]);
    assert(inside(node, "pts"@) =~= seq![pts]);
}

pub open spec fn runs_shown(v: Seq<SexprView>, before: Seq<SexprView>, runs: Seq<(Point, Point)>) -> bool {
    &&& v.len() == before.len() + runs.len()
    &&& before.is_prefix_of(v)
    &&& forall|i: int| 0 <= i < runs.len() ==> is_run(v[before.len() + i], #[trigger] runs[i])
}

pub open spec fn legs_of(w: Seq<Point>, n: int) -> Seq<(Point, Point)> {
    Seq::new(
        (if n >= 1 {
            n
        } else {
            0
        }) as nat,
        |i: int| (w[i], w[i + 1]),
    )
}

proof fn lemma_wire(w: WriterView, points: Seq<Point>, n: int)
    requires
        n < points.len() || n <= 0,
    ensures
        ({
            let r = w.with_wire(points, n);
            &&& r == (WriterView { uuids: r.uuids, wires: r.wires, ..w })
            &&& runs_shown(r.wires, w.wires, legs_of(points, n))
            &&& r.uuids.seed == w.uuids.seed
        }),
    decreases n,
{
    if n > 0 {
        lemma_wire(w, points, n - 1);
        let b = w.with_wire(points, n - 1);
        let k = key_of(seq!["wire"@, xy_text(points[n - 1]), xy_text(points[n])]);
        lemma_run_node(points[n - 1], points[n], b.uuids.next_id(k));
        let r = w.with_wire(points, n);
        let runs = legs_of(points, n);
        assert(r.wires[w.wires.len() + n - 1] == r.wires.last());
        assert forall|i: int| 0 <= i < runs.len() implies is_run(
            r.wires[w.wires.len() + i],
            #[trigger] runs[i],
        ) by {
            if i < n - 1 {
                assert(r.wires[w.wires.len() + i] == b.wires[w.wires.len() + i]);
                assert(legs_of(points, n - 1)[i] == runs[i]);
            }
        }
    }
}

pub proof fn lemma_wires(w: WriterView, wires: Seq<Seq<Point>>, n: int)
    requires
        0 <= n <= wires.len(),
    ensures
        ({
            let r = w.with_wires(wires, n);
            &&& r == (WriterView { uuids: r.uuids, wires: r.wires, ..w })
            &&& runs_shown(r.wires, w.wires, runs_of(wires, n))
            &&& r.uuids.seed == w.uuids.seed
        }),
    decreases n,
{
    if n > 0 {
        lemma_wires(w, wires, n - 1);
        let b = w.with_wires(wires, n - 1);
        let p = wires[n - 1];
        lemma_wire(b, p, p.len() - 1);
        let r = w.with_wires(wires, n);
        let old = runs_of(wires, n - 1);
        let more = legs_of(p, p.len() - 1);
        let runs = runs_of(wires, n);
        assert(runs =~= old + more);
        assert forall|i: int| 0 <= i < runs.len() implies is_run(
            r.wires[w.wires.len() + i],
            #[trigger] runs[i],
        ) by {
            if i < old.len() {
                assert(runs[i] == old[i]);
                assert(r.wires[w.wires.len() + i] == b.wires[w.wires.len() + i]);
            } else {
                assert(runs[i] == more[i - old.len()]);
                assert(r.wires[b.wires.len() + (i - old.len())] == r.wires[w.wires.len() + i]);
            }
        }
    }
}

proof fn lemma_label_node(l: NetLabel, id: Seq<char>)
    ensures
        is_net_label(
            v_node(
                "label"@,
                seq![
                    v_text(l.net@),
                    v_at_turned(l.at, l.rotation as int),
                    v_effects(label_tokens(l.rotation as int), false),
                    v_uuid(id),
                ],
            ),
            l,
        ),
{
    broadcast use group_reading;

    lemma_tags();
    let angle = l.rotation as int;
    lemma_at(l.at, angle);
    let e = v_effects(label_tokens(angle), false);
    lemma_four(v_text(l.net@), v_at_turned(l.at, angle), e, v_uuid(id));
    let node = v_node("label"@, seq![v_text(l.net@), v_at_turned(l.at, angle), e, v_uuid(id)]);
    assert(inside(node, "at"@) =~= seq![v_at_turned(l.at, angle)]);
}

pub open spec fn net_labels_shown(v: Seq<SexprView>, before: Seq<SexprView>, ls: Seq<NetLabel>, n: int) -> bool {
    &&& v.len() == before.len() + n
    &&& before.is_prefix_of(v)
    &&& forall|i: int| 0 <= i < n ==> is_net_label(v[before.len() + i], #[trigger] ls[i])
}

pub proof fn lemma_net_labels(w: WriterView, ls: Seq<NetLabel>, n: int)
    requires
        0 <= n <= ls.len(),
    ensures
        ({
            let r = w.with_net_labels(ls, n);
            &&& r == (WriterView { uuids: r.uuids, labels: r.labels, ..w })
            &&& net_labels_shown(r.labels, w.labels, ls, n)
            &&& r.uuids.seed == w.uuids.seed
        }),
    decreases n,
{
    if n > 0 {
        lemma_net_labels(w, ls, n - 1);
        let b = w.with_net_labels(ls, n - 1);
        let l = ls[n - 1];
        let k = key_of(seq!["label"@, l.net@, xy_text(l.at)]);
        lemma_label_node(l, b.uuids.next_id(k));
        let r = w.with_net_labels(ls, n);
        assert(r.labels[w.labels.len() + n - 1] == r.labels.last());
        assert forall|i: int| 0 <= i < n implies is_net_label(
            r.labels[w.labels.len() + i],
            #[trigger] ls[i],
        ) by {
            if i < n - 1 {
                assert(r.labels[w.labels.len() + i] == b.labels[w.labels.len() + i]);
            }
        }
    }
}

proof fn lemma_flag_node(
    w: WriterView,
    tag: Seq<char>,
    name: Seq<char>,
    d: PortDirection,
    at: Point,
    rotation: int,
    id: Seq<char>,
)
    ensures
        ({
            let node = w.flag_label(tag, name, d, at, rotation, id);
            &&& is_tagged(node, tag)
            &&& says(node, name)
            &&& stands_turned(node, at, rotation)
            &&& chooses(node, "shape"@, direction_word(d))
        }),
{
    broadcast use group_reading;

    lemma_tags();
    lemma_at(at, rotation);
    let s = v_node("shape"@, seq![v_word(d.spec_shape())]);
    let e = v_effects(flag_tokens(rotation), false);
    lemma_five(v_text(name), s, v_at_turned(at, rotation), e, v_uuid(id));
    lemma_pair("shape"@, SexprView::Symbol(direction_word(d)));
    let node = w.flag_label(tag, name, d, at, rotation, id);
    assert(inside(node, "at"@) =~= seq![v_at_turned(at, rotation)]);
    assert(inside(node, "shape"@) =~= seq![s]);
}

pub open spec fn global_labels_shown(v: Seq<SexprView>, before: Seq<SexprView>, ls: Seq<GlobalLabel>, n: int) -> bool {
    &&& v.len() == before.len() + n
    &&& before.is_prefix_of(v)
    &&& forall|i: int| 0 <= i < n ==> is_global_label(v[before.len() + i], #[trigger] ls[i])
}

pub proof fn lemma_global_labels(w: WriterView, ls: Seq<GlobalLabel>, n: int)
    requires
        0 <= n <= ls.len(),
    ensures
        ({
            let r = w.with_global_labels(ls, n);
            &&& r == (WriterView { uuids: r.uuids, global_labels: r.global_labels, ..w })
            &&& global_labels_shown(r.global_labels, w.global_labels, ls, n)
            &&& r.uuids.seed == w.uuids.seed
        }),
    decreases n,
{
    if n > 0 {
        lemma_global_labels(w, ls, n - 1);
        let b = w.with_global_labels(ls, n - 1);
        let l = ls[n - 1];
        let k = key_of(seq!["global_label"@, l.net@, xy_text(l.at)]);
        lemma_flag_node(
            b,
            "global_label"@,
            l.net@,
            l.direction,
            l.at,
            l.rotation as int,
            b.uuids.next_id(k),
        );
        let r = w.with_global_labels(ls, n);
        assert(r.global_labels[w.global_labels.len() + n - 1] == r.global_labels.last());
        assert forall|i: int| 0 <= i < n implies is_global_label(
            r.global_labels[w.global_labels.len() + i],
            #[trigger] ls[i],
        ) by {
            if i < n - 1 {
                assert(r.global_labels[w.global_labels.len() + i]
                    == b.global_labels[w.global_labels.len() + i]);
            }
        }
    }
}

pub open spec fn hier_labels_shown(v: Seq<SexprView>, before: Seq<SexprView>, ls: Seq<HierLabel>, n: int) -> bool {
    &&& v.len() == before.len() + n
    &&& before.is_prefix_of(v)
    &&& forall|i: int| 0 <= i < n ==> is_hier_label(v[before.len() + i], #[trigger] ls[i])
}

pub proof fn lemma_hier_labels(w: WriterView, ls: Seq<HierLabel>, n: int)
    requires
        0 <= n <= ls.len(),
    ensures
        ({
            let r = w.with_hier_labels(ls, n);
            &&& r == (WriterView { uuids: r.uuids, hier_labels: r.hier_labels, ..w })
            &&& hier_labels_shown(r.hier_labels, w.hier_labels, ls, n)
            &&& r.uuids.seed == w.uuids.seed
        }),
    decreases n,
{
    if n > 0 {
        lemma_hier_labels(w, ls, n - 1);
        let b = w.with_hier_labels(ls, n - 1);
        let l = ls[n - 1];
        let k = key_of(seq!["hier_label"@, l.net@, xy_text(l.at)]);
        lemma_flag_node(
            b,
            "hierarchical_label"@,
            l.net@,
            l.direction,
            l.at,
            l.rotation as int,
            b.uuids.next_id(k),
        );
        let r = w.with_hier_labels(ls, n);
        assert(r.hier_labels[w.hier_labels.len() + n - 1] == r.hier_labels.last());
        assert forall|i: int| 0 <= i < n implies is_hier_label(
            r.hier_labels[w.hier_labels.len() + i],
            #[trigger] ls[i],
        ) by {
            if i < n - 1 {
                assert(r.hier_labels[w.hier_labels.len() + i]
                    == b.hier_labels[w.hier_labels.len() + i]);
            }
        }
    }
}

// ---------------------------------------------------------------- symbols and their library

/// The library holds a symbol of the name.
pub open spec fn lib_named(libs: Seq<LibView>, name: Seq<char>) -> bool {
    exists|k: int| 0 <= k < libs.len() && (#[trigger] libs[k]).id == name
}

/// Every symbol of the library is written under its own name, and no two have the same.
pub open spec fn libs_sound(libs: Seq<LibView>) -> bool {
    &&& forall|k: int| 0 <= k < libs.len() ==> says((#[trigger] libs[k]).tree, libs[k].id)
    &&& forall|j: int, k: int|
        0 <= j < k < libs.len() ==> (#[trigger] libs[j]).id != (#[trigger] libs[k]).id
}

proof fn lemma_lib_at(libs: Seq<LibView>, id: Seq<char>, i: int)
    requires
        0 <= i,
    ensures
        match lib_at(libs, id, i) {
            Some(k) => i <= k < libs.len() && libs[k].id == id,
            None => forall|k: int| i <= k < libs.len() ==> (#[trigger] libs[k]).id != id,
        },
    decreases libs.len() - i,
{
    if i < libs.len() && libs[i].id != id {
        lemma_lib_at(libs, id, i + 1);
    }
}

proof fn lemma_with_lib(libs: Seq<LibView>, lib: LibView)
    requires
        libs_sound(libs),
        says(lib.tree, lib.id),
    ensures
        libs_sound(with_lib(libs, lib)),
        libs.is_prefix_of(with_lib(libs, lib)),
        lib_named(with_lib(libs, lib), lib.id),
        !lib_named(libs, lib.id) ==> with_lib(libs, lib) == libs.push(lib),
{
    lemma_lib_at(libs, lib.id, 0);
    let r = with_lib(libs, lib);
    match lib_at(libs, lib.id, 0) {
        Some(k) => {
            assert(r[k].id == lib.id);
        },
        None => {
            assert(r[libs.len() as int].id == lib.id);
            assert forall|k: int| 0 <= k < r.len() implies says((#[trigger] r[k]).tree, r[k].id) by {
                if k < libs.len() {
                    assert(r[k] == libs[k]);
                }
            }
            assert forall|j: int, k: int| 0 <= j < k < r.len() implies (#[trigger] r[j]).id != (
            #[trigger] r[k]).id by {
                assert(r[j] == libs[j]);
                if k < libs.len() {
                    assert(r[k] == libs[k]);
                }
            }
        },
    }
}

proof fn lemma_named_stays(a: Seq<LibView>, b: Seq<LibView>, name: Seq<char>)
    requires
        a.is_prefix_of(b),
        lib_named(a, name),
    ensures
        lib_named(b, name),
{
    let k = choose|k: int| 0 <= k < a.len() && (#[trigger] a[k]).id == name;
    assert(b[k] == a[k]);
}

/// The blocks stand under the library ids of their components, and one id stands for one block.
pub open spec fn blocks_fit(design: DesignModel, blocks: Seq<SexprView>) -> bool {
    &&& blocks.len() == design.comps@.len()
    &&& forall|c: int|
        0 <= c < blocks.len() ==> says(#[trigger] blocks[c], design.comps@[c].geom.lib_id@)
    &&& forall|c: int, e: int|
        0 <= c < blocks.len() && 0 <= e < blocks.len() && design.comps@[c].geom.lib_id@
            == design.comps@[e].geom.lib_id@ ==> #[trigger] blocks[c] == #[trigger] blocks[e]
}

/// Every placed component is one of the design.
pub open spec fn comps_fit(design: DesignModel, placed: Seq<PlacedComp>) -> bool {
    forall|i: int| 0 <= i < placed.len() ==> (#[trigger] placed[i]).comp < design.comps@.len()
}

/// The library holds the block of the component, under its id.
pub open spec fn block_held(libs: Seq<LibView>, c: Comp, block: SexprView) -> bool {
    exists|k: int|
        0 <= k < libs.len() && (#[trigger] libs[k]).id == c.geom.lib_id@ && libs[k].tree == block
}

pub open spec fn comps_shown(
    w: WriterView,
    before: WriterView,
    design: DesignModel,
    blocks: Seq<SexprView>,
    placed: Seq<PlacedComp>,
    n: int,
) -> bool {
    &&& w.symbols.len() == before.symbols.len() + n
    &&& before.symbols.is_prefix_of(w.symbols)
    &&& forall|i: int|
        0 <= i < n ==> is_comp_symbol(
            w.symbols[before.symbols.len() + i],
            design.comps@[(#[trigger] placed[i]).comp as int],
            placed[i],
            before.project,
            before.path_prefix(),
        ) && block_held(
            w.libs,
            design.comps@[placed[i].comp as int],
            blocks[placed[i].comp as int],
        )
}

/// Every library symbol is that of a component.
pub open spec fn libs_of_comps(libs: Seq<LibView>, design: DesignModel, blocks: Seq<SexprView>) -> bool {
    forall|k: int| 0 <= k < libs.len() ==> lib_of_comp(#[trigger] libs[k], design, blocks)
}

pub open spec fn lib_of_comp(lib: LibView, design: DesignModel, blocks: Seq<SexprView>) -> bool {
    exists|c: int|
        0 <= c < blocks.len() && lib.tree == #[trigger] blocks[c] && lib.id
            == design.comps@[c].geom.lib_id@
}

pub proof fn lemma_comps(
    w: WriterView,
    design: DesignModel,
    blocks: Seq<SexprView>,
    placed: Seq<PlacedComp>,
    n: int,
)
    requires
        0 <= n <= placed.len(),
        blocks_fit(design, blocks),
        comps_fit(design, placed),
        libs_sound(w.libs),
        libs_of_comps(w.libs, design, blocks),
    ensures
        ({
            let r = w.with_comps(design, blocks, placed, n);
            &&& r == (WriterView { uuids: r.uuids, libs: r.libs, symbols: r.symbols, ..w })
            &&& comps_shown(r, w, design, blocks, placed, n)
            &&& libs_sound(r.libs)
            &&& libs_of_comps(r.libs, design, blocks)
            &&& r.libs.len() <= w.libs.len() + n
            &&& r.uuids.seed == w.uuids.seed
        }),
    decreases n,
{
    if n > 0 {
        lemma_comps(w, design, blocks, placed, n - 1);
        let b = w.with_comps(design, blocks, placed, n - 1);
        let p = placed[n - 1];
        let c = design.comps@[p.comp as int];
        let block = blocks[p.comp as int];
        let r = w.with_comps(design, blocks, placed, n);
        let lib = LibView {
            id: c.geom.lib_id@,
            tree: block,
            pins: pin_numbers(c.geom.pins@),
        };
        lemma_with_lib(b.libs, lib);
        lemma_lib_at(b.libs, lib.id, 0);
        let mid = WriterView { libs: with_lib(b.libs, lib), ..b };
        let o = place_of(c, p);
        let pins = mid.libs[lib_at(mid.libs, o.lib_id, 0)->0].pins;
        let k = key_of(seq!["symbol"@, o.uuid_key]);
        let id = mid.uuids.next_id(k);
        let nodes = pin_nodes(
            mid.uuids.after(k),
            o.uuid_key,
            pins,
            pins.len() as int,
        ).0;
        lemma_pin_nodes(mid.uuids.after(k), o.uuid_key, pins, pins.len() as int);
        lemma_pin_uuids(mid.uuids.after(k), o.uuid_key, pins, pins.len() as int);
        lemma_symbol_says(mid, o, id, nodes);
        lemma_symbol_carries(mid, o, id, nodes);
        lemma_symbol_tied(mid, o, id, nodes);
        let node = mid.symbol_node(o, id, nodes);
        assert(r.symbols == b.symbols.push(node));
        assert(is_comp_symbol(node, c, p, w.project, w.path_prefix()));
        assert(lib_of_comp(lib, design, blocks)) by {
            assert(blocks[p.comp as int] == lib.tree);
        }
        assert forall|j: int| 0 <= j < r.libs.len() implies lib_of_comp(
            #[trigger] r.libs[j],
            design,
            blocks,
        ) by {
            if j < b.libs.len() {
                assert(r.libs[j] == b.libs[j]);
            }
        }
        assert(block_held(r.libs, c, block)) by {
            let j = choose|j: int| 0 <= j < r.libs.len() && (#[trigger] r.libs[j]).id == lib.id;
            assert(lib_of_comp(r.libs[j], design, blocks));
            let e = choose|e: int|
                0 <= e < blocks.len() && r.libs[j].tree == #[trigger] blocks[e] && r.libs[j].id
                    == design.comps@[e].geom.lib_id@;
            assert(blocks[e] == blocks[p.comp as int]);
        }
        assert forall|i: int| 0 <= i < n implies is_comp_symbol(
            r.symbols[w.symbols.len() + i],
            design.comps@[(#[trigger] placed[i]).comp as int],
            placed[i],
            w.project,
            w.path_prefix(),
        ) && block_held(
            r.libs,
            design.comps@[placed[i].comp as int],
            blocks[placed[i].comp as int],
        ) by {
            if i < n - 1 {
                assert(r.symbols[w.symbols.len() + i] == b.symbols[w.symbols.len() + i]);
                lemma_held_stays(
                    b.libs,
                    r.libs,
                    design.comps@[placed[i].comp as int],
                    blocks[placed[i].comp as int],
                );
            } else {
                assert(r.symbols[w.symbols.len() + i] == node);
            }
        }
    }
}

pub proof fn lemma_held_stays(a: Seq<LibView>, b: Seq<LibView>, c: Comp, block: SexprView)
    requires
        a.is_prefix_of(b),
        block_held(a, c, block),
    ensures
        block_held(b, c, block),
{
    let k = choose|k: int|
        0 <= k < a.len() && (#[trigger] a[k]).id == c.geom.lib_id@ && a[k].tree == block;
    assert(b[k] == a[k]);
}

proof fn lemma_pin_uuids(u: UuidGenView, key: Seq<char>, pins: Seq<Seq<char>>, n: int)
    ensures
        pin_nodes(u, key, pins, n).1.seed == u.seed,
    decreases n,
{
    if 0 < n <= pins.len() {
        lemma_pin_uuids(u, key, pins, n - 1);
    }
}

// ---------------------------------------------------------------- rails and flags

pub open spec fn rails_shown(w: WriterView, before: WriterView, v: Seq<PowerSymbol>, n: int) -> bool {
    &&& w.symbols.len() == before.symbols.len() + n
    &&& before.symbols.is_prefix_of(w.symbols)
    &&& forall|i: int|
        0 <= i < n ==> is_rail_symbol(w.symbols[before.symbols.len() + i], #[trigger] v[i])
            && has_library(w.libs, w.symbols[before.symbols.len() + i])
}

/// The library symbol that the element names is in the library.
pub open spec fn has_library(libs: Seq<LibView>, node: SexprView) -> bool {
    exists|k: int| 0 <= k < libs.len() && says_under(node, "lib_id"@, (#[trigger] libs[k]).id)
}

pub proof fn lemma_library_stays(a: Seq<LibView>, b: Seq<LibView>, node: SexprView)
    requires
        a.is_prefix_of(b),
        has_library(a, node),
    ensures
        has_library(b, node),
{
    let k = choose|k: int| 0 <= k < a.len() && says_under(node, "lib_id"@, (#[trigger] a[k]).id);
    assert(b[k] == a[k]);
}

pub proof fn lemma_rails(w: WriterView, v: Seq<PowerSymbol>, n: int)
    requires
        0 <= n <= v.len(),
        libs_sound(w.libs),
    ensures
        ({
            let r = w.with_power_symbols(v, n);
            &&& r == (WriterView {
                uuids: r.uuids,
                libs: r.libs,
                symbols: r.symbols,
                power_ids: r.power_ids,
                power_refs: r.power_refs,
                ..w
            })
            &&& rails_shown(r, w, v, n)
            &&& libs_sound(r.libs)
            &&& w.libs.is_prefix_of(r.libs)
            &&& r.libs.len() <= w.libs.len() + n
            &&& r.uuids.seed == w.uuids.seed
        }),
    decreases n,
{
    if n > 0 {
        lemma_rails(w, v, n - 1);
        let b = w.with_power_symbols(v, n - 1);
        let s = v[n - 1];
        let r = w.with_power_symbols(v, n);
        let id = power_id_of(b.power_ids, s.net@);
        let tree = v_power_symbol(id, s.net@, s.down);
        lemma_power_tree(id, s.net@, s.down);
        let lib = LibView { id, tree, pins: seq!["1"@] };
        lemma_with_lib(b.libs, lib);
        let reference = b.next_power_ref();
        let (value_at, ref_at) = if s.down {
            (
                moved_by(s.at, 0, 38100),
                moved_by(s.at, 0, 63500),
            )
        } else {
            (
                moved_by(s.at, 0, -35560),
                moved_by(s.at, 0, -63500),
            )
        };
        let node = b.mark_node(id, s.at, 0, reference, ref_at, s.net@, value_at, false);
        lemma_mark_says(b, id, s.at, 0, reference, ref_at, s.net@, value_at, false);
        assert(r.symbols == b.symbols.push(node));
        assert(is_rail_symbol(node, s));
        assert(has_library(r.libs, node)) by {
            let k = choose|k: int| 0 <= k < r.libs.len() && (#[trigger] r.libs[k]).id == id;
            assert(says_under(node, "lib_id"@, r.libs[k].id));
        }
        assert forall|i: int| 0 <= i < n - 1 implies has_library(
            b.libs,
            #[trigger] b.symbols[w.symbols.len() + i],
        ) by {
            assert(is_rail_symbol(b.symbols[w.symbols.len() + i], v[i]));
        }
        assert forall|i: int| 0 <= i < n implies is_rail_symbol(
            r.symbols[w.symbols.len() + i],
            #[trigger] v[i],
        ) && has_library(r.libs, r.symbols[w.symbols.len() + i]) by {
            if i < n - 1 {
                assert(r.symbols[w.symbols.len() + i] == b.symbols[w.symbols.len() + i]);
                lemma_library_stays(b.libs, r.libs, b.symbols[w.symbols.len() + i]);
            } else {
                assert(r.symbols[w.symbols.len() + i] == node);
            }
        }
    }
}

proof fn lemma_power_tree(id: Seq<char>, net: Seq<char>, down: bool)
    ensures
        says(v_power_symbol(id, net, down), id),
{
}

proof fn lemma_flag_tree(id: Seq<char>)
    ensures
        says(v_flag_symbol(id), id),
{
}

pub open spec fn flags_shown(w: WriterView, before: WriterView, v: Seq<PwrFlag>, n: int) -> bool {
    &&& w.symbols.len() == before.symbols.len() + n
    &&& before.symbols.is_prefix_of(w.symbols)
    &&& forall|i: int|
        0 <= i < n ==> is_flag_symbol(w.symbols[before.symbols.len() + i], #[trigger] v[i])
            && has_library(w.libs, w.symbols[before.symbols.len() + i])
}

pub proof fn lemma_flags(w: WriterView, v: Seq<PwrFlag>, n: int)
    requires
        0 <= n <= v.len(),
        libs_sound(w.libs),
    ensures
        ({
            let r = w.with_pwr_flags(v, n);
            &&& r == (WriterView {
                uuids: r.uuids,
                libs: r.libs,
                symbols: r.symbols,
                flag_refs: r.flag_refs,
                ..w
            })
            &&& flags_shown(r, w, v, n)
            &&& libs_sound(r.libs)
            &&& w.libs.is_prefix_of(r.libs)
            &&& r.libs.len() <= w.libs.len() + n
            &&& r.uuids.seed == w.uuids.seed
        }),
    decreases n,
{
    if n > 0 {
        lemma_flags(w, v, n - 1);
        let b = w.with_pwr_flags(v, n - 1);
        let f = v[n - 1];
        let r = w.with_pwr_flags(v, n);
        let id = POWER_LIB_NICKNAME@ + ":PWR_FLAG"@;
        lemma_flag_tree(id);
        let lib = LibView { id, tree: v_flag_symbol(id), pins: seq!["1"@] };
        lemma_with_lib(b.libs, lib);
        let reference = b.next_flag_ref();
        let ref_at = moved_by(f.at, 0, -19050);
        let value_at = moved_by(f.at, 0, -38100);
        let angle = f.rotation as int;
        let node = b.mark_node(id, f.at, angle, reference, ref_at, "PWR_FLAG"@, value_at, true);
        lemma_mark_says(b, id, f.at, angle, reference, ref_at, "PWR_FLAG"@, value_at, true);
        assert(r.symbols == b.symbols.push(node));
        assert(is_flag_symbol(node, f));
        assert(has_library(r.libs, node)) by {
            let k = choose|k: int| 0 <= k < r.libs.len() && (#[trigger] r.libs[k]).id == id;
            assert(says_under(node, "lib_id"@, r.libs[k].id));
        }
        assert forall|i: int| 0 <= i < n - 1 implies has_library(
            b.libs,
            #[trigger] b.symbols[w.symbols.len() + i],
        ) by {
            assert(is_flag_symbol(b.symbols[w.symbols.len() + i], v[i]));
        }
        assert forall|i: int| 0 <= i < n implies is_flag_symbol(
            r.symbols[w.symbols.len() + i],
            #[trigger] v[i],
        ) && has_library(r.libs, r.symbols[w.symbols.len() + i]) by {
            if i < n - 1 {
                assert(r.symbols[w.symbols.len() + i] == b.symbols[w.symbols.len() + i]);
                lemma_library_stays(b.libs, r.libs, b.symbols[w.symbols.len() + i]);
            } else {
                assert(r.symbols[w.symbols.len() + i] == node);
            }
        }
    }
}

// ---------------------------------------------------------------- outlines and their titles

/// The outline is a rectangle between the corners of the zone.
pub open spec fn is_outline(node: SexprView, z: Zone) -> bool {
    &&& is_tagged(node, "rectangle"@)
    &&& inside(node, "start"@) == seq![
        SexprView::List(
            seq![
                SexprView::Symbol("start"@),
                SexprView::Num(z.bbox.x1 as int),
                SexprView::Num(z.bbox.y1 as int),
            ],
        ),
    ]
    &&& inside(node, "end"@) == seq![
        SexprView::List(
            seq![
                SexprView::Symbol("end"@),
                SexprView::Num(z.bbox.x2 as int),
                SexprView::Num(z.bbox.y2 as int),
            ],
        ),
    ]
}

pub open spec fn outlines_shown(v: Seq<SexprView>, before: Seq<SexprView>, zs: Seq<Zone>, n: int) -> bool {
    &&& v.len() == before.len() + n
    &&& before.is_prefix_of(v)
    &&& forall|i: int| 0 <= i < n ==> is_outline(v[before.len() + i], #[trigger] zs[i])
}

proof fn lemma_outline_node(z: Zone, id: Seq<char>, stroke: Seq<SexprView>, fill: SexprView)
    ensures
        is_outline(
            v_node(
                "rectangle"@,
                seq![
                    v_node("start"@, seq![v_num(z.bbox.x1), v_num(z.bbox.y1)]),
                    v_node("end"@, seq![v_num(z.bbox.x2), v_num(z.bbox.y2)]),
                    v_node("stroke"@, stroke),
                    v_node("fill"@, seq![fill]),
                    v_uuid(id),
                ],
            ),
            z,
        ),
{
    broadcast use group_reading;

    lemma_tags();
    let s = v_node("start"@, seq![v_num(z.bbox.x1), v_num(z.bbox.y1)]);
    let e = v_node("end"@, seq![v_num(z.bbox.x2), v_num(z.bbox.y2)]);
    let k = v_node("stroke"@, stroke);
    let f = v_node("fill"@, seq![fill]);
    lemma_five(s, e, k, f, v_uuid(id));
    let node = v_node("rectangle"@, seq![s, e, k, f, v_uuid(id)]);
    assert(s->List_0 =~= seq![
        SexprView::Symbol("start"@),
        SexprView::Num(z.bbox.x1 as int),
        SexprView::Num(z.bbox.y1 as int),
    ]);
    assert(e->List_0 =~= seq![
        SexprView::Symbol("end"@),
        SexprView::Num(z.bbox.x2 as int),
        SexprView::Num(z.bbox.y2 as int),
    ]);
    assert(inside(node, "start"@) =~= seq![s]);
    assert(inside(node, "end"@) =~= seq![e]);
}

pub proof fn lemma_zones(w: WriterView, zs: Seq<Zone>, n: int)
    requires
        0 <= n <= zs.len(),
        all_tagged(w.texts, "text"@),
    ensures
        ({
            let r = w.with_zones(zs, n);
            &&& r == (WriterView { uuids: r.uuids, texts: r.texts, graphics: r.graphics, ..w })
            &&& outlines_shown(r.graphics, w.graphics, zs, n)
            &&& all_tagged(r.texts, "text"@)
            &&& r.texts.len() == w.texts.len() + n
            &&& r.uuids.seed == w.uuids.seed
        }),
    decreases n,
{
    broadcast use group_reading;

    if n > 0 {
        lemma_zones(w, zs, n - 1);
        let b = w.with_zones(zs, n - 1);
        let z = zs[n - 1].bbox;
        let r = w.with_zones(zs, n);
        let start = Point { x: z.x1, y: z.y1 };
        let end = Point { x: z.x2, y: z.y2 };
        let k = key_of(seq!["zone"@, xy_text(start), xy_text(end)]);
        lemma_outline_node(
            zs[n - 1],
            b.uuids.next_id(k),
            seq![
                v_node("width"@, seq![v_num(1270)]),
                v_node("type"@, seq![v_word("dash"@)]),
                v_node("color"@, seq![v_int(130), v_int(130), v_int(130), v_num(10000)]),
            ],
            v_node("type"@, seq![v_word("none"@)]),
        );
        assert(r.graphics[w.graphics.len() + n - 1] == r.graphics.last());
        assert forall|i: int| 0 <= i < n implies is_outline(
            r.graphics[w.graphics.len() + i],
            #[trigger] zs[i],
        ) by {
            if i < n - 1 {
                assert(r.graphics[w.graphics.len() + i] == b.graphics[w.graphics.len() + i]);
            }
        }
        assert forall|i: int| 0 <= i < r.texts.len() implies is_tagged(
            #[trigger] r.texts[i],
            "text"@,
        ) by {
            if i < b.texts.len() {
                assert(r.texts[i] == b.texts[i]);
            }
        }
    }
}

// ---------------------------------------------------------------- blocks of child sheets

/// The pin of a block: the name of its net, its direction and its place, on the edge that it is on.
pub open spec fn is_block_pin(node: SexprView, p: BlockPin, b: BlockView) -> bool {
    &&& is_tagged(node, "pin"@)
    &&& says(node, p.net@)
    &&& items_of(node).len() > 2
    &&& items_of(node)[2] == SexprView::Symbol(direction_word(p.direction))
    &&& exists|angle: int| #[trigger] stands_on_edge(node, p, b, angle)
}

pub open spec fn stands_on_edge(node: SexprView, p: BlockPin, b: BlockView, angle: int) -> bool {
    &&& stands_turned(node, p.at, angle)
    &&& p.at.x == b.at.x ==> angle == 180
    &&& p.at.x == b.at.x + b.size.x && b.size.x >= 100 ==> angle == 0
}

/// The element is the block of the child sheet: it names the sheet and its file, and has the pins.
pub open spec fn is_block(node: SexprView, child: SheetDef, b: BlockView) -> bool {
    &&& is_tagged(node, "sheet"@)
    &&& stands_at(node, b.at)
    &&& inside(node, "size"@) == seq![
        SexprView::List(
            seq![
                SexprView::Symbol("size"@),
                SexprView::Num(b.size.x as int),
                SexprView::Num(b.size.y as int),
            ],
        ),
    ]
    &&& has_property(node, 0, "Sheetname"@, child.title@)
    &&& has_property(node, 1, "Sheetfile"@, child.file_name@)
    &&& inside(node, "pin"@).len() == b.pins.len()
    &&& forall|i: int|
        0 <= i < b.pins.len() ==> is_block_pin(inside(node, "pin"@)[i], #[trigger] b.pins[i], b)
}

pub proof fn lemma_sheet_pins(u: UuidGenView, child: SheetDef, b: BlockView, n: int)
    requires
        0 <= n <= b.pins.len(),
    ensures
        ({
            let r = sheet_pins(u, block_of(child, b), n);
            &&& r.1.seed == u.seed
            &&& all_tagged(r.0, "pin"@)
            &&& r.0.len() == n
            &&& forall|i: int| 0 <= i < n ==> is_block_pin(r.0[i], #[trigger] b.pins[i], b)
        }),
    decreases n,
{
    broadcast use group_reading;

    if n > 0 {
        lemma_sheet_pins(u, child, b, n - 1);
        lemma_tags();
        let o = block_of(child, b);
        let before = sheet_pins(u, o, n - 1);
        let r = sheet_pins(u, o, n);
        let p = b.pins[n - 1];
        let angle = edge_rotation(p.at, b.at.x, b.at.y, b.size.x);
        lemma_at(p.at, angle);
        let k = key_of(seq!["sheet_pin"@, o.file_name, p.net@]);
        let e = v_effects(
            if angle == 0 || angle == 90 {
                seq!["right"@]
            } else {
                seq!["left"@]
            },
            false,
        );
        let id = v_uuid(before.1.next_id(k));
        let d = v_word(p.direction.spec_shape());
        let a = v_at_turned(p.at, angle);
        lemma_five(v_text(p.net@), d, a, e, id);
        let node = v_node("pin"@, seq![v_text(p.net@), d, a, e, id]);
        assert(r.0 == before.0.push(node));
        assert(inside(node, "at"@) =~= seq![a]);
        assert(stands_on_edge(node, p, b, angle));
        assert(is_block_pin(node, p, b));
        assert forall|i: int| 0 <= i < n implies is_block_pin(r.0[i], #[trigger] b.pins[i], b) by {
            if i < n - 1 {
                assert(r.0[i] == before.0[i]);
            }
        }
    }
}

/// The lists of a tag in the head of a block.
pub proof fn lemma_sheet_head(o: SheetRefView, id: Seq<char>, tag: Seq<char>)
    requires
        tag == "at"@ || tag == "size"@ || tag == "pin"@ || tag == "uuid"@,
    ensures
        tag == "uuid"@ ==> elements(sheet_head(o, id), tag) == seq![v_uuid(id)],
        tag == "at"@ ==> elements(sheet_head(o, id), tag) == seq![v_at(o.at)],
        tag == "size"@ ==> elements(sheet_head(o, id), tag) == seq![
            v_node("size"@, seq![v_num(o.size.x), v_num(o.size.y)]),
        ],
        tag == "pin"@ ==> elements(sheet_head(o, id), tag) == Seq::<SexprView>::empty(),
{
    broadcast use group_reading;

    reveal(sheet_head);
    lemma_tags();
    lemma_uses_tag(false, tag);
    let got = elements(sheet_head(o, id), tag);
    if tag == "at"@ {
        assert(got =~= seq![v_at(o.at)]);
    } else if tag == "size"@ {
        assert(got =~= seq![v_node("size"@, seq![v_num(o.size.x), v_num(o.size.y)])]);
    } else if tag == "uuid"@ {
        assert(got =~= seq![v_uuid(id)]);
    } else {
        assert(got =~= Seq::empty());
    }
}

proof fn lemma_sheet_properties(o: SheetRefView, id: Seq<char>)
    ensures
        elements(sheet_head(o, id), "property"@) == Seq::<SexprView>::empty().push(
            v_property(
                "Sheetname"@,
                o.title,
                moved_by(o.at, 0, -7116),
                0,
                seq!["left"@, "bottom"@],
                false,
            ),
        ).push(
            v_property(
                "Sheetfile"@,
                o.file_name,
                moved_by(o.at, 0, o.size.y + 5842),
                0,
                seq!["left"@, "top"@],
                false,
            ),
        ),
{
    broadcast use group_reading;

    reveal(sheet_head);
    lemma_tags();
    lemma_uses_tag(false, "property"@);
    assert(elements(sheet_head(o, id), "property"@) =~= Seq::<SexprView>::empty().push(
        v_property(
            "Sheetname"@,
            o.title,
            moved_by(o.at, 0, -7116),
            0,
            seq!["left"@, "bottom"@],
            false,
        ),
    ).push(
        v_property(
            "Sheetfile"@,
            o.file_name,
            moved_by(o.at, 0, o.size.y + 5842),
            0,
            seq!["left"@, "top"@],
            false,
        ),
    ));
}

#[verifier::spinoff_prover]
proof fn lemma_block_node(w: WriterView, child: SheetDef, b: BlockView, id: Seq<char>, u: UuidGenView)
    ensures
        ({
            let o = block_of(child, b);
            is_block(
                v_node(
                    "sheet"@,
                    (sheet_head(o, id) + sheet_pins(u, o, o.pins.len() as int).0).push(
                        w.instances(seq![v_node("page"@, seq![v_text(o.page)])]),
                    ),
                ),
                child,
                b,
            )
        }),
{
    broadcast use group_reading;

    lemma_tags();
    let o = block_of(child, b);
    lemma_sheet_pins(u, child, b, b.pins.len() as int);
    let pins = sheet_pins(u, o, o.pins.len() as int).0;
    let tie = w.instances(seq![v_node("page"@, seq![v_text(o.page)])]);
    let node = v_node("sheet"@, (sheet_head(o, id) + pins).push(tie));
    lemma_elements_all(pins, "pin"@, "at"@);
    lemma_elements_all(pins, "pin"@, "size"@);
    lemma_elements_all(pins, "pin"@, "property"@);
    lemma_elements_all(pins, "pin"@, "pin"@);
    lemma_sheet_head(o, id, "at"@);
    lemma_sheet_head(o, id, "size"@);
    lemma_sheet_head(o, id, "pin"@);
    lemma_sheet_properties(o, id);
    lemma_at(o.at, 0);
    let size = v_node("size"@, seq![v_num(o.size.x), v_num(o.size.y)]);
    assert(size->List_0 =~= seq![
        SexprView::Symbol("size"@),
        SexprView::Num(b.size.x as int),
        SexprView::Num(b.size.y as int),
    ]);
    assert(inside(node, "at"@) =~= seq![v_at(o.at)]);
    assert(inside(node, "size"@) =~= seq![size]);
    assert(inside(node, "pin"@) =~= pins);
    let ps = inside(node, "property"@);
    assert(ps =~= elements(sheet_head(o, id), "property"@));
}

pub open spec fn blocks_shown(
    v: Seq<SexprView>,
    before: Seq<SexprView>,
    plan: SheetPlan,
    bs: Seq<BlockView>,
    n: int,
) -> bool {
    &&& v.len() == before.len() + n
    &&& before.is_prefix_of(v)
    &&& forall|i: int|
        0 <= i < n ==> is_block(
            v[before.len() + i],
            plan.sheets@[(#[trigger] bs[i]).sheet as int],
            bs[i],
        )
}

/// Every block stands for a sheet of the plan.
pub open spec fn sheets_fit(plan: SheetPlan, bs: Seq<BlockView>) -> bool {
    forall|i: int| 0 <= i < bs.len() ==> (#[trigger] bs[i]).sheet < plan.sheets@.len()
}

pub proof fn lemma_blocks(w: WriterView, plan: SheetPlan, bs: Seq<BlockView>, n: int)
    requires
        0 <= n <= bs.len(),
        sheets_fit(plan, bs),
    ensures
        ({
            let r = w.with_blocks(plan, bs, n);
            &&& r == (WriterView { uuids: r.uuids, sheets: r.sheets, ..w })
            &&& blocks_shown(r.sheets, w.sheets, plan, bs, n)
            &&& r.uuids.seed == w.uuids.seed
        }),
    decreases n,
{
    if n > 0 {
        lemma_blocks(w, plan, bs, n - 1);
        let p = w.with_blocks(plan, bs, n - 1);
        let b = bs[n - 1];
        let child = plan.sheets@[b.sheet as int];
        let o = block_of(child, b);
        let r = w.with_blocks(plan, bs, n);
        let k = key_of(seq!["sheet"@, o.file_name, o.title]);
        lemma_sheet_pins(p.uuids.after(k), child, b, b.pins.len() as int);
        lemma_block_node(p, child, b, p.sheet_id(o), p.uuids.after(k));
        assert(r.sheets[w.sheets.len() + n - 1] == r.sheets.last());
        assert forall|i: int| 0 <= i < n implies is_block(
            r.sheets[w.sheets.len() + i],
            plan.sheets@[(#[trigger] bs[i]).sheet as int],
            bs[i],
        ) by {
            if i < n - 1 {
                assert(r.sheets[w.sheets.len() + i] == p.sheets[w.sheets.len() + i]);
            }
        }
    }
}

} // verus!
