//! Aligning labels keeps the blocks of child sheets joined to their nets.

use vstd::prelude::*;
use crate::align::{
    align_items, all_may_move, class_of, classes, classes_aligned, comes_level, ends_at_point,
    ends_of_wire, global_items, hier_items, interior_kind, items_of, may_move, net_items, run_under,
    same_side_of, siblings_aligned, stretch_under, stub_after, stub_groups, stub_kind,
    stubs_aligned, target_of, AlignItem, AlignKind, LabelSlot, StubEnd,
};
use crate::canvas::{BlockPin, Drawing, Scene};
use crate::childpins::{
    block_for, child_joined, children_joined, keeps_blocks, law_blocks_are_joined, leads_to_name,
    lemma_named_stays, names_net, stub_named,
};
use crate::contacts::unaligned;
use crate::labels::signals_routed;
use crate::linked::{drawn_for, keeps};
use crate::order::{lemma_sorted_items, rows_wf, runs_by, sorted_by};
use crate::pins::owner_of;
use crate::power::lemma_runs_wf;
use crate::powered::lemma_supply_keeps;
use crate::registry::{LabelBox, RegPin};
use crate::route::{power_routed, sheet_routed, start_drawing, unconnected};
use crate::served::lemma_signals_keep;
use crate::supply::nets_supplied;
use crate::units::{spec_gap, Iu, Point, EPS};
use crate::wiring::Seg;
use crate::zones::{flag_order, flag_origin, flag_rows};

verus! {

// ---------------------------------------------------------------- what an item stands for

/// The item is a label of the drawing, and its kind is what lies under the label.
pub open spec fn item_of(sc: Scene<'_>, u: Drawing, it: AlignItem) -> bool {
    match it.slot {
        LabelSlot::Global(i) => {
            &&& i < u.global_labels.len()
            &&& it.at == u.global_labels[i as int].at
            &&& stub_kind(sc, u, it.at, u.global_labels[i as int].rotation as int) == Some(it.kind)
        },
        LabelSlot::Hier(i) => {
            &&& i < u.hier_labels.len()
            &&& it.at == u.hier_labels[i as int].at
            &&& stub_kind(sc, u, it.at, u.hier_labels[i as int].rotation as int) == Some(it.kind)
        },
        LabelSlot::Net(i) => {
            let l = u.net_labels[i as int];
            &&& i < u.net_labels.len()
            &&& it.at == l.at
            &&& interior_kind(u, l.net@, l.at, l.rotation as int) == Some(it.kind)
        },
    }
}

pub open spec fn are_items(sc: Scene<'_>, u: Drawing, items: Seq<AlignItem>) -> bool {
    forall|k: int| 0 <= k < items.len() ==> item_of(sc, u, #[trigger] items[k])
}

/// The lists of the drawing are no longer than a list can be.
pub open spec fn lists_fit(u: Drawing) -> bool {
    &&& u.global_labels.len() <= usize::MAX
    &&& u.hier_labels.len() <= usize::MAX
    &&& u.net_labels.len() <= usize::MAX
    &&& u.wires.len() <= usize::MAX
}

proof fn lemma_global_items(sc: Scene<'_>, u: Drawing, n: int)
    requires
        lists_fit(u),
    ensures
        are_items(sc, u, global_items(sc, u, n)),
    decreases n,
{
    if 0 < n <= u.global_labels.len() {
        lemma_global_items(sc, u, n - 1);
    }
}

proof fn lemma_hier_items(sc: Scene<'_>, u: Drawing, n: int)
    requires
        lists_fit(u),
    ensures
        are_items(sc, u, hier_items(sc, u, n)),
    decreases n,
{
    if 0 < n <= u.hier_labels.len() {
        lemma_hier_items(sc, u, n - 1);
    }
}

proof fn lemma_net_items(sc: Scene<'_>, u: Drawing, n: int)
    requires
        lists_fit(u),
    ensures
        are_items(sc, u, net_items(u, n)),
    decreases n,
{
    if 0 < n <= u.net_labels.len() {
        lemma_net_items(sc, u, n - 1);
    }
}

proof fn lemma_items(sc: Scene<'_>, u: Drawing)
    requires
        lists_fit(u),
    ensures
        are_items(sc, u, align_items(sc, u)),
{
    lemma_global_items(sc, u, u.global_labels.len() as int);
    lemma_hier_items(sc, u, u.hier_labels.len() as int);
    lemma_net_items(sc, u, u.net_labels.len() as int);
}

// ---------------------------------------------------------------- the ends of wires

/// A wire ends at the point, and the other end of its last run is the fixed one.
pub open spec fn is_wire_end(wires: Seq<Seq<Point>>, e: StubEnd, at: Point) -> bool {
    let w = wires[e.wire as int];
    &&& e.wire < wires.len()
    &&& w.len() >= 2
    &&& e.fixed == (if e.last {
        w[w.len() - 2]
    } else {
        w[1]
    })
}

proof fn lemma_ends(wires: Seq<Seq<Point>>, at: Point, n: int)
    requires
        wires.len() <= usize::MAX,
        0 <= n <= wires.len(),
    ensures
        forall|i: int|
            0 <= i < ends_at_point(wires, at, n).len() ==> is_wire_end(
                wires,
                #[trigger] ends_at_point(wires, at, n)[i],
                at,
            ),
        forall|k: int|
            0 <= k < n && (#[trigger] wires[k]).len() == 2 && comes_level(
                wires[k][1],
                wires[k][0],
                at,
            ) ==> ends_at_point(wires, at, n).contains(
                StubEnd { wire: k as usize, last: true, fixed: wires[k][0] },
            ),
    decreases n,
{
    if n > 0 {
        lemma_ends(wires, at, n - 1);
        let before = ends_at_point(wires, at, n - 1);
        let own = ends_of_wire(wires[n - 1], n - 1, at);
        let now = ends_at_point(wires, at, n);
        assert(now == before + own);
        assert forall|i: int| 0 <= i < now.len() implies is_wire_end(
            wires,
            #[trigger] now[i],
            at,
        ) by {
            if i < before.len() {
                assert(now[i] == before[i]);
            } else {
                assert(now[i] == own[i - before.len()]);
            }
        }
        assert forall|k: int|
            0 <= k < n && (#[trigger] wires[k]).len() == 2 && comes_level(
                wires[k][1],
                wires[k][0],
                at,
            ) implies now.contains(
            StubEnd { wire: k as usize, last: true, fixed: wires[k][0] },
        ) by {
            let e = StubEnd { wire: k as usize, last: true, fixed: wires[k][0] };
            if k < n - 1 {
                assert(before.contains(e));
                let i = choose|i: int| 0 <= i < before.len() && before[i] == e;
                assert(now[i] == e);
            } else {
                let i = own.len() - 1;
                assert(own[i] == e);
                assert(now[before.len() + i] == e);
            }
        }
    }
}

/// The stub that a label stands on is a wire of the drawing, from a part's pin.
proof fn lemma_stub_kind(sc: Scene<'_>, u: Drawing, at: Point, rot: int)
    requires
        lists_fit(u),
    ensures
        match stub_kind(sc, u, at, rot) {
            Some(AlignKind::Stub { wire, last, fixed, comp }) => is_wire_end(
                u.wires,
                StubEnd { wire, last, fixed },
                at,
            ) && owner_of(*sc.design, sc.model.placed@, fixed, 0) is Some && ends_at_point(
                u.wires,
                at,
                u.wires.len() as int,
            ) == seq![StubEnd { wire, last, fixed }],
            Some(AlignKind::Interior { lo, hi }) => false,
            None => true,
        },
{
    let ends = ends_at_point(u.wires, at, u.wires.len() as int);
    lemma_ends(u.wires, at, u.wires.len() as int);
    if ends.len() == 1 {
        assert(is_wire_end(u.wires, ends[0], at));
        assert(ends =~= seq![ends[0]]);
    }
}

// ---------------------------------------------------------------- what moves, and how far

/// An item's stub is the wire.
pub open spec fn is_stub_of(it: AlignItem, j: int) -> bool {
    match it.kind {
        AlignKind::Stub { wire, last, fixed, comp } => wire == j,
        AlignKind::Interior { lo, hi } => false,
    }
}

pub open spec fn grows(items: Seq<AlignItem>, j: int) -> bool {
    exists|k: int| 0 <= k < items.len() && is_stub_of(#[trigger] items[k], j)
}

/// The item is the hierarchical label.
pub open spec fn is_hier_of(it: AlignItem, i: int) -> bool {
    it.slot == LabelSlot::Hier(i as usize)
}

pub open spec fn slides(items: Seq<AlignItem>, i: int) -> bool {
    exists|k: int| 0 <= k < items.len() && is_hier_of(#[trigger] items[k], i)
}

/// A local label of the drawing can stand at the point: on its row, over the runs under it.
pub open spec fn may_stand(u: Drawing, i: int, at: Point) -> bool {
    let l = u.net_labels[i];
    ||| at == l.at
    ||| at.y == l.at.y && (match interior_kind(u, l.net@, l.at, l.rotation as int) {
        Some(AlignKind::Interior { lo, hi }) => lo - EPS <= at.x <= hi + EPS,
        _ => false,
    })
}

/// What aligning leaves of the drawing.
pub open spec fn settled(u: Drawing, items: Seq<AlignItem>, d: Drawing) -> bool {
    &&& d.blocks == u.blocks
    &&& d.no_connects == u.no_connects
    &&& d.junctions == u.junctions
    &&& d.power_symbols == u.power_symbols
    &&& d.pwr_flags == u.pwr_flags
    &&& d.wires.len() == u.wires.len()
    &&& forall|j: int|
        0 <= j < u.wires.len() ==> #[trigger] d.wires[j] == u.wires[j] || grows(items, j)
    &&& d.hier_labels.len() == u.hier_labels.len()
    &&& forall|i: int|
        0 <= i < u.hier_labels.len() ==> (#[trigger] d.hier_labels[i]).net == u.hier_labels[i].net
            && (d.hier_labels[i].at == u.hier_labels[i].at || slides(items, i))
    &&& d.net_labels.len() == u.net_labels.len()
    &&& forall|i: int|
        0 <= i < u.net_labels.len() ==> (#[trigger] d.net_labels[i]).net == u.net_labels[i].net
            && may_stand(u, i, d.net_labels[i].at)
}

/// Where the item goes is within its reach.
pub open spec fn in_reach(it: AlignItem, x: Iu) -> bool {
    match it.kind {
        AlignKind::Stub { wire, last, fixed, comp } => true,
        AlignKind::Interior { lo, hi } => lo - EPS <= x <= hi + EPS,
    }
}

proof fn lemma_label_moved(
    sc: Scene<'_>,
    u: Drawing,
    items: Seq<AlignItem>,
    d: Drawing,
    k: int,
    x: Iu,
)
    requires
        lists_fit(u),
        are_items(sc, u, items),
        settled(u, items, d),
        0 <= k < items.len(),
        in_reach(items[k], x),
    ensures
        settled(u, items, d.label_moved(items[k], x)),
{
    let it = items[k];
    let e = d.label_moved(it, x);
    assert(item_of(sc, u, it));
    assert forall|i: int| 0 <= i < u.hier_labels.len() implies (#[trigger] e.hier_labels[i]).net
        == u.hier_labels[i].net && (e.hier_labels[i].at == u.hier_labels[i].at || slides(items, i)) by {
        assert(d.hier_labels[i].net == u.hier_labels[i].net);
        if it.slot == LabelSlot::Hier(i as usize) {
            assert(is_hier_of(items[k], i));
        } else {
            assert(e.hier_labels[i] == d.hier_labels[i]);
        }
    }
    assert forall|i: int| 0 <= i < u.net_labels.len() implies (#[trigger] e.net_labels[i]).net
        == u.net_labels[i].net && may_stand(u, i, e.net_labels[i].at) by {
        assert(d.net_labels[i].net == u.net_labels[i].net);
        if it.slot != LabelSlot::Net(i as usize) {
            assert(e.net_labels[i] == d.net_labels[i]);
        }
    }
}

/// The stub of an item is a wire of the drawing, and a part's pin is at its foot.
proof fn lemma_item_stub(sc: Scene<'_>, u: Drawing, it: AlignItem)
    requires
        lists_fit(u),
        item_of(sc, u, it),
    ensures
        match it.kind {
            AlignKind::Stub { wire, last, fixed, comp } => is_wire_end(
                u.wires,
                StubEnd { wire, last, fixed },
                it.at,
            ) && owner_of(*sc.design, sc.model.placed@, fixed, 0) is Some,
            AlignKind::Interior { lo, hi } => true,
        },
{
    match it.slot {
        LabelSlot::Global(i) => {
            lemma_stub_kind(sc, u, it.at, u.global_labels[i as int].rotation as int);
        },
        LabelSlot::Hier(i) => {
            lemma_stub_kind(sc, u, it.at, u.hier_labels[i as int].rotation as int);
        },
        LabelSlot::Net(i) => {},
    }
}

proof fn lemma_stub_grown(
    sc: Scene<'_>,
    u: Drawing,
    items: Seq<AlignItem>,
    d: Drawing,
    k: int,
    x: Iu,
)
    requires
        lists_fit(u),
        are_items(sc, u, items),
        settled(u, items, d),
        0 <= k < items.len(),
    ensures
        settled(u, items, d.stub_grown(items[k], x)),
{
    let it = items[k];
    lemma_item_stub(sc, u, it);
    let e = d.stub_grown(it, x);
    assert forall|j: int| 0 <= j < u.wires.len() implies #[trigger] e.wires[j] == u.wires[j]
        || grows(items, j) by {
        if is_stub_of(items[k], j) {
        } else {
            assert(e.wires[j] == d.wires[j]);
        }
    }
}

proof fn lemma_members_settle(
    sc: Scene<'_>,
    u: Drawing,
    items: Seq<AlignItem>,
    d: Drawing,
    m: Seq<usize>,
    x: Iu,
    n: int,
)
    requires
        lists_fit(u),
        are_items(sc, u, items),
        settled(u, items, d),
        forall|i: int|
            0 <= i < m.len() ==> #[trigger] m[i] < items.len() && in_reach(items[m[i] as int], x),
        0 <= n <= m.len(),
    ensures
        settled(u, items, d.members_moved(items, m, x, n)),
    decreases n,
{
    if n > 0 {
        lemma_members_settle(sc, u, items, d, m, x, n - 1);
        let before = d.members_moved(items, m, x, n - 1);
        let k = m[n - 1] as int;
        lemma_label_moved(sc, u, items, before, k, x);
        let a = before.label_moved(items[k], x);
        lemma_stub_grown(sc, u, items, a, k, x);
        let b = a.stub_grown(items[k], x);
        let e = before.item_moved(items, m, x, n - 1);
        assert(e.blocks == b.blocks && e.wires == b.wires && e.hier_labels == b.hier_labels
            && e.net_labels == b.net_labels && e.no_connects == b.no_connects && e.junctions
            == b.junctions && e.power_symbols == b.power_symbols && e.pwr_flags == b.pwr_flags);
    }
}

proof fn lemma_cluster_settles(
    sc: Scene<'_>,
    u: Drawing,
    items: Seq<AlignItem>,
    d: Drawing,
    m: Seq<usize>,
)
    requires
        lists_fit(u),
        are_items(sc, u, items),
        settled(u, items, d),
        forall|i: int| 0 <= i < m.len() ==> #[trigger] m[i] < items.len(),
    ensures
        settled(u, items, d.aligned(sc, items, m)),
{
    let x = target_of(items, m);
    if all_may_move(sc, d, items, m, x) {
        assert forall|i: int| 0 <= i < m.len() implies #[trigger] m[i] < items.len() && in_reach(
            items[m[i] as int],
            x,
        ) by {
            assert(may_move(sc, d, items[m[i] as int], x));
        }
        lemma_members_settle(sc, u, items, d, m, x, m.len() as int);
    }
}

proof fn lemma_stubs_settle(
    sc: Scene<'_>,
    u: Drawing,
    items: Seq<AlignItem>,
    groups: Seq<Seq<usize>>,
    n: int,
)
    requires
        lists_fit(u),
        are_items(sc, u, items),
        rows_wf(groups, items.len() as int),
        0 <= n <= groups.len(),
    ensures
        settled(u, items, stubs_aligned(sc, u, items, groups, n)),
    decreases n,
{
    if n > 0 {
        lemma_stubs_settle(sc, u, items, groups, n - 1);
        let before = stubs_aligned(sc, u, items, groups, n - 1);
        assert(groups[n - 1].len() > 0);
        lemma_cluster_settles(sc, u, items, before, groups[n - 1]);
    }
}

proof fn lemma_listed_items(items: Seq<AlignItem>, stub: bool, n: int)
    requires
        items.len() <= usize::MAX,
    ensures
        forall|i: int|
            0 <= i < items_of(items, stub, n).len() ==> #[trigger] items_of(items, stub, n)[i]
                < items.len(),
    decreases n,
{
    if 0 < n <= items.len() {
        lemma_listed_items(items, stub, n - 1);
        let before = items_of(items, stub, n - 1);
        assert forall|i: int| 0 <= i < items_of(items, stub, n).len() implies #[trigger] items_of(
            items,
            stub,
            n,
        )[i] < items.len() by {
            if i < before.len() {
                assert(before[i] < items.len());
            }
        }
    }
}

proof fn lemma_class_listed(list: Seq<usize>, roots: Seq<usize>, r: int, n: int, top: int)
    requires
        forall|i: int| 0 <= i < list.len() ==> #[trigger] list[i] < top,
    ensures
        forall|i: int|
            0 <= i < class_of(list, roots, r, n).len() ==> #[trigger] class_of(list, roots, r, n)[i]
                < top,
    decreases n,
{
    if 0 < n <= list.len() {
        lemma_class_listed(list, roots, r, n - 1, top);
        let before = class_of(list, roots, r, n - 1);
        assert forall|i: int| 0 <= i < class_of(list, roots, r, n).len() implies #[trigger] class_of(
            list,
            roots,
            r,
            n,
        )[i] < top by {
            if i < before.len() {
                assert(before[i] < top);
            } else {
                assert(list[n - 1] < top);
            }
        }
    }
}

proof fn lemma_classes_settle(
    sc: Scene<'_>,
    u: Drawing,
    items: Seq<AlignItem>,
    d: Drawing,
    list: Seq<usize>,
    roots: Seq<usize>,
    n: int,
)
    requires
        lists_fit(u),
        are_items(sc, u, items),
        settled(u, items, d),
        forall|i: int| 0 <= i < list.len() ==> #[trigger] list[i] < items.len(),
        0 <= n <= list.len(),
    ensures
        settled(u, items, classes_aligned(sc, d, items, list, roots, n)),
    decreases n,
{
    if n > 0 {
        lemma_classes_settle(sc, u, items, d, list, roots, n - 1);
        let before = classes_aligned(sc, d, items, list, roots, n - 1);
        lemma_class_listed(list, roots, n - 1, list.len() as int, items.len() as int);
        lemma_cluster_settles(
            sc,
            u,
            items,
            before,
            class_of(list, roots, n - 1, list.len() as int),
        );
    }
}

pub proof fn lemma_aligning_settles(sc: Scene<'_>, u: Drawing)
    requires
        lists_fit(u),
        align_items(sc, u).len() <= usize::MAX,
    ensures
        settled(u, align_items(sc, u), siblings_aligned(sc, u)),
{
    let items = align_items(sc, u);
    lemma_items(sc, u);
    let groups = stub_groups(items);
    let top = items.len() as int;
    let stubs = items_of(items, true, top);
    lemma_listed_items(items, true, top);
    lemma_listed_items(items, false, top);
    let gt = |a: usize, b: usize| stub_after(items[a as int], items[b as int]);
    let joins = |a: usize, b: usize| same_side_of(items[a as int], items[b as int]);
    lemma_sorted_items(stubs, gt, |i: usize| i < top);
    let order = sorted_by(stubs, gt);
    assert forall|i: int| 0 <= i < order.len() implies #[trigger] order[i] < top by {
        assert((|i: usize| i < top)(order[i]));
    }
    lemma_runs_wf(order, joins, order.len() as int, top);
    assert(groups == runs_by(order, joins, order.len() as int));
    lemma_stubs_settle(sc, u, items, groups, groups.len() as int);
    let d1 = stubs_aligned(sc, u, items, groups, groups.len() as int);
    let list = items_of(items, false, top);
    let roots = classes(sc, items, list, list.len() as int);
    lemma_classes_settle(sc, u, items, d1, list, roots, list.len() as int);
}

// ---------------------------------------------------------------- labels over runs

/// The level run of the net passes the point.
pub open spec fn passes(s: Seg, net: Seq<char>, at: Point) -> bool {
    let lo = if s.span.x1 <= s.span.x2 {
        s.span.x1
    } else {
        s.span.x2
    };
    let hi = if s.span.x1 <= s.span.x2 {
        s.span.x2
    } else {
        s.span.x1
    };
    &&& s.net@ == net
    &&& -EPS <= s.span.y1 - s.span.y2 <= EPS
    &&& -EPS <= s.span.y1 - at.y <= EPS
    &&& lo - EPS <= at.x <= hi + EPS
}

/// One run of the net passes both points.
pub open spec fn one_run(segs: Seq<Seg>, net: Seq<char>, a: Point, b: Point) -> bool {
    exists|j: int|
        0 <= j < segs.len() && passes(#[trigger] segs[j], net, a) && passes(segs[j], net, b)
}

proof fn lemma_stretch(segs: Seq<Seg>, net: Seq<char>, at: Point, n: int, x: Iu)
    requires
        0 <= n <= segs.len(),
    ensures
        match stretch_under(segs, net, at, n) {
            Some((lo, hi)) => lo - EPS <= at.x <= hi + EPS && (lo - EPS <= x <= hi + EPS
                ==> one_run(segs, net, at, Point { x, y: at.y })),
            None => true,
        },
    decreases n,
{
    if n > 0 {
        lemma_stretch(segs, net, at, n - 1, x);
        let s = segs[n - 1];
        if run_under(s, net, at) {
            assert(passes(s, net, at));
            if passes(s, net, Point { x, y: at.y }) {
                assert(one_run(segs, net, at, Point { x, y: at.y }));
            }
        }
    }
}

/// A label of the net stands at the point, or a local one on a run that passes it.
pub open spec fn named_near(u: Drawing, f: Drawing, net: Seq<char>, at: Point) -> bool {
    names_net(f, net, at) || exists|i: int|
        0 <= i < f.net_labels.len() && (#[trigger] f.net_labels[i]).net@ == net && one_run(
            u.reg.segs,
            net,
            at,
            f.net_labels[i].at,
        )
}

/// A wire runs level from the pin to a point that a label of the pin's net names.
pub open spec fn pin_joined(u: Drawing, f: Drawing, pin: BlockPin) -> bool {
    exists|k: int|
        0 <= k < f.wires.len() && (#[trigger] f.wires[k]).len() == 2 && f.wires[k][0] == pin.at
            && f.wires[k][1].y == pin.at.y && named_near(u, f, pin.net@, f.wires[k][1])
}

/// No part has a pin at the block's pin, nor at the far end of a wire from it; and such a wire is
/// no shorter than what counts as a distance.
pub open spec fn clear_of_parts(sc: Scene<'_>, u: Drawing, pin: BlockPin) -> bool {
    &&& owner_of(*sc.design, sc.model.placed@, pin.at, 0) is None
    &&& forall|k: int|
        0 <= k < u.wires.len() && (#[trigger] u.wires[k]).len() == 2 && u.wires[k][0] == pin.at
            ==> owner_of(*sc.design, sc.model.placed@, u.wires[k][1], 0) is None && spec_gap(
            pin.at.x as int,
            u.wires[k][1].x as int,
        ) > EPS
}

proof fn lemma_pin_stays_joined(sc: Scene<'_>, u: Drawing, f: Drawing, pin: BlockPin)
    requires
        lists_fit(u),
        are_items(sc, u, align_items(sc, u)),
        settled(u, align_items(sc, u), f),
        stub_named(u, pin.net@, pin.at),
        clear_of_parts(sc, u, pin),
    ensures
        pin_joined(u, f, pin),
{
    let items = align_items(sc, u);
    let net = pin.net@;
    let (k, p) = choose|k: int, p: int| #[trigger]
        drawn_for(u, net, k, p) && leads_to_name(u, net, pin.at, k);
    let end = u.wires[k][1];
    if grows(items, k) {
        let i = choose|i: int| 0 <= i < items.len() && is_stub_of(#[trigger] items[i], k);
        assert(item_of(sc, u, items[i]));
        lemma_item_stub(sc, u, items[i]);
    }
    assert(f.wires[k] == u.wires[k]);
    if exists|i: int|
        0 <= i < u.net_labels.len() && (#[trigger] u.net_labels[i]).net@ == net
            && u.net_labels[i].at == end {
        let i = choose|i: int|
            0 <= i < u.net_labels.len() && (#[trigger] u.net_labels[i]).net@ == net
                && u.net_labels[i].at == end;
        assert(f.net_labels[i].net == u.net_labels[i].net);
        let at = f.net_labels[i].at;
        if at == end {
            assert(names_net(f, net, end));
        } else {
            lemma_stretch(u.reg.segs, net, end, u.reg.segs.len() as int, at.x);
            assert(may_stand(u, i, at));
            assert(at == Point { x: at.x, y: end.y });
            assert(one_run(u.reg.segs, net, end, f.net_labels[i].at));
        }
    } else {
        let i = choose|i: int|
            0 <= i < u.hier_labels.len() && (#[trigger] u.hier_labels[i]).net@ == net
                && u.hier_labels[i].at == end;
        assert(f.hier_labels[i].net == u.hier_labels[i].net);
        if slides(items, i) {
            let j = choose|j: int| 0 <= j < items.len() && is_hier_of(#[trigger] items[j], i);
            assert(item_of(sc, u, items[j]));
            let rot = u.hier_labels[i].rotation as int;
            lemma_stub_kind(sc, u, end, rot);
            lemma_ends(u.wires, end, u.wires.len() as int);
            assert(comes_level(u.wires[k][1], u.wires[k][0], end));
            let e = StubEnd { wire: k as usize, last: true, fixed: pin.at };
            let ends = ends_at_point(u.wires, end, u.wires.len() as int);
            assert(ends.contains(e));
            assert(ends[0] == e);
        }
        assert(f.hier_labels[i].at == end);
        assert(names_net(f, net, end));
    }
    assert(named_near(u, f, net, f.wires[k][1]));
}

// ---------------------------------------------------------------- the routed sheet

pub proof fn lemma_flag_rows_keep(
    sc: Scene<'_>,
    d: Drawing,
    noted: Seq<String>,
    order: Seq<usize>,
    x: Iu,
    y: Iu,
    n: int,
)
    ensures
        keeps(flag_rows(sc, d, noted, order, x, y, n).0, d),
    decreases n,
{
    if 0 < n <= order.len() {
        lemma_flag_rows_keep(sc, d, noted, order, x, y, n - 1);
    }
}

/// Wiring the pins of the sheet draws no block.
proof fn lemma_wiring_draws_no_block(sc: Scene<'_>, d: Drawing, undriven: Seq<String>)
    ensures
        power_routed(sc, signals_routed(sc, d), undriven).0.blocks == d.blocks,
{
    let d1 = signals_routed(sc, d);
    lemma_signals_keep(sc, d);
    lemma_supply_keeps(sc, d1, undriven, sc.model.nets@.len() as int);
    let s = nets_supplied(sc, d1, undriven, sc.model.nets@.len() as int);
    let o = flag_origin(sc, s.0);
    let order = flag_order(sc.model.nets@, s.1);
    lemma_flag_rows_keep(sc, s.0, s.1, order, o.x, o.y, order.len() as int);
}

/// The drawing holds one block per child sheet, in order, with a pin for each port of the child.
pub open spec fn holds_children(sc: Scene<'_>, f: Drawing) -> bool {
    let children = sc.plan.sheets@[sc.model.sheet as int].children@;
    &&& f.blocks.len() == children.len()
    &&& forall|c: int|
        0 <= c < children.len() ==> (#[trigger] f.blocks[c]).sheet == children[c] && block_for(
            *sc.design,
            f.blocks[c],
            sc.plan.sheets@[children[c] as int].ports@,
        )
}

/// On a routed sheet every child sheet has its block, with a pin for each of its ports. Without
/// the alignment of labels, a wire runs from every pin to a local or hierarchical label with the
/// name of the pin's net.
pub proof fn law_block_pins_are_labelled(
    sc: Scene<'_>,
    pins: Seq<RegPin>,
    texts: Seq<LabelBox>,
    undriven: Seq<String>,
    c: int,
    p: int,
)
    requires
        !sc.cfg.align_sibling_ports,
        ({
            let f = sheet_routed(sc, start_drawing(pins, texts), undriven);
            0 <= c < f.blocks.len() && 0 <= p < f.blocks[c].pins.len()
        }),
    ensures
        ({
            let f = sheet_routed(sc, start_drawing(pins, texts), undriven);
            let pin = f.blocks[c].pins[p];
            &&& holds_children(sc, f)
            &&& exists|k: int|
                0 <= k < f.wires.len() && (#[trigger] f.wires[k]).len() == 2 && f.wires[k][0]
                    == pin.at && f.wires[k][1].y == pin.at.y && names_net(
                    f,
                    pin.net@,
                    f.wires[k][1],
                )
        }),
{
    let d = start_drawing(pins, texts);
    let q = Drawing {
        no_connects: unconnected(sc),
        ..power_routed(sc, signals_routed(sc, d), undriven).0
    };
    let u = unaligned(sc, d, undriven);
    let f = sheet_routed(sc, d, undriven);
    lemma_wiring_draws_no_block(sc, d, undriven);
    law_blocks_are_joined(sc, q);
    let children = sc.plan.sheets@[sc.model.sheet as int].children@;
    assert(children_joined(sc, u, 0, children));
    assert forall|i: int| 0 <= i < children.len() implies (#[trigger] f.blocks[i]).sheet
        == children[i] && block_for(
        *sc.design,
        f.blocks[i],
        sc.plan.sheets@[children[i] as int].ports@,
    ) by {
        assert(child_joined(sc, u, 0 + i, children[i]));
    }
    assert(child_joined(sc, u, 0 + c, children[c]));
    let pin = u.blocks[c].pins[p];
    assert(stub_named(u, pin.net@, pin.at));
    let (k, r) = choose|k: int, r: int| #[trigger]
        drawn_for(u, pin.net@, k, r) && leads_to_name(u, pin.net@, pin.at, k);
    assert(f.wires[k] == u.wires[k]);
    assert(keeps_blocks(f, u));
    lemma_named_stays(u, f, pin.net@, u.wires[k][1]);
}

/// On a routed sheet every child sheet has its block, with a pin for each of its ports. Where no
/// part has a pin on the stub of a block's pin, a wire runs from the pin to a point at which a
/// label with the name of the pin's net stands, or over which a run of the net passes that carries
/// such a label, slid along it to stand in line with others.
pub proof fn law_block_pins_stay_labelled(
    sc: Scene<'_>,
    pins: Seq<RegPin>,
    texts: Seq<LabelBox>,
    undriven: Seq<String>,
    c: int,
    p: int,
)
    requires
        ({
            let u = unaligned(sc, start_drawing(pins, texts), undriven);
            let f = sheet_routed(sc, start_drawing(pins, texts), undriven);
            &&& lists_fit(u)
            &&& align_items(sc, u).len() <= usize::MAX
            &&& 0 <= c < f.blocks.len()
            &&& 0 <= p < f.blocks[c].pins.len()
            &&& clear_of_parts(sc, u, f.blocks[c].pins[p])
        }),
    ensures
        ({
            let u = unaligned(sc, start_drawing(pins, texts), undriven);
            let f = sheet_routed(sc, start_drawing(pins, texts), undriven);
            holds_children(sc, f) && pin_joined(u, f, f.blocks[c].pins[p])
        }),
{
    let d = start_drawing(pins, texts);
    let q = Drawing {
        no_connects: unconnected(sc),
        ..power_routed(sc, signals_routed(sc, d), undriven).0
    };
    let u = unaligned(sc, d, undriven);
    let a = siblings_aligned(sc, u);
    let f = sheet_routed(sc, d, undriven);
    lemma_wiring_draws_no_block(sc, d, undriven);
    law_blocks_are_joined(sc, q);
    lemma_aligning_settles(sc, u);
    lemma_items(sc, u);
    let items = align_items(sc, u);
    assert(f.blocks == a.blocks && f.wires == a.wires && f.hier_labels == a.hier_labels
        && f.net_labels == a.net_labels);
    assert(settled(u, items, f));
    let children = sc.plan.sheets@[sc.model.sheet as int].children@;
    assert(children_joined(sc, u, 0, children));
    assert forall|i: int| 0 <= i < children.len() implies (#[trigger] f.blocks[i]).sheet
        == children[i] && block_for(
        *sc.design,
        f.blocks[i],
        sc.plan.sheets@[children[i] as int].ports@,
    ) by {
        assert(child_joined(sc, u, 0 + i, children[i]));
    }
    assert(child_joined(sc, u, 0 + c, children[c]));
    let pin = u.blocks[c].pins[p];
    assert(stub_named(u, pin.net@, pin.at));
    lemma_pin_stays_joined(sc, u, f, pin);
}

} // verus!
