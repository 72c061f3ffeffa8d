//! Stubs that are pulled onto a common column make no contact with other nets, nor with each other.

use vstd::prelude::*;
use crate::align::{
    align_items, all_may_move, class_of, classes, classes_aligned, items_of, may_move, moved_to,
    runs_grown, siblings_aligned, stub_groups, stubs_aligned, target_of, AlignItem, AlignKind,
};
use crate::apart::{
    law_contact_is_mutual, lemma_fits_is_safe, nets_apart, pin_apart, wires_apart,
};
use crate::canvas::{Drawing, Scene};
use crate::registry::{electrically_clear, is_leg};
use crate::units::{dist_sq, spec_gap, spec_near, spec_near_point, Iu, Point, EPS};
use crate::wiring::{span, spec_on, spec_touch, Seg, Span};

verus! {

// ---------------------------------------------------------------- level stubs

/// The end of the stub that stays put.
pub open spec fn foot(it: AlignItem) -> Point {
    match it.kind {
        AlignKind::Stub { wire, last, fixed, comp } => fixed,
        AlignKind::Interior { lo, hi } => it.at,
    }
}

/// The run lies between the two points, in either direction.
pub open spec fn lies_between(s: Span, a: Point, b: Point) -> bool {
    s == span(a, b) || s == span(b, a)
}

/// A level run of the net that ends at the label.
pub open spec fn ends_at_label(s: Seg, it: AlignItem) -> bool {
    &&& s.net@ == it.net@
    &&& spec_near(s.span.y1 as int, s.span.y2 as int)
    &&& spec_near_point(Point { x: s.span.x1, y: s.span.y1 }, it.at) || spec_near_point(
        Point { x: s.span.x2, y: s.span.y2 },
        it.at,
    )
}

/// The stub is level and reads outward, towards the column; and it is all that ends at its label.
pub open spec fn level_stub(d: Drawing, it: AlignItem, x: Iu, right: bool) -> bool {
    &&& foot(it).y == it.at.y
    &&& if right {
        foot(it).x + EPS < it.at.x <= x
    } else {
        x <= it.at.x < foot(it).x - EPS
    }
    &&& forall|i: int|
        0 <= i < d.reg.segs.len() && ends_at_label(#[trigger] d.reg.segs[i], it) ==> lies_between(
            d.reg.segs[i].span,
            foot(it),
            it.at,
        )
}

/// The stubs among the members are level and read one way, and none has its foot at a label.
pub open spec fn level_cluster(d: Drawing, items: Seq<AlignItem>, m: Seq<usize>, x: Iu) -> bool {
    exists|right: bool| #[trigger] level_members(d, items, m, x, right)
}

pub open spec fn level_members(
    d: Drawing,
    items: Seq<AlignItem>,
    m: Seq<usize>,
    x: Iu,
    right: bool,
) -> bool {
    &&& forall|k: int|
        0 <= k < m.len() && items[#[trigger] m[k] as int].kind is Stub ==> level_stub(
            d,
            items[m[k] as int],
            x,
            right,
        )
    &&& forall|k: int, l: int|
        0 <= k < m.len() && 0 <= l < m.len() && items[#[trigger] m[k] as int].kind is Stub
            && items[#[trigger] m[l] as int].kind is Stub ==> !spec_near_point(
            foot(items[m[k] as int]),
            items[m[l] as int].at,
        )
}

// ---------------------------------------------------------------- what pulling changes

/// The run is as it was, or is a stub that member `k` of the first `n` pulled onto the column.
pub open spec fn kept_or_pulled(
    s: Seg,
    was: Seg,
    items: Seq<AlignItem>,
    m: Seq<usize>,
    x: Iu,
    n: int,
) -> bool {
    &&& s.net@ == was.net@
    &&& s.span == was.span || exists|k: int|
        0 <= k < n && pulled_by(s, was, items[#[trigger] m[k] as int], x)
}

pub open spec fn pulled_by(s: Seg, was: Seg, it: AlignItem, x: Iu) -> bool {
    &&& it.kind is Stub
    &&& was.net@ == it.net@
    &&& lies_between(was.span, foot(it), it.at)
    &&& lies_between(s.span, foot(it), moved_to(it, x))
}

proof fn lemma_members_pull(d: Drawing, items: Seq<AlignItem>, m: Seq<usize>, x: Iu, right: bool, n: int)
    requires
        level_members(d, items, m, x, right),
        0 <= n <= m.len(),
    ensures
        d.members_moved(items, m, x, n).reg.segs.len() == d.reg.segs.len(),
        d.members_moved(items, m, x, n).reg.pins == d.reg.pins,
        forall|i: int|
            0 <= i < d.reg.segs.len() ==> kept_or_pulled(
                #[trigger] d.members_moved(items, m, x, n).reg.segs[i],
                d.reg.segs[i],
                items,
                m,
                x,
                n,
            ),
    decreases n,
{
    if n > 0 {
        lemma_members_pull(d, items, m, x, right, n - 1);
        let before = d.members_moved(items, m, x, n - 1);
        let after = d.members_moved(items, m, x, n);
        let it = items[m[n - 1] as int];
        if it.kind is Stub {
            assert(after.reg.segs == runs_grown(before.reg.segs, it.net@, it.at, x));
            assert(level_stub(d, it, x, right));
        } else {
            assert(after.reg.segs == before.reg.segs);
        }
        assert forall|i: int| 0 <= i < d.reg.segs.len() implies kept_or_pulled(
            #[trigger] after.reg.segs[i],
            d.reg.segs[i],
            items,
            m,
            x,
            n,
        ) by {
            let was = d.reg.segs[i];
            let s = before.reg.segs[i];
            let t = after.reg.segs[i];
            assert(kept_or_pulled(s, was, items, m, x, n - 1));
            if it.kind is Stub && ends_at_label(s, it) {
                if s.span == was.span {
                    assert(ends_at_label(was, it));
                    assert(lies_between(was.span, foot(it), it.at));
                    assert(pulled_by(t, was, it, x));
                    assert(items[m[n - 1] as int] == it);
                } else {
                    let k = choose|k: int|
                        0 <= k < n - 1 && pulled_by(s, was, items[#[trigger] m[k] as int], x);
                    assert(!spec_near_point(foot(items[m[k] as int]), it.at));
                    assert(t.span == s.span);
                    assert(pulled_by(t, was, items[m[k] as int], x));
                }
            } else {
                assert(t == s);
                if s.span != was.span {
                    let k = choose|k: int|
                        0 <= k < n - 1 && pulled_by(s, was, items[#[trigger] m[k] as int], x);
                    assert(pulled_by(t, was, items[m[k] as int], x));
                }
            }
        }
    }
}

// ---------------------------------------------------------------- pulled stubs stay apart

/// A pulled stub is clear of everything that was there.
proof fn lemma_pulled_clear(sc: Scene<'_>, d: Drawing, it: AlignItem, x: Iu, right: bool)
    requires
        it.kind is Stub,
        may_move(sc, d, it, x),
        level_stub(d, it, x, right),
    ensures
        electrically_clear(d.reg, span(foot(it), moved_to(it, x)), it.net@),
{
    let path = seq![foot(it), moved_to(it, x)];
    lemma_fits_is_safe(sc, d, path, it.net@, Seq::empty());
    let dx = foot(it).x - x;
    assert(dx * dx >= EPS * EPS) by (nonlinear_arith)
        requires
            dx > 10 || dx < -10,
            EPS == 10,
    ;
    assert(dist_sq(path[0], path[1]) >= EPS * EPS);
    assert(is_leg(path, 0));
}

/// Which way a level run is walked makes no difference to contact.
proof fn lemma_turned(a: Point, b: Point, s: Span, p: Point)
    requires
        a.y == b.y,
    ensures
        spec_touch(span(a, b), s) == spec_touch(span(b, a), s),
        spec_on(p.x as int, p.y as int, span(a, b)) == spec_on(p.x as int, p.y as int, span(b, a)),
{
}

/// Two stubs that were pulled onto the column make no contact, because the longer one is clear of
/// what the other was.
proof fn lemma_pulled_apart(
    sc: Scene<'_>,
    d: Drawing,
    a: AlignItem,
    b: AlignItem,
    x: Iu,
    right: bool,
    i: int,
    j: int,
)
    requires
        a.kind is Stub,
        b.kind is Stub,
        may_move(sc, d, a, x),
        may_move(sc, d, b, x),
        level_stub(d, a, x, right),
        level_stub(d, b, x, right),
        a.net@ != b.net@,
        0 <= i < d.reg.segs.len(),
        0 <= j < d.reg.segs.len(),
        d.reg.segs[i].net@ == a.net@,
        d.reg.segs[j].net@ == b.net@,
        lies_between(d.reg.segs[i].span, foot(a), a.at),
        lies_between(d.reg.segs[j].span, foot(b), b.at),
    ensures
        !spec_touch(span(foot(a), moved_to(a, x)), span(foot(b), moved_to(b, x))),
{
    lemma_pulled_clear(sc, d, a, x, right);
    lemma_pulled_clear(sc, d, b, x, right);
    let pa = span(foot(a), moved_to(a, x));
    let pb = span(foot(b), moved_to(b, x));
    assert(!spec_touch(pa, d.reg.segs[j].span));
    assert(!spec_touch(pb, d.reg.segs[i].span));
    if spec_touch(pa, pb) {
        assert(spec_gap(a.at.y as int, b.at.y as int) <= EPS);
        if right == (foot(a).x <= foot(b).x) {
            assert(spec_touch(pa, d.reg.segs[j].span));
        } else {
            assert(spec_touch(pb, d.reg.segs[i].span));
        }
    }
}

/// Where the stubs of a cluster are level, pulling them onto their column keeps the nets apart.
pub proof fn law_pulled_cluster_keeps_nets_apart(
    sc: Scene<'_>,
    d: Drawing,
    items: Seq<AlignItem>,
    m: Seq<usize>,
)
    requires
        nets_apart(d.reg),
        level_cluster(d, items, m, target_of(items, m)),
    ensures
        nets_apart(d.aligned(sc, items, m).reg),
{
    let x = target_of(items, m);
    let after = d.aligned(sc, items, m);
    if after != d {
        let right = choose|right: bool| #[trigger] level_members(d, items, m, x, right);
        lemma_members_pull(d, items, m, x, right, m.len() as int);
        let old = d.reg.segs;
        let now = after.reg.segs;
        assert forall|i: int, j: int| 0 <= i < now.len() && 0 <= j < now.len() implies #[trigger] wires_apart(
            now[i],
            now[j],
        ) by {
            assert(kept_or_pulled(now[i], old[i], items, m, x, m.len() as int));
            assert(kept_or_pulled(now[j], old[j], items, m, x, m.len() as int));
            assert(wires_apart(old[i], old[j]));
            law_contact_is_mutual(now[i].span, now[j].span);
            if now[i].net@ != now[j].net@ {
                if now[i].span == old[i].span && now[j].span == old[j].span {
                } else if now[j].span == old[j].span {
                    lemma_one_pulled(sc, d, items, m, x, right, now[i], i, j);
                } else if now[i].span == old[i].span {
                    lemma_one_pulled(sc, d, items, m, x, right, now[j], j, i);
                } else {
                    let k = choose|k: int|
                        0 <= k < m.len() && pulled_by(
                            now[i],
                            old[i],
                            items[#[trigger] m[k] as int],
                            x,
                        );
                    let l = choose|l: int|
                        0 <= l < m.len() && pulled_by(
                            now[j],
                            old[j],
                            items[#[trigger] m[l] as int],
                            x,
                        );
                    let a = items[m[k] as int];
                    let b = items[m[l] as int];
                    lemma_pulled_apart(sc, d, a, b, x, right, i, j);
                    let p = moved_to(a, x);
                    let q = moved_to(b, x);
                    lemma_turned(foot(a), p, span(foot(b), q), p);
                    lemma_turned(foot(a), p, span(q, foot(b)), p);
                    lemma_turned(foot(b), q, span(foot(a), p), p);
                    lemma_turned(foot(b), q, span(p, foot(a)), p);
                    law_contact_is_mutual(span(foot(a), p), span(foot(b), q));
                    law_contact_is_mutual(span(foot(a), p), span(q, foot(b)));
                    law_contact_is_mutual(span(p, foot(a)), span(foot(b), q));
                    law_contact_is_mutual(span(p, foot(a)), span(q, foot(b)));
                }
            }
        }
        assert forall|i: int, k: int|
            0 <= i < now.len() && 0 <= k < after.reg.pins.len() implies #[trigger] pin_apart(
            now[i],
            after.reg.pins[k],
        ) by {
            assert(kept_or_pulled(now[i], old[i], items, m, x, m.len() as int));
            assert(pin_apart(old[i], d.reg.pins[k]));
            if now[i].span != old[i].span {
                let l = choose|l: int|
                    0 <= l < m.len() && pulled_by(now[i], old[i], items[#[trigger] m[l] as int], x);
                let a = items[m[l] as int];
                lemma_pulled_clear(sc, d, a, x, right);
                lemma_turned(foot(a), moved_to(a, x), now[i].span, d.reg.pins[k].at);
            }
        }
    }
}

/// A pulled stub is clear of a run that stays.
proof fn lemma_one_pulled(
    sc: Scene<'_>,
    d: Drawing,
    items: Seq<AlignItem>,
    m: Seq<usize>,
    x: Iu,
    right: bool,
    s: Seg,
    i: int,
    j: int,
)
    requires
        level_members(d, items, m, x, right),
        all_may_move(sc, d, items, m, x),
        0 <= i < d.reg.segs.len(),
        0 <= j < d.reg.segs.len(),
        kept_or_pulled(s, d.reg.segs[i], items, m, x, m.len() as int),
        s.span != d.reg.segs[i].span,
        s.net@ != d.reg.segs[j].net@,
    ensures
        !spec_touch(s.span, d.reg.segs[j].span),
{
    let k = choose|k: int|
        0 <= k < m.len() && pulled_by(s, d.reg.segs[i], items[#[trigger] m[k] as int], x);
    let a = items[m[k] as int];
    lemma_pulled_clear(sc, d, a, x, right);
    lemma_turned(foot(a), moved_to(a, x), d.reg.segs[j].span, a.at);
}

// ---------------------------------------------------------------- the whole pass

/// Every cluster of stubs is level when it is pulled.
pub open spec fn pulls_level(sc: Scene<'_>, d: Drawing) -> bool {
    let items = align_items(sc, d);
    let groups = stub_groups(items);
    forall|n: int|
        0 <= n < groups.len() ==> pulls_level_at(
            sc,
            #[trigger] stubs_aligned(sc, d, items, groups, n),
            items,
            groups[n],
        )
}

/// The cluster stays, or is level.
pub open spec fn pulls_level_at(sc: Scene<'_>, d: Drawing, items: Seq<AlignItem>, m: Seq<usize>) -> bool {
    d.aligned(sc, items, m) == d || level_cluster(d, items, m, target_of(items, m))
}

proof fn lemma_stubs_aligned_apart(
    sc: Scene<'_>,
    d: Drawing,
    items: Seq<AlignItem>,
    groups: Seq<Seq<usize>>,
    n: int,
)
    requires
        nets_apart(d.reg),
        0 <= n <= groups.len(),
        forall|k: int|
            0 <= k < groups.len() ==> pulls_level_at(
                sc,
                #[trigger] stubs_aligned(sc, d, items, groups, k),
                items,
                groups[k],
            ),
    ensures
        nets_apart(stubs_aligned(sc, d, items, groups, n).reg),
    decreases n,
{
    if n > 0 {
        lemma_stubs_aligned_apart(sc, d, items, groups, n - 1);
        let before = stubs_aligned(sc, d, items, groups, n - 1);
        let m = groups[n - 1];
        assert(pulls_level_at(sc, before, items, m));
        if before.aligned(sc, items, m) != before {
            law_pulled_cluster_keeps_nets_apart(sc, before, items, m);
        }
    }
}

proof fn lemma_items_on_runs(items: Seq<AlignItem>, n: int)
    requires
        items.len() <= usize::MAX,
    ensures
        forall|i: int|
            0 <= i < items_of(items, false, n).len() ==> !(items[(
            #[trigger] items_of(items, false, n)[i]) as int].kind is Stub),
    decreases n,
{
    if 0 < n <= items.len() {
        lemma_items_on_runs(items, n - 1);
    }
}

proof fn lemma_class_on_runs(items: Seq<AlignItem>, list: Seq<usize>, roots: Seq<usize>, r: int, n: int)
    requires
        forall|i: int| 0 <= i < list.len() ==> !(items[(#[trigger] list[i]) as int].kind is Stub),
    ensures
        forall|i: int|
            0 <= i < class_of(list, roots, r, n).len() ==> !(items[(#[trigger] class_of(
                list,
                roots,
                r,
                n,
            )[i]) as int].kind is Stub),
    decreases n,
{
    if 0 < n <= list.len() {
        lemma_class_on_runs(items, list, roots, r, n - 1);
    }
}

proof fn lemma_classes_aligned_apart(
    sc: Scene<'_>,
    d: Drawing,
    items: Seq<AlignItem>,
    list: Seq<usize>,
    roots: Seq<usize>,
    n: int,
)
    requires
        nets_apart(d.reg),
        forall|i: int| 0 <= i < list.len() ==> !(items[(#[trigger] list[i]) as int].kind is Stub),
    ensures
        nets_apart(classes_aligned(sc, d, items, list, roots, n).reg),
    decreases n,
{
    if 0 < n <= list.len() {
        lemma_classes_aligned_apart(sc, d, items, list, roots, n - 1);
        let before = classes_aligned(sc, d, items, list, roots, n - 1);
        let m = class_of(list, roots, n - 1, list.len() as int);
        lemma_class_on_runs(items, list, roots, n - 1, list.len() as int);
        assert(level_members(before, items, m, target_of(items, m), true));
        law_pulled_cluster_keeps_nets_apart(sc, before, items, m);
    }
}

/// Where every cluster of stubs is level, pulling sibling labels onto common columns keeps the nets
/// apart.
pub proof fn law_alignment_keeps_nets_apart(sc: Scene<'_>, d: Drawing)
    requires
        nets_apart(d.reg),
        align_items(sc, d).len() <= usize::MAX,
        pulls_level(sc, d),
    ensures
        nets_apart(siblings_aligned(sc, d).reg),
{
    let items = align_items(sc, d);
    let groups = stub_groups(items);
    lemma_stubs_aligned_apart(sc, d, items, groups, groups.len() as int);
    let d1 = stubs_aligned(sc, d, items, groups, groups.len() as int);
    let list = items_of(items, false, items.len() as int);
    let roots = classes(sc, items, list, list.len() as int);
    lemma_items_on_runs(items, items.len() as int);
    lemma_classes_aligned_apart(sc, d1, items, list, roots, list.len() as int);
}

} // verus!
