//! Groups: a component and the satellites around it.

use vstd::prelude::*;
use crate::anchors::{anchors_wf, below, drawn_pins, refdes_of};
use crate::config::SchConfig;
use crate::geometry::{raw_box, spec_raw_box, BBox, PinGeom};
use crate::keepout::{all_same_but_place, move_to, moved, same_but_place};
use crate::model::{DesignModel, NetClass, Role, Side};
use crate::order::{
    includes, lemma_sorted_items, list_includes, natural_compare, natural_order, sort_by,
    sorted_by,
};
use crate::orientation::{facing_score, rail_score, score_facing, score_rail, with_placed};
use crate::pins::{geom_of, pad_dir, pad_outward};
use crate::place::{
    find_pin_net, is_rotatable, pin_net, placed_wf, rotatable, solid_box_for, solid_of,
    PlacedComp, SheetNet,
};
use crate::texts::{nets_wf, Board, BoardView};
use crate::units::{sat, snap_half, spec_snap_half, to_iu_wide, Iu, Point};
use crate::warning::Warning;

verus! {

// ---------------------------------------------------------------- what composing may change

/// Everything but position, pose and extent stays.
pub open spec fn same_part(a: PlacedComp, c: PlacedComp) -> bool {
    a == (PlacedComp { at: a.at, rotation: a.rotation, mirror: a.mirror, bbox: a.bbox, ..c })
}

pub open spec fn same_parts(a: Seq<PlacedComp>, c: Seq<PlacedComp>) -> bool {
    a.len() == c.len() && forall|i: int| 0 <= i < a.len() ==> #[trigger] same_part(a[i], c[i])
}

/// Placements of the same parts are sound alike.
pub proof fn lemma_same_parts(b: BoardView, placed: Seq<PlacedComp>)
    requires
        b.wf(),
        same_parts(placed, b.placed),
    ensures
        with_placed(b, placed).wf(),
        anchors_wf(b.placed) ==> anchors_wf(placed),
{
    assert forall|i: int| 0 <= i < placed.len() implies (#[trigger] placed[i]).comp
        < b.design.comps@.len() by {
        assert(same_part(placed[i], b.placed[i]));
        assert(b.placed[i].comp < b.design.comps@.len());
    }
    if anchors_wf(b.placed) {
        assert forall|i: int| 0 <= i < placed.len() implies ((
        #[trigger] placed[i]).anchor matches Some(a) ==> a < placed.len()) by {
            assert(same_part(placed[i], b.placed[i]));
            assert(b.placed[i].anchor == placed[i].anchor);
        }
    }
}

pub proof fn lemma_same_parts_trans(a: Seq<PlacedComp>, c: Seq<PlacedComp>, d: Seq<PlacedComp>)
    requires
        same_parts(a, c),
        same_parts(c, d),
    ensures
        same_parts(a, d),
{
    assert forall|i: int| 0 <= i < a.len() implies #[trigger] same_part(a[i], d[i]) by {
        assert(same_part(a[i], c[i]));
        assert(same_part(c[i], d[i]));
    }
}

pub proof fn lemma_same_parts_update(a: Seq<PlacedComp>, c: Seq<PlacedComp>, k: int, q: PlacedComp)
    requires
        same_parts(a, c),
        0 <= k < a.len(),
        same_part(q, a[k]),
    ensures
        same_parts(a.update(k, q), c),
{
    let r = a.update(k, q);
    assert forall|i: int| 0 <= i < r.len() implies #[trigger] same_part(r[i], c[i]) by {
        assert(same_part(a[i], c[i]));
    }
}

pub proof fn lemma_place_is_part(a: Seq<PlacedComp>, c: Seq<PlacedComp>)
    requires
        all_same_but_place(a, c),
    ensures
        same_parts(a, c),
{
    assert forall|i: int| 0 <= i < a.len() implies #[trigger] same_part(a[i], c[i]) by {
        assert(same_but_place(a[i], c[i]));
    }
}

// ---------------------------------------------------------------- two-pin parts

/// What the first `n` pins are worth at a rotation: rails point their way, and pairs face.
pub open spec fn turn_score(b: BoardView, pi: int, rotation: i32, n: int) -> int
    decreases n,
{
    let p = b.placed[pi];
    let pins = geom_of(b.design, p).pins@;
    if n <= 0 || n > pins.len() {
        0
    } else {
        let before = turn_score(b, pi, rotation, n - 1);
        let pin = pins[n - 1];
        let t = PlacedComp { rotation, mirror: None, ..p };
        match (pad_outward(b.design, t, pin.number@), pin_net(b.nets, pi, pin.number@)) {
            (Some(dir), Some(sn)) => if pin.hidden {
                before
            } else if b.nets[sn].class == NetClass::Signal {
                before + facing_score(b, pi, pin.number@, b.nets[sn], dir)
            } else {
                before + rail_score(b.nets[sn].class, dir)
            },
            _ => before,
        }
    }
}

pub open spec fn full_turn_score(b: BoardView, pi: int, rotation: i32) -> int {
    turn_score(b, pi, rotation, geom_of(b.design, b.placed[pi]).pins@.len() as int)
}

/// The best of the first `n` quarter turns with its score, the first of equals.
pub open spec fn best_turn(b: BoardView, pi: int, n: int) -> (int, int)
    decreases n,
{
    if n <= 1 {
        (0, full_turn_score(b, pi, 0))
    } else {
        let before = best_turn(b, pi, n - 1);
        let score = full_turn_score(b, pi, ((n - 1) * 90) as i32);
        if score > before.1 {
            ((n - 1) * 90, score)
        } else {
            before
        }
    }
}

/// A two-pin part turned so that its rails point their way and its pairs face.
#[verifier::opaque]
pub open spec fn turned(b: BoardView, pi: int) -> PlacedComp {
    let p = b.placed[pi];
    let pins = geom_of(b.design, p).pins@;
    if p.pinned || !rotatable(p.role) || drawn_pins(pins, pins.len() as int).len() != 2 {
        p
    } else {
        let q = PlacedComp { rotation: best_turn(b, pi, 4).0 as i32, ..p };
        PlacedComp { bbox: solid_of(b.cfg, b.design, q), ..q }
    }
}

fn score_turn(b: &Board, pi: usize, rotation: i32) -> (r: i128)
    requires
        b.wf(),
        pi < b.placed@.len(),
    ensures
        r == full_turn_score(b@, pi as int, rotation),
{
    let p: PlacedComp = b.placed[pi];
    let t: PlacedComp = PlacedComp { rotation, mirror: None, ..p };
    let pins: &[PinGeom] = &b.design.comps[p.comp].geom.pins;
    let mut score: i128 = 0;
    let mut n: usize = 0;
    while n < pins.len()
        invariant
            n <= pins.len(),
            b.wf(),
            pi < b.placed@.len(),
            p == b.placed@[pi as int],
            t == (PlacedComp { rotation, mirror: None, ..p }),
            pins@ == geom_of(*b.design, p).pins@,
            score == turn_score(b@, pi as int, rotation, n as int),
            -3 * n <= score <= 3 * n,
        decreases pins.len() - n,
    {
        let number: &String = &pins[n].number.show();
        match (pad_dir(b.design, &t, number), find_pin_net(b.nets, pi, number)) {
            (Some(dir), Some(sn)) => {
                if !pins[n].hidden {
                    let net: &SheetNet = &b.nets[sn];
                    proof {
                        assert forall|e: int| 0 <= e < net.endpoints@.len() implies (
                        #[trigger] net.endpoints@[e]).placed < b.placed@.len() by {
                            assert(b.nets@[sn as int].endpoints@[e].placed < b.placed@.len());
                        }
                    }
                    if net.class == NetClass::Signal {
                        score = score + score_facing(b, pi, number, net, dir);
                    } else {
                        score = score + score_rail(net.class, dir);
                    }
                }
            },
            _ => {},
        }
        n = n + 1;
    }
    score
}

/// Turn a two-pin part so that its rails point their way and its pairs face.
pub fn orient_two_pin(b: &Board, pi: usize) -> (r: PlacedComp)
    requires
        b.wf(),
        pi < b.placed@.len(),
    ensures
        r == turned(b@, pi as int),
        same_part(r, b.placed@[pi as int]),
{
    proof {
        reveal(turned);
    }
    let p: PlacedComp = b.placed[pi];
    if p.pinned || !is_rotatable(p.role) {
        return p;
    }
    let pins: &[PinGeom] = &b.design.comps[p.comp].geom.pins;
    let mut drawn: usize = 0;
    let mut n: usize = 0;
    while n < pins.len()
        invariant
            n <= pins.len(),
            drawn == drawn_pins(pins@, n as int).len(),
            drawn <= n,
        decreases pins.len() - n,
    {
        if !pins[n].hidden {
            drawn = drawn + 1;
        }
        n = n + 1;
    }
    if drawn != 2 {
        return p;
    }
    let s0: i128 = score_turn(b, pi, 0);
    let s1: i128 = score_turn(b, pi, 90);
    let s2: i128 = score_turn(b, pi, 180);
    let s3: i128 = score_turn(b, pi, 270);
    let mut best: i32 = 0;
    let mut top: i128 = s0;
    proof {
        reveal_with_fuel(best_turn, 5);
    }
    if s1 > top {
        best = 90;
        top = s1;
    }
    if s2 > top {
        best = 180;
        top = s2;
    }
    if s3 > top {
        best = 270;
    }
    let q: PlacedComp = PlacedComp { rotation: best, ..p };
    PlacedComp { bbox: solid_box_for(b.cfg, b.design, &q), ..q }
}

// ---------------------------------------------------------------- satellites

pub open spec fn anchor_or_last(p: PlacedComp) -> usize {
    match p.anchor {
        Some(a) => a,
        None => usize::MAX,
    }
}

/// Satellite `a` is placed after `c`: by anchor, then by name.
pub open spec fn placed_after(b: BoardView) -> spec_fn(usize, usize) -> bool {
    |a: usize, c: usize|
        {
            let x = anchor_or_last(b.placed[a as int]);
            let y = anchor_or_last(b.placed[c as int]);
            x > y || (x == y && natural_order(refdes_of(b, a as int), refdes_of(b, c as int)) > 0)
        }
}

/// Rows of decoupling, bulk and pull parts are kept apart.
pub open spec fn row_kind(role: Role) -> int {
    if role == Role::Decoupling {
        0
    } else if role == Role::Bulk {
        1
    } else if role == Role::Pull {
        2
    } else {
        3
    }
}

/// Two satellites stand in one row.
pub open spec fn same_row(p: PlacedComp, q: PlacedComp) -> bool {
    p.anchor == q.anchor && p.side == q.side && row_kind(p.role) == row_kind(q.role)
}

/// How many of the first `n` of the list stand in the row of `p`.
pub open spec fn row_count(placed: Seq<PlacedComp>, list: Seq<usize>, p: PlacedComp, n: int) -> nat
    decreases n,
{
    if n <= 0 || n > list.len() {
        0
    } else {
        row_count(placed, list, p, n - 1) + if same_row(placed[list[n - 1] as int], p) {
            1nat
        } else {
            0
        }
    }
}

/// Twice the distance of place `idx` of a row of `n` from the middle of the row.
pub open spec fn spread(idx: int, n: int, pitch: int) -> Iu {
    sat((2 * idx - n + 1) * pitch)
}

/// Where place `idx` of `n` in its row puts the satellite at its anchor.
pub open spec fn row_spot(b: BoardView, pi: int, anchor: int, idx: int, n: int) -> Point {
    let p = b.placed[pi];
    let a = b.placed[anchor];
    let g = b.cfg.grid_mm as int;
    let off = spread(idx, n, b.cfg.satellite_pitch_mm as int);
    let gap = if p.role == Role::Decoupling || p.role == Role::Pull {
        b.cfg.role_row_gap_mm
    } else {
        b.cfg.satellite_gap_mm
    };
    let local = spec_raw_box(
        geom_of(b.design, p),
        Point { x: 0, y: 0 },
        p.rotation as int,
        p.mirror,
    );
    let mid_x = spec_snap_half(2 * a.at.x + off - (local.x1 + local.x2), g);
    let mid_y = spec_snap_half(2 * a.at.y + off - (local.y1 + local.y2), g);
    match p.side {
        Side::Below => Point { x: mid_x, y: b.cfg.spec_snap(a.bbox.y2 + gap - local.y1) },
        Side::Above => Point { x: mid_x, y: b.cfg.spec_snap(a.bbox.y1 - gap - local.y2) },
        Side::Left => Point { x: b.cfg.spec_snap(a.bbox.x1 - gap - local.x2), y: mid_y },
        Side::Right => Point { x: b.cfg.spec_snap(a.bbox.x2 + gap - local.x1), y: mid_y },
    }
}

/// The state of placing satellites: the placement, who waits, and who stands at an anchor.
pub struct Rows {
    pub placed: Seq<PlacedComp>,
    pub waiting: Seq<usize>,
    pub done: Seq<usize>,
}

/// The satellite must wait for its anchor.
pub open spec fn must_wait(s: Rows, rest: Seq<usize>, anchor: usize, by_hand: bool) -> bool {
    includes(rest, anchor as int) || (by_hand && !includes(s.done, anchor as int)
        && !s.placed[anchor as int].pinned)
}

/// The first that waits is placed, or waits on.
pub open spec fn row_step(b: BoardView, all: Seq<usize>, by_hand: bool, s: Rows) -> Rows {
    let pi = s.waiting[0];
    let rest = s.waiting.remove(0);
    let now = with_placed(b, s.placed);
    let p = s.placed[pi as int];
    match p.anchor {
        None => Rows {
            placed: s.placed.update(pi as int, moved(now, pi as int, Point { x: 0, y: 0 })),
            waiting: rest,
            done: s.done,
        },
        Some(a) => if must_wait(s, rest, a, by_hand) {
            Rows { placed: s.placed, waiting: rest.push(pi), done: s.done }
        } else {
            let idx = row_count(b.placed, s.done, p, s.done.len() as int);
            let n = row_count(b.placed, all, p, all.len() as int);
            let at = row_spot(now, pi as int, a as int, idx as int, n as int);
            Rows {
                placed: s.placed.update(pi as int, moved(now, pi as int, at)),
                waiting: rest,
                done: s.done.push(pi),
            }
        },
    }
}

/// Turn after turn, until as many in a row wait on as there are: `idle` of them did so last.
pub open spec fn rows_after(b: BoardView, all: Seq<usize>, by_hand: bool, s: Rows, idle: nat) -> Rows
    decreases s.waiting.len(), s.waiting.len() - idle,
{
    if idle >= s.waiting.len() {
        s
    } else {
        let next = row_step(b, all, by_hand, s);
        if next.waiting.len() < s.waiting.len() {
            rows_after(b, all, by_hand, next, 0)
        } else {
            rows_after(b, all, by_hand, next, idle + 1)
        }
    }
}

/// The first `n` of the list put at the origin.
pub open spec fn at_origin(b: BoardView, list: Seq<usize>, n: int) -> Seq<PlacedComp>
    decreases n,
{
    if n <= 0 || n > list.len() {
        b.placed
    } else {
        let before = at_origin(b, list, n - 1);
        let pi = list[n - 1] as int;
        before.update(pi, moved(with_placed(b, before), pi, Point { x: 0, y: 0 }))
    }
}

pub open spec fn stranded(b: BoardView, list: Seq<usize>, n: int) -> Seq<Warning>
    decreases n,
{
    if n <= 0 || n > list.len() {
        Seq::empty()
    } else {
        stranded(b, list, n - 1).push(
            Warning::Stranded {
                refdes: b.design.comps@[b.placed[list[n - 1] as int].comp as int].refdes,
                first: n == 1,
            },
        )
    }
}

pub open spec fn rows_end(b: BoardView, list: Seq<usize>, by_hand: bool) -> Rows {
    let all = sorted_by(list, placed_after(b));
    rows_after(
        b,
        all,
        by_hand,
        Rows { placed: b.placed, waiting: all, done: Seq::empty() },
        0,
    )
}

/// The satellite is bound to wait: its anchor waits too, or was never placed by hand.
pub open spec fn bound_to_wait(s: Rows, pi: usize, by_hand: bool) -> bool {
    match s.placed[pi as int].anchor {
        Some(a) => must_wait(s, s.waiting, a, by_hand),
        None => false,
    }
}

proof fn lemma_rows_wait(b: BoardView, all: Seq<usize>, by_hand: bool, s: Rows, idle: nat)
    requires
        forall|i: int|
            s.waiting.len() - idle <= i < s.waiting.len() && 0 <= i ==> bound_to_wait(
                s,
                #[trigger] s.waiting[i],
                by_hand,
            ),
    ensures
        ({
            let end = rows_after(b, all, by_hand, s, idle);
            forall|i: int|
                0 <= i < end.waiting.len() ==> bound_to_wait(
                    end,
                    #[trigger] end.waiting[i],
                    by_hand,
                )
        }),
    decreases s.waiting.len(), s.waiting.len() - idle,
{
    if idle < s.waiting.len() {
        let next = row_step(b, all, by_hand, s);
        if next.waiting.len() < s.waiting.len() {
            assert(rows_after(b, all, by_hand, s, idle) == rows_after(b, all, by_hand, next, 0));
            lemma_rows_wait(b, all, by_hand, next, 0);
        } else {
            let n = s.waiting.len() as int;
            let rest = s.waiting.remove(0);
            assert forall|x: int| includes(s.waiting, x) implies #[trigger] includes(next.waiting, x) by {
                let k = choose|k: int| 0 <= k < n && #[trigger] s.waiting[k] == x;
                if k == 0 {
                    assert(next.waiting[n - 1] == x);
                } else {
                    assert(next.waiting[k - 1] == x);
                }
            }
            assert forall|x: int| includes(rest, x) implies #[trigger] includes(s.waiting, x) by {
                let k = choose|k: int| 0 <= k < rest.len() && #[trigger] rest[k] == x;
                assert(s.waiting[k + 1] == x);
            }
            assert forall|i: int|
                n - (idle + 1) <= i < n && 0 <= i implies bound_to_wait(
                next,
                #[trigger] next.waiting[i],
                by_hand,
            ) by {
                if i < n - 1 {
                    assert(next.waiting[i] == s.waiting[i + 1]);
                    assert(bound_to_wait(s, s.waiting[i + 1], by_hand));
                } else {
                    assert(next.waiting[i] == s.waiting[0]);
                }
            }
            assert(rows_after(b, all, by_hand, s, idle) == rows_after(
                b,
                all,
                by_hand,
                next,
                idle + 1,
            ));
            lemma_rows_wait(b, all, by_hand, next, idle + 1);
        }
    }
}

/// A satellite is stranded only where its anchor is stranded too, or was never placed by hand.
pub proof fn law_stranded_wait_for_their_anchors(b: BoardView, list: Seq<usize>, by_hand: bool)
    ensures
        forall|i: int|
            0 <= i < rows_end(b, list, by_hand).waiting.len() ==> bound_to_wait(
                rows_end(b, list, by_hand),
                #[trigger] rows_end(b, list, by_hand).waiting[i],
                by_hand,
            ),
{
    let all = sorted_by(list, placed_after(b));
    let s = Rows { placed: b.placed, waiting: all, done: Seq::empty() };
    lemma_rows_wait(b, all, by_hand, s, 0);
}

/// Placing satellites changes no anchor.
pub open spec fn anchors_kept(s: Rows, placed: Seq<PlacedComp>) -> bool {
    &&& s.placed.len() == placed.len()
    &&& below(s.waiting, placed.len() as int)
    &&& forall|i: int|
        0 <= i < placed.len() ==> (#[trigger] s.placed[i]).anchor == placed[i].anchor
}

proof fn lemma_anchors_kept(b: BoardView, all: Seq<usize>, by_hand: bool, s: Rows, idle: nat)
    requires
        anchors_kept(s, b.placed),
    ensures
        anchors_kept(rows_after(b, all, by_hand, s, idle), b.placed),
    decreases s.waiting.len(), s.waiting.len() - idle,
{
    if idle < s.waiting.len() {
        let next = row_step(b, all, by_hand, s);
        let rest = s.waiting.remove(0);
        assert(s.waiting[0] < b.placed.len());
        assert forall|i: int| 0 <= i < rest.len() implies #[trigger] rest[i] < b.placed.len() by {
            assert(rest[i] == s.waiting[i + 1]);
        }
        assert(anchors_kept(next, b.placed));
        if next.waiting.len() < s.waiting.len() {
            lemma_anchors_kept(b, all, by_hand, next, 0);
        } else {
            lemma_anchors_kept(b, all, by_hand, next, idle + 1);
        }
    }
}

/// Those who wait for one another rank above every `n`.
proof fn lemma_waiting_ranks(s: Rows, rank: spec_fn(usize) -> nat, n: nat)
    requires
        forall|k: int| 0 <= k < s.waiting.len() ==> bound_to_wait(s, #[trigger] s.waiting[k], false),
        forall|k: int|
            0 <= k < s.waiting.len() ==> match s.placed[(#[trigger] s.waiting[k]) as int].anchor {
                Some(a) => rank(a) < rank(s.waiting[k]),
                None => true,
            },
    ensures
        forall|k: int| 0 <= k < s.waiting.len() ==> rank(#[trigger] s.waiting[k]) >= n,
    decreases n,
{
    if n > 0 {
        lemma_waiting_ranks(s, rank, (n - 1) as nat);
        assert forall|k: int| 0 <= k < s.waiting.len() implies rank(#[trigger] s.waiting[k]) >= n by {
            assert(bound_to_wait(s, s.waiting[k], false));
            let a = s.placed[s.waiting[k] as int].anchor->0;
            let i = choose|i: int| 0 <= i < s.waiting.len() && #[trigger] s.waiting[i] == a;
            assert(rank(s.waiting[i]) >= n - 1);
        }
    }
}

/// Where every chain of anchors ends, no satellite is stranded: `rank` falls along each chain.
pub proof fn law_chains_that_end_strand_nobody(
    b: BoardView,
    list: Seq<usize>,
    rank: spec_fn(usize) -> nat,
)
    requires
        below(list, b.placed.len() as int),
        forall|pi: usize|
            pi < b.placed.len() ==> match (#[trigger] b.placed[pi as int]).anchor {
                Some(a) => rank(a) < rank(pi),
                None => true,
            },
    ensures
        rows_end(b, list, false).waiting.len() == 0,
        satellites_lost(b, list, false).len() == 0,
{
    reveal(satellites_lost);
    let all = sorted_by(list, placed_after(b));
    let s = Rows { placed: b.placed, waiting: all, done: Seq::empty() };
    let n = b.placed.len();
    lemma_sorted_items(list, placed_after(b), |i: usize| i < n);
    assert forall|i: int| 0 <= i < all.len() implies #[trigger] all[i] < n by {
        assert((|i: usize| i < n)(all[i]));
    }
    lemma_anchors_kept(b, all, false, s, 0);
    law_stranded_wait_for_their_anchors(b, list, false);
    let end = rows_end(b, list, false);
    if end.waiting.len() > 0 {
        assert forall|k: int| 0 <= k < end.waiting.len() implies match end.placed[(
        #[trigger] end.waiting[k]) as int].anchor {
            Some(a) => rank(a) < rank(end.waiting[k]),
            None => true,
        } by {
            let pi = end.waiting[k];
            assert(end.placed[pi as int].anchor == b.placed[pi as int].anchor);
        }
        let n = rank(end.waiting[0]) + 1;
        lemma_waiting_ranks(end, rank, n);
        assert(rank(end.waiting[0]) >= n);
    }
}

/// The satellites of the list placed in rows around their anchors.
#[verifier::opaque]
pub open spec fn satellites_placed(b: BoardView, list: Seq<usize>, by_hand: bool) -> Seq<PlacedComp> {
    let end = rows_end(b, list, by_hand);
    at_origin(with_placed(b, end.placed), end.waiting, end.waiting.len() as int)
}

/// The remarks on satellites whose anchor was never placed.
#[verifier::opaque]
pub open spec fn satellites_lost(b: BoardView, list: Seq<usize>, by_hand: bool) -> Seq<Warning> {
    let end = rows_end(b, list, by_hand);
    stranded(b, end.waiting, end.waiting.len() as int)
}

fn kind_of_row(role: Role) -> (r: u8)
    ensures
        r == row_kind(role),
{
    match role {
        Role::Decoupling => 0,
        Role::Bulk => 1,
        Role::Pull => 2,
        _ => 3,
    }
}

fn in_same_row(p: &PlacedComp, q: &PlacedComp) -> (r: bool)
    ensures
        r == same_row(*p, *q),
{
    let anchors: bool = match (p.anchor, q.anchor) {
        (Some(a), Some(c)) => a == c,
        (None, None) => true,
        _ => false,
    };
    anchors && p.side == q.side && kind_of_row(p.role) == kind_of_row(q.role)
}

fn count_row(placed: &[PlacedComp], list: &Vec<usize>, p: &PlacedComp, Ghost(start): Ghost<Seq<PlacedComp>>) -> (r:
    usize)
    requires
        below(list@, placed@.len() as int),
        same_parts(placed@, start),
    ensures
        r == row_count(start, list@, *p, list@.len() as int),
{
    let mut count: usize = 0;
    let mut n: usize = 0;
    while n < list.len()
        invariant
            n <= list.len(),
            below(list@, placed@.len() as int),
            same_parts(placed@, start),
            count == row_count(start, list@, *p, n as int),
            count <= n,
        decreases list.len() - n,
    {
        proof {
            assert(same_part(placed@[list@[n as int] as int], start[list@[n as int] as int]));
        }
        if in_same_row(&placed[list[n]], p) {
            count = count + 1;
        }
        n = n + 1;
    }
    count
}

pub(crate) fn spread_of(idx: usize, n: usize, pitch: Iu) -> (r: Iu)
    ensures
        r == spread(idx as int, n as int, pitch as int),
{
    let steps: i128 = 2 * idx as i128 - n as i128 + 1;
    proof {
        assert(-0x1_0000_0000_0000_0000_0000_0000_0000 <= steps * pitch
            <= 0x1_0000_0000_0000_0000_0000_0000_0000) by (nonlinear_arith)
            requires
                -0x1_0000_0000_0000_0000 <= steps <= 0x2_0000_0000_0000_0000,
                -0x8000_0000 <= pitch <= 0x7fff_ffff,
        ;
    }
    to_iu_wide(steps * pitch as i128)
}

fn find_row_spot(b: &Board, pi: usize, anchor: usize, idx: usize, n: usize) -> (r: Point)
    requires
        b.wf(),
        pi < b.placed@.len(),
        anchor < b.placed@.len(),
    ensures
        r == row_spot(b@, pi as int, anchor as int, idx as int, n as int),
{
    let p: &PlacedComp = &b.placed[pi];
    let a: &PlacedComp = &b.placed[anchor];
    let off: i64 = spread_of(idx, n, b.cfg.satellite_pitch_mm) as i64;
    let gap: i64 = match p.role {
        Role::Decoupling | Role::Pull => b.cfg.role_row_gap_mm as i64,
        _ => b.cfg.satellite_gap_mm as i64,
    };
    let local: BBox = raw_box(
        &b.design.comps[p.comp].geom,
        Point { x: 0, y: 0 },
        p.rotation,
        p.mirror,
    );
    let mid_x: i64 = 2 * a.at.x as i64 + off - (local.x1 as i64 + local.x2 as i64);
    let mid_y: i64 = 2 * a.at.y as i64 + off - (local.y1 as i64 + local.y2 as i64);
    let g: Iu = b.cfg.grid_mm;
    match p.side {
        Side::Below => Point {
            x: snap_half(mid_x, g),
            y: b.cfg.snap(a.bbox.y2 as i64 + gap - local.y1 as i64),
        },
        Side::Above => Point {
            x: snap_half(mid_x, g),
            y: b.cfg.snap(a.bbox.y1 as i64 - gap - local.y2 as i64),
        },
        Side::Left => Point {
            x: b.cfg.snap(a.bbox.x1 as i64 - gap - local.x2 as i64),
            y: snap_half(mid_y, g),
        },
        Side::Right => Point {
            x: b.cfg.snap(a.bbox.x2 as i64 + gap - local.x1 as i64),
            y: snap_half(mid_y, g),
        },
    }
}

fn sort_satellites(b: &Board, list: &Vec<usize>) -> (r: Vec<usize>)
    requires
        b.wf(),
        below(list@, b.placed@.len() as int),
    ensures
        r@ == sorted_by(list@, placed_after(b@)),
        below(r@, b.placed@.len() as int),
{
    let placed: &[PlacedComp] = b.placed;
    let design: &DesignModel = b.design;
    let ghost bv = b@;
    let after = |a: usize, c: usize| -> (r: bool)
        requires
            a < placed@.len(),
            c < placed@.len(),
            placed@[a as int].comp < design.comps@.len(),
            placed@[c as int].comp < design.comps@.len(),
        ensures
            r == ({
                let x = anchor_or_last(placed@[a as int]);
                let y = anchor_or_last(placed@[c as int]);
                x > y || (x == y && natural_order(
                    design.comps@[placed@[a as int].comp as int].refdes@,
                    design.comps@[placed@[c as int].comp as int].refdes@,
                ) > 0)
            }),
        {
            let x: usize = match placed[a].anchor {
                Some(k) => k,
                None => usize::MAX,
            };
            let y: usize = match placed[c].anchor {
                Some(k) => k,
                None => usize::MAX,
            };
            x > y || (x == y && natural_compare(
                design.comps[placed[a].comp].refdes.as_str(),
                design.comps[placed[c].comp].refdes.as_str(),
            ) > 0)
        };
    let r: Vec<usize> = sort_by(list, after, Ghost(placed_after(bv)));
    proof {
        lemma_sorted_items(list@, placed_after(bv), |i: usize| i < placed@.len());
        assert forall|i: int| 0 <= i < r@.len() implies #[trigger] r@[i] < placed@.len() by {
            assert((|i: usize| i < placed@.len())(r@[i]));
        }
    }
    r
}

fn step_rows(
    cfg: &SchConfig,
    design: &DesignModel,
    placed: &mut Vec<PlacedComp>,
    nets: &[SheetNet],
    all: &Vec<usize>,
    waiting: &mut Vec<usize>,
    done: &mut Vec<usize>,
    by_hand: bool,
    Ghost(b): Ghost<BoardView>,
)
    requires
        b.cfg == *cfg,
        b.design == *design,
        b.nets == nets@,
        b.wf(),
        anchors_wf(b.placed),
        same_parts(old(placed)@, b.placed),
        below(all@, b.placed.len() as int),
        below(old(waiting)@, b.placed.len() as int),
        below(old(done)@, b.placed.len() as int),
        old(waiting)@.len() > 0,
    ensures
        ({
            let s = row_step(
                b,
                all@,
                by_hand,
                (Rows { placed: old(placed)@, waiting: old(waiting)@, done: old(done)@ }),
            );
            final(placed)@ == s.placed && final(waiting)@ == s.waiting && final(done)@ == s.done
        }),
        same_parts(final(placed)@, b.placed),
        below(final(waiting)@, b.placed.len() as int),
        below(final(done)@, b.placed.len() as int),
{
    let ghost now = with_placed(b, placed@);
    let ghost w = waiting@;
    let ghost p0 = placed@;
    let ghost d0 = done@;
    let pi: usize = waiting.remove(0);
    proof {
        assert(waiting@ =~= w.remove(0));
        assert(pi == w[0]);
        assert forall|i: int| 0 <= i < waiting@.len() implies #[trigger] waiting@[i]
            < b.placed.len() by {
            assert(waiting@[i] == w[i + 1]);
        }
        lemma_same_parts(b, p0);
    }
    let p: PlacedComp = placed[pi];
    match p.anchor {
        None => {
            let q: PlacedComp = move_to(cfg, design, &p, Point { x: 0, y: 0 });
            proof {
                lemma_same_parts_update(p0, b.placed, pi as int, q);
            }
            placed.set(pi, q);
        },
        Some(a) => {
            proof {
                assert(p0[pi as int].anchor == Some(a));
            }
            if list_includes(waiting, a) || (by_hand && !list_includes(done, a)
                && !placed[a].pinned) {
                waiting.push(pi);
            } else {
                let idx: usize = count_row(placed, done, &p, Ghost(b.placed));
                let n: usize = count_row(placed, all, &p, Ghost(b.placed));
                let board: Board = Board { cfg, design, placed: &*placed, nets };
                proof {
                    assert(board@ == now);
                }
                let at: Point = find_row_spot(&board, pi, a, idx, n);
                let q: PlacedComp = move_to(cfg, design, &p, at);
                proof {
                    assert(q == moved(now, pi as int, at));
                    lemma_same_parts_update(p0, b.placed, pi as int, q);
                }
                placed.set(pi, q);
                done.push(pi);
            }
        },
    }
}

/// Place the satellites of the list in rows around their anchors.
#[verifier::rlimit(60)]
pub fn place_satellites(
    cfg: &SchConfig,
    design: &DesignModel,
    placed: &mut Vec<PlacedComp>,
    nets: &[SheetNet],
    list: &Vec<usize>,
    by_hand: bool,
    warnings: &mut Vec<Warning>,
)
    requires
        cfg.wf(),
        placed_wf(*design, old(placed)@),
        nets_wf(nets@, old(placed)@.len() as int),
        anchors_wf(old(placed)@),
        below(list@, old(placed)@.len() as int),
    ensures
        ({
            let b = BoardView { cfg: *cfg, design: *design, placed: old(placed)@, nets: nets@ };
            &&& final(placed)@ == satellites_placed(b, list@, by_hand)
            &&& final(warnings)@ == old(warnings)@ + satellites_lost(b, list@, by_hand)
        }),
        same_parts(final(placed)@, old(placed)@),
{
    proof {
        reveal(satellites_placed);
        reveal(satellites_lost);
    }
    let ghost b = BoardView { cfg: *cfg, design: *design, placed: placed@, nets: nets@ };
    let board: Board = Board { cfg, design, placed: &*placed, nets };
    proof {
        assert(board@ == b);
    }
    let all: Vec<usize> = sort_satellites(&board, list);
    let mut waiting: Vec<usize> = all.clone();
    let mut done: Vec<usize> = Vec::new();
    let mut idle: usize = 0;
    let ghost end = rows_end(b, list@, by_hand);
    proof {
        assert(waiting@ =~= all@);
        assert forall|i: int| 0 <= i < placed@.len() implies #[trigger] same_part(
            placed@[i],
            b.placed[i],
        ) by {}
    }
    while idle < waiting.len()
        invariant
            b.cfg == *cfg,
            b.design == *design,
            b.nets == nets@,
            b.wf(),
            anchors_wf(b.placed),
            same_parts(placed@, b.placed),
            below(all@, b.placed.len() as int),
            below(waiting@, b.placed.len() as int),
            below(done@, b.placed.len() as int),
            end == rows_after(
                b,
                all@,
                by_hand,
                (Rows { placed: placed@, waiting: waiting@, done: done@ }),
                idle as nat,
            ),
        decreases waiting.len(), waiting.len() - idle,
    {
        let before: usize = waiting.len();
        step_rows(
            cfg,
            design,
            placed,
            nets,
            &all,
            &mut waiting,
            &mut done,
            by_hand,
            Ghost(b),
        );
        idle = if waiting.len() < before {
            0
        } else {
            idle + 1
        };
    }
    proof {
        assert(end == (Rows { placed: placed@, waiting: waiting@, done: done@ }));
        assert(warnings@ =~= warnings@ + stranded(b, waiting@, 0));
    }
    let ghost w0 = warnings@;
    let ghost mid = with_placed(b, placed@);
    let mut n: usize = 0;
    while n < waiting.len()
        invariant
            n <= waiting.len(),
            b.cfg == *cfg,
            b.design == *design,
            b.wf(),
            same_parts(placed@, b.placed),
            below(waiting@, b.placed.len() as int),
            mid.cfg == *cfg,
            mid.design == *design,
            placed@ == at_origin(mid, waiting@, n as int),
            warnings@ == w0 + stranded(b, waiting@, n as int),
        decreases waiting.len() - n,
    {
        let pi: usize = waiting[n];
        proof {
            lemma_same_parts(b, placed@);
            assert(same_part(placed@[pi as int], b.placed[pi as int]));
            assert(b.placed[pi as int].comp < b.design.comps@.len());
        }
        let p: PlacedComp = placed[pi];
        warnings.push(
            Warning::Stranded { refdes: design.comps[p.comp].refdes.clone(), first: n == 0 },
        );
        let q: PlacedComp = move_to(cfg, design, &p, Point { x: 0, y: 0 });
        proof {
            lemma_same_parts_update(placed@, b.placed, pi as int, q);
        }
        placed.set(pi, q);
        n = n + 1;
        proof {
            assert(warnings@ =~= w0 + stranded(b, waiting@, n as int));
        }
    }
}

} // verus!
