//! Wire trees: the endpoints of a net joined by real wires, one after the other.

use vstd::prelude::*;
use crate::canvas::{copy_path, wire_fits, Canvas, Drawing, Endpoint, Scene};
use crate::order::{
    indices, is_preorder, law_sort_orders, lemma_sorted_items, sort_by, sorted_by, upto,
};
use crate::registry::{capped, crossings, is_leg, self_crossing, Corridor, CorridorZone};
use crate::units::{
    ahead, gap, greater, lesser, meet, shift, spec_ahead, spec_gap, spec_max, spec_meet, spec_min,
    spec_shift, Iu, Point, EPS,
};
use crate::wiring::{
    flip, flip_path, lemma_paths_push, mk_span, pair_paths, path_bends, path_length,
    path_length_mm, paths, seg_intersects_box, span, spec_bends, spec_cuts, spec_within,
    tree_pair_candidates, within, Seg, Span,
};

verus! {

// ---------------------------------------------------------------- feasibility and cost

/// Two parallel runs on one line that share a stretch.
pub open spec fn runs_along(s: Span, o: Span) -> bool {
    s.spec_horizontal() == o.spec_horizontal() && if s.spec_horizontal() {
        spec_gap(s.y1 as int, o.y1 as int) <= EPS && spec_min(
            spec_max(s.x1 as int, s.x2 as int),
            spec_max(o.x1 as int, o.x2 as int),
        ) - spec_max(spec_min(s.x1 as int, s.x2 as int), spec_min(o.x1 as int, o.x2 as int)) > EPS
    } else {
        spec_gap(s.x1 as int, o.x1 as int) <= EPS && spec_min(
            spec_max(s.y1 as int, s.y2 as int),
            spec_max(o.y1 as int, o.y2 as int),
        ) - spec_max(spec_min(s.y1 as int, s.y2 as int), spec_min(o.y1 as int, o.y2 as int)) > EPS
    }
}

fn is_along(s: &Span, o: &Span) -> (r: bool)
    ensures
        r == runs_along(*s, *o),
{
    if s.horizontal() != o.horizontal() {
        return false;
    }
    if s.horizontal() {
        gap(s.y1, o.y1) <= EPS && lesser(greater(s.x1, s.x2), greater(o.x1, o.x2)) as i64 - greater(
            lesser(s.x1, s.x2),
            lesser(o.x1, o.x2),
        ) as i64 > EPS
    } else {
        gap(s.x1, o.x1) <= EPS && lesser(greater(s.y1, s.y2), greater(o.y1, o.y2)) as i64 - greater(
            lesser(s.y1, s.y2),
            lesser(o.y1, o.y2),
        ) as i64 > EPS
    }
}

/// Does the path run along a wire of its own net?
pub open spec fn doubles(segs: Seq<Seg>, path: Seq<Point>, net: Seq<char>) -> bool {
    exists|i: int, k: int|
        #![trigger is_leg(path, i), segs[k]]
        is_leg(path, i) && 0 <= k < segs.len() && segs[k].net@ == net && runs_along(
            span(path[i], path[i + 1]),
            segs[k].span,
        )
}

/// Does leg `i` of the path cut the predicted power path of another net?
pub open spec fn leg_cuts_corridor(
    corridors: Seq<Corridor>,
    path: Seq<Point>,
    net: Seq<char>,
    i: int,
) -> bool {
    exists|k: int|
        0 <= k < corridors.len() && (#[trigger] corridors[k]).zone == CorridorZone::Corridor
            && corridors[k].net@ != net && spec_cuts(span(path[i], path[i + 1]), corridors[k].bbox)
}

/// Does the path cut the predicted power path of another net?
pub open spec fn cuts_corridor(corridors: Seq<Corridor>, path: Seq<Point>, net: Seq<char>) -> bool {
    exists|i: int|
        0 <= i < path.len() - 1 && #[trigger] leg_cuts_corridor(corridors, path, net, i)
}

/// May the path be added to the tree of its net? Analog nets may cut predicted power paths.
#[verifier::opaque]
pub open spec fn feasible(
    sc: Scene<'_>,
    d: Drawing,
    path: Seq<Point>,
    net: Seq<char>,
    analog: bool,
) -> bool {
    path_length(path) <= sc.cfg.wire_length_guard_mm + EPS && wire_fits(
        sc,
        d,
        path,
        net,
        Seq::empty(),
    ) && !doubles(d.reg.segs, path, net) && !self_crossing(d.reg.segs, path, net) && (analog
        || !cuts_corridor(sc.corridors@, path, net))
}

/// Cost of a wire: its length, its bends and its crossings of other nets.
#[verifier::opaque]
pub open spec fn wire_cost(sc: Scene<'_>, d: Drawing, path: Seq<Point>, net: Seq<char>) -> int {
    path_length(path) + sc.cfg.bend_penalty_mm * spec_bends(path) + sc.cfg.crossing_penalty_mm
        * capped(crossings(d.reg.segs, path, Some(net)))
}

fn scaled(weight: Iu, n: usize) -> (r: i128)
    ensures
        r == weight * n,
        -0x1_0000_0000_0000_0000_0000_0000 <= r <= 0x1_0000_0000_0000_0000_0000_0000,
{
    proof {
        assert(-0x1_0000_0000_0000_0000_0000_0000 <= weight * n
            <= 0x1_0000_0000_0000_0000_0000_0000) by (nonlinear_arith)
            requires
                0 <= n <= 0xffff_ffff_ffff_ffff,
                -0x8000_0000 <= weight <= 0x7fff_ffff,
        ;
    }
    weight as i128 * n as i128
}

impl Canvas {
    /// Does the path run along a wire of its own net?
    pub fn overlaps_same_net(&self, path: &Vec<Point>, net: &String) -> (r: bool)
        ensures
            r == doubles(self@.reg.segs, path@, net@),
    {
        if path.len() == 0 {
            return false;
        }
        let mut i: usize = 0;
        while i < path.len() - 1
            invariant
                i <= path.len() - 1,
                forall|j: int, k: int|
                    #![trigger is_leg(path@, j), self.reg.segs@[k]]
                    0 <= j < i && is_leg(path@, j) && 0 <= k < self.reg.segs@.len()
                        && self.reg.segs@[k].net@ == net@ ==> !runs_along(
                        span(path@[j], path@[j + 1]),
                        self.reg.segs@[k].span,
                    ),
            decreases path.len() - i,
        {
            if !meet(path[i], path[i + 1]) {
                let s: Span = mk_span(path[i], path[i + 1]);
                let mut k: usize = 0;
                while k < self.reg.segs.len()
                    invariant
                        k <= self.reg.segs.len(),
                        i < path.len() - 1,
                        is_leg(path@, i as int),
                        s == span(path@[i as int], path@[i + 1]),
                        forall|m: int|
                            #![trigger self.reg.segs@[m]]
                            0 <= m < k && self.reg.segs@[m].net@ == net@ ==> !runs_along(
                                s,
                                self.reg.segs@[m].span,
                            ),
                    decreases self.reg.segs.len() - k,
                {
                    if self.reg.segs[k].net == *net && is_along(&s, &self.reg.segs[k].span) {
                        return true;
                    }
                    k = k + 1;
                }
            }
            i = i + 1;
        }
        false
    }

    /// May the path be added to the tree of its net?
    pub fn tree_candidate_feasible(
        &self,
        sc: &Scene,
        path: &Vec<Point>,
        net: &String,
        analog: bool,
    ) -> (r: bool)
        requires
            sc.wf(),
        ensures
            r == feasible(*sc, self@, path@, net@, analog),
    {
        proof {
            reveal(feasible);
        }
        if path_length_mm(path) > sc.cfg.wire_length_guard_mm as i128 + EPS as i128 {
            return false;
        }
        let none: Vec<usize> = Vec::new();
        if !self.wire_ok(sc, path, net, &none) || self.overlaps_same_net(path, net)
            || self.reg.same_net_frank_crossing(path, net) {
            return false;
        }
        analog || !Canvas::cuts_power_path(sc, path, net)
    }

    fn cuts_power_path(sc: &Scene, path: &Vec<Point>, net: &String) -> (r: bool)
        ensures
            r == cuts_corridor(sc.corridors@, path@, net@),
    {
        if path.len() == 0 {
            return false;
        }
        let mut i: usize = 0;
        while i < path.len() - 1
            invariant
                i <= path.len() - 1,
                forall|j: int|
                    0 <= j < i ==> !#[trigger] leg_cuts_corridor(sc.corridors@, path@, net@, j),
            decreases path.len() - i,
        {
            let s: Span = mk_span(path[i], path[i + 1]);
            let mut k: usize = 0;
            while k < sc.corridors.len()
                invariant
                    k <= sc.corridors.len(),
                        i < path.len() - 1,
                    s == span(path@[i as int], path@[i + 1]),
                    forall|m: int|
                        0 <= m < k ==> !((#[trigger] sc.corridors@[m]).zone
                            == CorridorZone::Corridor && sc.corridors@[m].net@ != net@ && spec_cuts(
                            s,
                            sc.corridors@[m].bbox,
                        )),
                decreases sc.corridors.len() - k,
            {
                if sc.corridors[k].zone == CorridorZone::Corridor && sc.corridors[k].net != *net
                    && seg_intersects_box(&s, &sc.corridors[k].bbox) {
                    proof {
                        assert(leg_cuts_corridor(sc.corridors@, path@, net@, i as int));
                    }
                    return true;
                }
                k = k + 1;
            }
            i = i + 1;
        }
        false
    }

    /// Cost of a wire.
    pub fn cost_of(&self, sc: &Scene, path: &Vec<Point>, net: &String) -> (r: i128)
        ensures
            r == wire_cost(*sc, self@, path@, net@),
            -0x8_0000_0000_0000_0000_0000_0000 <= r <= 0x8_0000_0000_0000_0000_0000_0000,
    {
        proof {
            reveal(wire_cost);
        }
        let count: usize = path.len();
        let len: i128 = path_length_mm(path);
        proof {
            assert(count * 0x2_0000_0000 <= 0x2_0000_0000_0000_0000_0000_0000) by (nonlinear_arith)
                requires
                    count <= 0xffff_ffff_ffff_ffff,
            ;
        }
        let bends: i128 = scaled(sc.cfg.bend_penalty_mm, path_bends(path));
        let crossed: i128 = scaled(
            sc.cfg.crossing_penalty_mm,
            self.reg.foreign_crossings(path, net),
        );
        len + bends + crossed
    }
}

// ---------------------------------------------------------------- the first wire

/// May the wire be drawn? Only analog nets may cross other nets.
pub open spec fn drawable(
    sc: Scene<'_>,
    d: Drawing,
    path: Seq<Point>,
    net: Seq<char>,
    analog: bool,
) -> bool {
    feasible(sc, d, path, net, analog) && (analog || crossings(d.reg.segs, path, Some(net)) == 0)
}

/// Among the first `n` paths that may be drawn: the first one, or a later one that is cheaper
/// by more than [`EPS`].
pub open spec fn best_wire(
    sc: Scene<'_>,
    d: Drawing,
    ps: Seq<Seq<Point>>,
    net: Seq<char>,
    analog: bool,
    n: int,
) -> Option<int>
    decreases n,
{
    if n <= 0 || n > ps.len() {
        None
    } else {
        let before = best_wire(sc, d, ps, net, analog, n - 1);
        if !drawable(sc, d, ps[n - 1], net, analog) {
            before
        } else {
            match before {
                Some(b) => if wire_cost(sc, d, ps[n - 1], net) < wire_cost(sc, d, ps[b], net)
                    - EPS {
                    Some(n - 1)
                } else {
                    before
                },
                None => Some(n - 1),
            }
        }
    }
}

impl Canvas {
    fn can_draw(&self, sc: &Scene, path: &Vec<Point>, net: &String, analog: bool) -> (r: bool)
        requires
            sc.wf(),
        ensures
            r == drawable(*sc, self@, path@, net@, analog),
    {
        self.tree_candidate_feasible(sc, path, net, analog) && (analog
            || self.reg.foreign_crossings(path, net) == 0)
    }

    pub fn best_wire_of(&self, sc: &Scene, ps: &Vec<Vec<Point>>, net: &String, analog: bool) -> (r:
        Option<usize>)
        requires
            sc.wf(),
        ensures
            match r {
                Some(i) => best_wire(*sc, self@, paths(ps@), net@, analog, ps@.len() as int)
                    == Some(i as int) && i < ps@.len(),
                None => best_wire(*sc, self@, paths(ps@), net@, analog, ps@.len() as int) is None,
            },
    {
        let ghost all = paths(ps@);
        let mut best: Option<usize> = None;
        let mut least: i128 = 0;
        let mut n: usize = 0;
        while n < ps.len()
            invariant
                n <= ps.len(),
                sc.wf(),
                all == paths(ps@),
                match best {
                    Some(i) => best_wire(*sc, self@, all, net@, analog, n as int) == Some(i as int)
                        && i < n && least == wire_cost(*sc, self@, all[i as int], net@) && least
                        >= -0x8_0000_0000_0000_0000_0000_0000,
                    None => best_wire(*sc, self@, all, net@, analog, n as int) is None,
                },
            decreases ps.len() - n,
        {
            proof {
                assert(all[n as int] == ps@[n as int]@);
            }
            if self.can_draw(sc, &ps[n], net, analog) {
                let cost: i128 = self.cost_of(sc, &ps[n], net);
                let better: bool = match best {
                    Some(_) => cost < least - EPS as i128,
                    None => true,
                };
                if better {
                    best = Some(n);
                    least = cost;
                }
            }
            n = n + 1;
        }
        best
    }
}

/// The wires that may join endpoints `i` and `j`.
pub open spec fn pair_wires(
    sc: Scene<'_>,
    list: Seq<Endpoint>,
    i: usize,
    j: usize,
) -> Seq<Seq<Point>> {
    let a = list[i as int];
    let b = list[j as int];
    pair_paths(sc.cfg.grid_mm as int, (a.pos, a.dir), (b.pos, b.dir))
}

pub open spec fn pair_choice(
    sc: Scene<'_>,
    d: Drawing,
    list: Seq<Endpoint>,
    pair: (usize, usize),
    net: Seq<char>,
    analog: bool,
) -> Option<Seq<Point>> {
    let ps = pair_wires(sc, list, pair.0, pair.1);
    match best_wire(sc, d, ps, net, analog, ps.len() as int) {
        Some(i) => Some(ps[i]),
        None => None,
    }
}

/// The first pair, at or after pair `k`, that can be joined, with its wire.
pub open spec fn seed_choice(
    sc: Scene<'_>,
    d: Drawing,
    list: Seq<Endpoint>,
    pairs: Seq<(usize, usize)>,
    net: Seq<char>,
    analog: bool,
    k: int,
) -> Option<(int, Seq<Point>)>
    decreases pairs.len() - k,
{
    if k < 0 || k >= pairs.len() {
        None
    } else {
        match pair_choice(sc, d, list, pairs[k], net, analog) {
            Some(p) => Some((k, p)),
            None => seed_choice(sc, d, list, pairs, net, analog, k + 1),
        }
    }
}

// ---------------------------------------------------------------- joining an endpoint to the tree

/// A wire that joins an endpoint to the tree, and the point where it does.
pub struct JoinView {
    pub path: Seq<Point>,
    pub at: Point,
}

#[derive(Debug)]
pub struct Join {
    pub path: Vec<Point>,
    pub at: Point,
}

impl View for Join {
    type V = JoinView;

    open spec fn view(&self) -> JoinView {
        JoinView { path: self.path@, at: self.at }
    }
}

pub open spec fn join_views(v: Seq<Join>) -> Seq<JoinView> {
    Seq::new(v.len(), |i: int| v[i]@)
}

pub open spec fn flip_span(s: Span) -> Span {
    Span { x1: s.y1, y1: s.x1, x2: s.y2, y2: s.x2 }
}

pub open spec fn flip_join(j: JoinView) -> JoinView {
    JoinView { path: flip_path(j.path), at: flip(j.at) }
}

pub open spec fn flip_joins(js: Seq<JoinView>) -> Seq<JoinView> {
    Seq::new(js.len(), |i: int| flip_join(js[i]))
}

/// A pin at `p` that points up or down (`d`) meets a level run ahead of it: straight, or with
/// one corner where the run does not reach over the pin.
pub open spec fn meet_level(p: Point, d: Iu, s: Span) -> Seq<JoinView> {
    if !spec_ahead(s.y1 - p.y, d as int) {
        Seq::empty()
    } else if spec_within(p.x as int, s.x1 as int, s.x2 as int) {
        let at = Point { x: p.x, y: s.y1 };
        seq![JoinView { path: seq![p, at], at }]
    } else {
        let x = if spec_gap(s.x1 as int, p.x as int) <= spec_gap(s.x2 as int, p.x as int) {
            s.x1
        } else {
            s.x2
        };
        let at = Point { x, y: s.y1 };
        seq![JoinView { path: seq![p, Point { x: p.x, y: s.y1 }, at], at }]
    }
}

/// A pin at `p` that points up or down (`d`) steps over to an upright run, after one of the
/// first `n` stub lengths.
pub open spec fn meet_upright(p: Point, d: Iu, s: Span, n: int) -> Seq<JoinView>
    decreases n,
{
    if n <= 0 {
        Seq::empty()
    } else {
        let before = meet_upright(p, d, s, n - 1);
        let y = spec_shift(p.y as int, d as int, 25400 * n);
        if spec_within(y as int, s.y1 as int, s.y2 as int) {
            let at = Point { x: s.x1, y };
            before.push(JoinView { path: seq![p, Point { x: p.x, y }, at], at })
        } else {
            before
        }
    }
}

/// The ways to join an endpoint to one run of the tree.
pub open spec fn joins_to(e: Endpoint, s: Span) -> Seq<JoinView> {
    let a = Point { x: s.x1, y: s.y1 };
    let b = Point { x: s.x2, y: s.y2 };
    let level = s.spec_horizontal();
    if spec_meet(a, b) {
        Seq::empty()
    } else {
        (if e.dir.y != 0 && level {
            meet_level(e.pos, e.dir.y, s)
        } else {
            Seq::empty()
        }) + (if e.dir.x != 0 && !level {
            flip_joins(meet_level(flip(e.pos), e.dir.x, flip_span(s)))
        } else {
            Seq::empty()
        }) + (if e.dir.y != 0 && !level {
            meet_upright(e.pos, e.dir.y, s, 4)
        } else {
            Seq::empty()
        }) + (if e.dir.x != 0 && level {
            flip_joins(meet_upright(flip(e.pos), e.dir.x, flip_span(s), 4))
        } else {
            Seq::empty()
        })
    }
}

/// The ways to join an endpoint to the first `n` runs of the tree.
pub open spec fn joins_to_runs(e: Endpoint, runs: Seq<Span>, n: int) -> Seq<JoinView>
    decreases n,
{
    if n <= 0 || n > runs.len() {
        Seq::empty()
    } else {
        joins_to_runs(e, runs, n - 1) + joins_to(e, runs[n - 1])
    }
}

/// The wires of a pair, each joining at its last point.
pub open spec fn ends_of(ps: Seq<Seq<Point>>) -> Seq<JoinView> {
    Seq::new(ps.len(), |i: int| JoinView { path: ps[i], at: ps[i].last() })
}

/// The ways to join an endpoint to the pins of the first `n` endpoints of the tree.
pub open spec fn joins_to_pins(
    sc: Scene<'_>,
    e: Endpoint,
    list: Seq<Endpoint>,
    wired: Seq<usize>,
    n: int,
) -> Seq<JoinView>
    decreases n,
{
    if n <= 0 || n > wired.len() {
        Seq::empty()
    } else {
        let w = list[wired[n - 1] as int];
        joins_to_pins(sc, e, list, wired, n - 1) + ends_of(
            pair_paths(sc.cfg.grid_mm as int, (e.pos, e.dir), (w.pos, w.dir)),
        )
    }
}

/// All ways to join an endpoint to the tree.
pub open spec fn all_joins(
    sc: Scene<'_>,
    e: Endpoint,
    runs: Seq<Span>,
    list: Seq<Endpoint>,
    wired: Seq<usize>,
) -> Seq<JoinView> {
    joins_to_runs(e, runs, runs.len() as int) + joins_to_pins(
        sc,
        e,
        list,
        wired,
        wired.len() as int,
    )
}

/// Order of joins: shorter first, then by the point of the join.
pub open spec fn join_after(js: Seq<JoinView>, a: usize, b: usize) -> bool {
    let p = js[a as int];
    let q = js[b as int];
    if path_length(p.path) != path_length(q.path) {
        path_length(p.path) > path_length(q.path)
    } else if p.at.x != q.at.x {
        p.at.x > q.at.x
    } else {
        p.at.y > q.at.y
    }
}

pub open spec fn join_order(js: Seq<JoinView>) -> Seq<usize> {
    sorted_by(upto(js.len() as int), |a: usize, b: usize| join_after(js, a, b))
}

/// The paths of the joins, shortest first.
pub open spec fn join_paths(js: Seq<JoinView>) -> Seq<Seq<Point>> {
    Seq::new(join_order(js).len(), |i: int| js[join_order(js)[i] as int].path)
}

/// The ways to join an endpoint to the tree are tried shortest first.
pub proof fn law_joins_come_shortest_first(js: Seq<JoinView>, i: int, j: int)
    requires
        js.len() <= usize::MAX,
        0 <= i < j < join_paths(js).len(),
    ensures
        path_length(join_paths(js)[i]) <= path_length(join_paths(js)[j]),
{
    let gt = |a: usize, b: usize| join_after(js, a, b);
    assert(is_preorder(gt));
    law_sort_orders(upto(js.len() as int), gt);
    let r = join_order(js);
    assert(!gt(r[i], r[j]));
}

/// The join to draw: the cheapest of those that may be drawn, tried shortest first.
pub open spec fn join_choice(
    sc: Scene<'_>,
    d: Drawing,
    js: Seq<JoinView>,
    net: Seq<char>,
    analog: bool,
) -> Option<JoinView> {
    let ps = join_paths(js);
    match best_wire(sc, d, ps, net, analog, ps.len() as int) {
        Some(i) => Some(js[join_order(js)[i] as int]),
        None => None,
    }
}

fn push_join(v: &mut Vec<Join>, j: Join)
    ensures
        join_views(final(v)@) == join_views(old(v)@).push(j@),
{
    let ghost before = v@;
    v.push(j);
    proof {
        assert(join_views(v@) =~= join_views(before).push(j@));
    }
}

fn push_join2(v: &mut Vec<Join>, p: Point, at: Point, turned: bool)
    ensures
        join_views(final(v)@) == join_views(old(v)@).push(
            if turned {
                flip_join(JoinView { path: seq![p, at], at })
            } else {
                JoinView { path: seq![p, at], at }
            },
        ),
{
    if turned {
        let a: Point = Point { x: p.y, y: p.x };
        let b: Point = Point { x: at.y, y: at.x };
        let path: Vec<Point> = vec![a, b];
        proof {
            assert(path@ =~= flip_path(seq![p, at]));
        }
        push_join(v, Join { path, at: b });
    } else {
        let path: Vec<Point> = vec![p, at];
        proof {
            assert(path@ =~= seq![p, at]);
        }
        push_join(v, Join { path, at });
    }
}

fn push_join3(v: &mut Vec<Join>, p: Point, q: Point, at: Point, turned: bool)
    ensures
        join_views(final(v)@) == join_views(old(v)@).push(
            if turned {
                flip_join(JoinView { path: seq![p, q, at], at })
            } else {
                JoinView { path: seq![p, q, at], at }
            },
        ),
{
    if turned {
        let a: Point = Point { x: p.y, y: p.x };
        let m: Point = Point { x: q.y, y: q.x };
        let b: Point = Point { x: at.y, y: at.x };
        let path: Vec<Point> = vec![a, m, b];
        proof {
            assert(path@ =~= flip_path(seq![p, q, at]));
        }
        push_join(v, Join { path, at: b });
    } else {
        let path: Vec<Point> = vec![p, q, at];
        proof {
            assert(path@ =~= seq![p, q, at]);
        }
        push_join(v, Join { path, at });
    }
}

pub open spec fn turned_if(js: Seq<JoinView>, turned: bool) -> Seq<JoinView> {
    if turned {
        flip_joins(js)
    } else {
        js
    }
}

fn push_meet_level(v: &mut Vec<Join>, p: Point, d: Iu, s: Span, turned: bool)
    ensures
        join_views(final(v)@) == join_views(old(v)@) + turned_if(meet_level(p, d, s), turned),
{
    let ghost before = join_views(v@);
    if ahead(s.y1 as i64 - p.y as i64, d) {
        if within(p.x, s.x1, s.x2) {
            push_join2(v, p, Point { x: p.x, y: s.y1 }, turned);
        } else {
            let x: Iu = if gap(s.x1, p.x) <= gap(s.x2, p.x) {
                s.x1
            } else {
                s.x2
            };
            push_join3(v, p, Point { x: p.x, y: s.y1 }, Point { x, y: s.y1 }, turned);
        }
    }
    proof {
        assert(join_views(v@) =~= before + turned_if(meet_level(p, d, s), turned));
    }
}

fn push_meet_upright(v: &mut Vec<Join>, p: Point, d: Iu, s: Span, turned: bool)
    ensures
        join_views(final(v)@) == join_views(old(v)@) + turned_if(
            meet_upright(p, d, s, 4),
            turned,
        ),
{
    let ghost before = join_views(v@);
    let mut n: i64 = 0;
    proof {
        assert(before =~= before + turned_if(meet_upright(p, d, s, 0), turned));
    }
    while n < 4
        invariant
            0 <= n <= 4,
            join_views(v@) == before + turned_if(meet_upright(p, d, s, n as int), turned),
        decreases 4 - n,
    {
        let y: Iu = shift(p.y, d, 25400 * (n + 1));
        let ghost now = join_views(v@);
        if within(y, s.y1, s.y2) {
            push_join3(v, p, Point { x: p.x, y }, Point { x: s.x1, y }, turned);
        }
        n = n + 1;
        proof {
            assert(join_views(v@) =~= before + turned_if(meet_upright(p, d, s, n as int), turned));
        }
    }
}

fn push_joins_to(v: &mut Vec<Join>, e: &Endpoint, s: Span)
    ensures
        join_views(final(v)@) == join_views(old(v)@) + joins_to(*e, s),
{
    let ghost before = join_views(v@);
    let a: Point = Point { x: s.x1, y: s.y1 };
    let b: Point = Point { x: s.x2, y: s.y2 };
    if meet(a, b) {
        proof {
            assert(before =~= before + joins_to(*e, s));
        }
        return;
    }
    let level: bool = s.horizontal();
    let turned_pos: Point = Point { x: e.pos.y, y: e.pos.x };
    let turned_span: Span = Span { x1: s.y1, y1: s.x1, x2: s.y2, y2: s.x2 };
    if e.dir.y != 0 && level {
        push_meet_level(v, e.pos, e.dir.y, s, false);
    }
    if e.dir.x != 0 && !level {
        push_meet_level(v, turned_pos, e.dir.x, turned_span, true);
    }
    if e.dir.y != 0 && !level {
        push_meet_upright(v, e.pos, e.dir.y, s, false);
    }
    if e.dir.x != 0 && level {
        push_meet_upright(v, turned_pos, e.dir.x, turned_span, true);
    }
    proof {
        assert(join_views(v@) =~= before + joins_to(*e, s));
    }
}

/// All ways to join an endpoint to the tree.
pub fn tree_join_candidates(
    sc: &Scene,
    e: &Endpoint,
    runs: &Vec<Span>,
    list: &Vec<Endpoint>,
    wired: &Vec<usize>,
) -> (r: Vec<Join>)
    requires
        sc.wf(),
        forall|i: int| 0 <= i < wired@.len() ==> #[trigger] wired@[i] < list@.len(),
    ensures
        join_views(r@) == all_joins(*sc, *e, runs@, list@, wired@),
{
    let mut out: Vec<Join> = Vec::new();
    let mut n: usize = 0;
    proof {
        assert(join_views(out@) =~= joins_to_runs(*e, runs@, 0));
    }
    while n < runs.len()
        invariant
            n <= runs.len(),
            join_views(out@) == joins_to_runs(*e, runs@, n as int),
        decreases runs.len() - n,
    {
        push_joins_to(&mut out, e, runs[n]);
        n = n + 1;
    }
    let ghost first = join_views(out@);
    let mut n: usize = 0;
    proof {
        assert(first =~= first + joins_to_pins(*sc, *e, list@, wired@, 0));
    }
    while n < wired.len()
        invariant
            n <= wired.len(),
            sc.wf(),
            forall|i: int| 0 <= i < wired@.len() ==> #[trigger] wired@[i] < list@.len(),
            join_views(out@) == first + joins_to_pins(*sc, *e, list@, wired@, n as int),
        decreases wired.len() - n,
    {
        let w: &Endpoint = &list[wired[n]];
        let ps: Vec<Vec<Point>> = tree_pair_candidates(sc.cfg, (e.pos, e.dir), (w.pos, w.dir));
        let ghost before = join_views(out@);
        let ghost ends = ends_of(paths(ps@));
        proof {
            crate::wiring::lemma_pair_paths_nonempty(
                sc.cfg.grid_mm as int,
                (e.pos, e.dir),
                (w.pos, w.dir),
            );
            assert(before =~= before + ends.take(0));
        }
        let mut i: usize = 0;
        while i < ps.len()
            invariant
                i <= ps.len(),
                ends == ends_of(paths(ps@)),
                forall|k: int| 0 <= k < ps@.len() ==> (#[trigger] paths(ps@)[k]).len() >= 2,
                join_views(out@) == before + ends.take(i as int),
            decreases ps.len() - i,
        {
            proof {
                assert(paths(ps@)[i as int].len() >= 2);
            }
            let path: Vec<Point> = copy_path(&ps[i]);
            let at: Point = path[path.len() - 1];
            push_join(&mut out, Join { path, at });
            i = i + 1;
            proof {
                assert(join_views(out@) =~= before + ends.take(i as int));
            }
        }
        n = n + 1;
        proof {
            assert(ends.take(ends.len() as int) =~= ends);
            assert(join_views(out@) =~= first + joins_to_pins(
                *sc,
                *e,
                list@,
                wired@,
                n as int,
            ));
        }
    }
    out
}

impl Canvas {
    pub fn best_join(&self, sc: &Scene, js: &Vec<Join>, net: &String, analog: bool) -> (r: Option<
        usize,
    >)
        requires
            sc.wf(),
        ensures
            match r {
                Some(i) => i < js@.len() && join_choice(
                    *sc,
                    self@,
                    join_views(js@),
                    net@,
                    analog,
                ) == Some(js@[i as int]@),
                None => join_choice(*sc, self@, join_views(js@), net@, analog) is None,
            },
    {
        let ghost views = join_views(js@);
        let mut lens: Vec<i128> = Vec::new();
        let mut i: usize = 0;
        while i < js.len()
            invariant
                i <= js.len(),
                lens@.len() == i,
                forall|k: int| 0 <= k < i ==> #[trigger] lens@[k] == path_length(js@[k].path@),
            decreases js.len() - i,
        {
            lens.push(path_length_mm(&js[i].path));
            i = i + 1;
        }
        let all: Vec<usize> = indices(js.len());
        let ghost gt = |a: usize, b: usize| join_after(views, a, b);
        let after = |a: usize, b: usize| -> (r: bool)
            requires
                a < js@.len(),
                b < js@.len(),
                lens@.len() == js@.len(),
                forall|k: int|
                    0 <= k < js@.len() ==> #[trigger] lens@[k] == path_length(js@[k].path@),
            ensures
                r == join_after(join_views(js@), a, b),
            {
                if lens[a] != lens[b] {
                    lens[a] > lens[b]
                } else if js[a].at.x != js[b].at.x {
                    js[a].at.x > js[b].at.x
                } else {
                    js[a].at.y > js[b].at.y
                }
            };
        let order: Vec<usize> = sort_by(&all, after, Ghost(gt));
        proof {
            lemma_sorted_items(all@, gt, |i: usize| i < js@.len());
            assert(order@ == join_order(views));
        }
        let mut ps: Vec<Vec<Point>> = Vec::new();
        let mut i: usize = 0;
        while i < order.len()
            invariant
                i <= order.len(),
                views == join_views(js@),
                order@ == join_order(views),
                forall|k: int| 0 <= k < order@.len() ==> #[trigger] order@[k] < js@.len(),
                paths(ps@) =~= join_paths(views).take(i as int),
            decreases order.len() - i,
        {
            let path: Vec<Point> = copy_path(&js[order[i]].path);
            proof {
                assert(order@[i as int] < js@.len());
                lemma_paths_push(ps@, path);
                assert(path@ == join_paths(views)[i as int]);
            }
            ps.push(path);
            i = i + 1;
        }
        proof {
            assert(paths(ps@) =~= join_paths(views));
        }
        match self.best_wire_of(sc, &ps, net, analog) {
            Some(i) => {
                proof {
                    assert(order@[i as int] < js@.len());
                }
                Some(order[i])
            },
            None => None,
        }
    }
}

} // verus!
