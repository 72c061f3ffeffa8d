//! Growing the wire tree of a net, and trying trees out before one is kept.

use vstd::prelude::*;
use crate::canvas::{
    copy_endpoint, copy_path, law_rollback_undoes, Canvas, Drawing, Endpoint, Scene, WiringSnapshot,
};
use crate::order::{
    includes, indices, is_text_behind, lemma_sorted_items, list_includes, natural_compare,
    natural_order, sort_by, sorted_by, text_behind, upto,
};
use crate::pins::endpoints_wf;
use crate::power::needs_junction;
use crate::tree::{
    all_joins, join_choice, seed_choice, tree_join_candidates, wire_cost, Join, JoinView,
};
use crate::units::{gap, Point, EPS};
use crate::wiring::{manhattan, tree_pair_candidates, Seg, Span};

verus! {

/// The runs of the net among the wires `from..n`.
pub open spec fn net_runs(segs: Seq<Seg>, net: Seq<char>, from: int, n: int) -> Seq<Span>
    decreases n,
{
    if n <= from || n <= 0 || n > segs.len() {
        Seq::empty()
    } else if segs[n - 1].net@ == net {
        net_runs(segs, net, from, n - 1).push(segs[n - 1].span)
    } else {
        net_runs(segs, net, from, n - 1)
    }
}

impl Canvas {
    /// The runs of the net among the wires drawn since there were `from` of them.
    pub fn runs_since(&self, net: &String, from: usize) -> (r: Vec<Span>)
        ensures
            r@ == net_runs(self@.reg.segs, net@, from as int, self@.reg.segs.len() as int),
    {
        let mut out: Vec<Span> = Vec::new();
        let mut n: usize = from;
        while n < self.reg.segs.len()
            invariant
                from <= n,
                n <= self.reg.segs.len() || n == from,
                out@ == net_runs(self.reg.segs@, net@, from as int, n as int),
            decreases self.reg.segs.len() - n,
        {
            if self.reg.segs[n].net == *net {
                out.push(self.reg.segs[n].span);
            }
            n = n + 1;
        }
        out
    }
}

/// Reference of the component that an endpoint belongs to.
pub open spec fn refdes_of(sc: Scene<'_>, e: Endpoint) -> Seq<char> {
    sc.design.comps@[sc.model.placed@[e.placed as int].comp as int].refdes@
}

fn refdes_at<'a>(sc: &'a Scene, e: &Endpoint) -> (r: &'a String)
    requires
        sc.wf(),
        e.placed < sc.model.placed@.len(),
    ensures
        r@ == refdes_of(*sc, *e),
{
    &sc.design.comps[sc.model.placed[e.placed].comp].refdes
}

/// Distance of endpoint `i` from the nearest of the first `n` endpoints of the tree.
pub open spec fn tree_dist(list: Seq<Endpoint>, wired: Seq<usize>, i: usize, n: int) -> int
    decreases n,
{
    if n <= 0 || n > wired.len() {
        i64::MAX as int
    } else {
        let before = tree_dist(list, wired, i, n - 1);
        let here = manhattan(list[wired[n - 1] as int].pos, list[i as int].pos);
        if here < before {
            here
        } else {
            before
        }
    }
}

pub fn manhattan_of(a: Point, b: Point) -> (r: i64)
    ensures
        r == manhattan(a, b),
        0 <= r <= 0x2_0000_0000,
{
    gap(a.x, b.x) + gap(a.y, b.y)
}

fn tree_dist_of(list: &Vec<Endpoint>, wired: &Vec<usize>, i: usize) -> (r: i64)
    requires
        i < list@.len(),
        forall|k: int| 0 <= k < wired@.len() ==> #[trigger] wired@[k] < list@.len(),
    ensures
        r == tree_dist(list@, wired@, i, wired@.len() as int),
{
    let mut best: i64 = i64::MAX;
    let mut n: usize = 0;
    while n < wired.len()
        invariant
            n <= wired.len(),
            i < list@.len(),
            forall|k: int| 0 <= k < wired@.len() ==> #[trigger] wired@[k] < list@.len(),
            best == tree_dist(list@, wired@, i, n as int),
        decreases wired.len() - n,
    {
        let here: i64 = manhattan_of(list[wired[n]].pos, list[i].pos);
        if here < best {
            best = here;
        }
        n = n + 1;
    }
    best
}

/// Order in which endpoints join the tree: nearer first, then by reference.
pub open spec fn joins_after(
    sc: Scene<'_>,
    list: Seq<Endpoint>,
    wired: Seq<usize>,
    a: usize,
    b: usize,
) -> bool {
    let da = tree_dist(list, wired, a, wired.len() as int);
    let db = tree_dist(list, wired, b, wired.len() as int);
    if da != db {
        da > db
    } else {
        natural_order(refdes_of(sc, list[a as int]), refdes_of(sc, list[b as int])) > 0
    }
}

pub open spec fn rest_order(
    sc: Scene<'_>,
    list: Seq<Endpoint>,
    wired: Seq<usize>,
    rest: Seq<usize>,
) -> Seq<usize> {
    sorted_by(rest, |a: usize, b: usize| joins_after(sc, list, wired, a, b))
}

/// The first endpoint of `order`, at or after place `k`, that can join the tree, and how.
pub open spec fn next_join(
    sc: Scene<'_>,
    d: Drawing,
    list: Seq<Endpoint>,
    wired: Seq<usize>,
    order: Seq<usize>,
    from: int,
    net: Seq<char>,
    analog: bool,
    k: int,
) -> Option<(int, JoinView)>
    decreases order.len() - k,
{
    if k < 0 || k >= order.len() {
        None
    } else {
        let runs = net_runs(d.reg.segs, net, from, d.reg.segs.len() as int);
        let js = all_joins(sc, list[order[k] as int], runs, list, wired);
        match join_choice(sc, d, js, net, analog) {
            Some(j) => Some((k, j)),
            None => next_join(sc, d, list, wired, order, from, net, analog, k + 1),
        }
    }
}

impl Drawing {
    /// With the wire of a join drawn, and a junction where it needs one.
    pub open spec fn with_join(self, j: JoinView, net: String) -> Drawing {
        if needs_junction(self.reg, j.at, net@) {
            self.wired(j.path, net).joined(j.at)
        } else {
            self.wired(j.path, net)
        }
    }
}

impl Canvas {
    pub fn draw_join(&mut self, path: Vec<Point>, at: Point, net: &String)
        ensures
            final(self)@ == old(self)@.with_join(JoinView { path: path@, at }, *net),
    {
        let need: bool = self.junction_needed_at(at, net);
        self.wire(path, net);
        if need {
            self.push_junction(at);
        }
    }
}

/// A tree while it grows.
pub struct Growth {
    pub d: Drawing,
    pub wired: Seq<usize>,
    pub rest: Seq<usize>,
}

/// The tree after at most `fuel` more endpoints have joined it.
pub open spec fn grown(
    sc: Scene<'_>,
    g: Growth,
    list: Seq<Endpoint>,
    from: int,
    net: String,
    analog: bool,
    fuel: nat,
) -> Growth
    decreases fuel,
{
    if fuel == 0 || g.rest.len() == 0 {
        g
    } else {
        let order = rest_order(sc, list, g.wired, g.rest);
        match next_join(sc, g.d, list, g.wired, order, from, net@, analog, 0) {
            Some((k, j)) => grown(
                sc,
                Growth {
                    d: g.d.with_join(j, net),
                    wired: g.wired.push(order[k]),
                    rest: order.remove(k),
                },
                list,
                from,
                net,
                analog,
                (fuel - 1) as nat,
            ),
            None => Growth { rest: order, ..g },
        }
    }
}

/// The indices below `n` that are not listed.
pub open spec fn others(n: int, listed: Seq<usize>) -> Seq<usize>
    decreases n,
{
    if n <= 0 {
        Seq::empty()
    } else if includes(listed, n - 1) {
        others(n - 1, listed)
    } else {
        others(n - 1, listed).push((n - 1) as usize)
    }
}

pub open spec fn ascending(v: Seq<usize>) -> Seq<usize> {
    sorted_by(v, |a: usize, b: usize| a > b)
}

/// The tree grown from the first pair that can be joined, with the endpoints it reaches.
#[verifier::opaque]
pub open spec fn tree_grown(
    sc: Scene<'_>,
    d: Drawing,
    list: Seq<Endpoint>,
    pairs: Seq<(usize, usize)>,
    net: String,
    analog: bool,
) -> (Drawing, Seq<usize>) {
    match seed_choice(sc, d, list, pairs, net@, analog, 0) {
        None => (d, Seq::empty()),
        Some((k, path)) => {
            let wired = seq![pairs[k].0, pairs[k].1];
            let rest = others(list.len() as int, wired);
            let g = grown(
                sc,
                Growth { d: d.wired(path, net), wired, rest },
                list,
                d.reg.segs.len() as int,
                net,
                analog,
                rest.len(),
            );
            (g.d, ascending(g.wired))
        },
    }
}

// ---------------------------------------------------------------- trees only add wiring

/// Only wiring was added.
pub open spec fn adds_wiring(after: Drawing, before: Drawing) -> bool {
    after.extends_wiring(before) && after.same_rest(before)
}

pub proof fn lemma_adds_trans(a: Drawing, b: Drawing, c: Drawing)
    requires
        adds_wiring(b, a),
        adds_wiring(c, b),
    ensures
        adds_wiring(c, a),
{
    assert(a.wires.is_prefix_of(c.wires));
    assert(a.reg.segs.is_prefix_of(c.reg.segs));
    assert(a.junctions.is_prefix_of(c.junctions));
    assert(a.net_labels.is_prefix_of(c.net_labels));
    assert(a.global_labels.is_prefix_of(c.global_labels));
    assert(a.hier_labels.is_prefix_of(c.hier_labels));
    assert(a.reg.label_boxes.is_prefix_of(c.reg.label_boxes));
}

pub proof fn lemma_wired_adds(d: Drawing, path: Seq<Point>, net: String)
    ensures
        adds_wiring(d.wired(path, net), d),
{
}

pub proof fn lemma_join_adds(d: Drawing, j: JoinView, net: String)
    ensures
        adds_wiring(d.with_join(j, net), d),
{
}

proof fn lemma_grown_adds(
    sc: Scene<'_>,
    g: Growth,
    list: Seq<Endpoint>,
    from: int,
    net: String,
    analog: bool,
    fuel: nat,
)
    ensures
        adds_wiring(grown(sc, g, list, from, net, analog, fuel).d, g.d),
    decreases fuel,
{
    if fuel > 0 && g.rest.len() > 0 {
        let order = rest_order(sc, list, g.wired, g.rest);
        match next_join(sc, g.d, list, g.wired, order, from, net@, analog, 0) {
            Some((k, j)) => {
                let next = Growth {
                    d: g.d.with_join(j, net),
                    wired: g.wired.push(order[k]),
                    rest: order.remove(k),
                };
                lemma_join_adds(g.d, j, net);
                lemma_grown_adds(sc, next, list, from, net, analog, (fuel - 1) as nat);
                lemma_adds_trans(
                    g.d,
                    next.d,
                    grown(sc, next, list, from, net, analog, (fuel - 1) as nat).d,
                );
            },
            None => {},
        }
    }
}

/// Growing a tree takes nothing away: it only adds wires and junctions.
pub proof fn law_tree_only_adds(
    sc: Scene<'_>,
    d: Drawing,
    list: Seq<Endpoint>,
    pairs: Seq<(usize, usize)>,
    net: String,
    analog: bool,
)
    ensures
        adds_wiring(tree_grown(sc, d, list, pairs, net, analog).0, d),
{
    reveal(tree_grown);
    match seed_choice(sc, d, list, pairs, net@, analog, 0) {
        None => {},
        Some((k, path)) => {
            let wired = seq![pairs[k].0, pairs[k].1];
            let rest = others(list.len() as int, wired);
            let g0 = Growth { d: d.wired(path, net), wired, rest };
            lemma_wired_adds(d, path, net);
            lemma_grown_adds(sc, g0, list, d.reg.segs.len() as int, net, analog, rest.len());
            lemma_adds_trans(
                d,
                g0.d,
                grown(sc, g0, list, d.reg.segs.len() as int, net, analog, rest.len()).d,
            );
        },
    }
}

pub proof fn lemma_next_join_bounds(
    sc: Scene<'_>,
    d: Drawing,
    list: Seq<Endpoint>,
    wired: Seq<usize>,
    order: Seq<usize>,
    from: int,
    net: Seq<char>,
    analog: bool,
    k: int,
)
    requires
        0 <= k,
    ensures
        match next_join(sc, d, list, wired, order, from, net, analog, k) {
            Some((i, _)) => k <= i < order.len(),
            None => true,
        },
    decreases order.len() - k,
{
    if k < order.len() {
        lemma_next_join_bounds(sc, d, list, wired, order, from, net, analog, k + 1);
    }
}

pub proof fn lemma_seed_bounds(
    sc: Scene<'_>,
    d: Drawing,
    list: Seq<Endpoint>,
    pairs: Seq<(usize, usize)>,
    net: Seq<char>,
    analog: bool,
    k: int,
)
    requires
        0 <= k,
    ensures
        match seed_choice(sc, d, list, pairs, net, analog, k) {
            Some((i, _)) => k <= i < pairs.len(),
            None => true,
        },
    decreases pairs.len() - k,
{
    if k < pairs.len() {
        lemma_seed_bounds(sc, d, list, pairs, net, analog, k + 1);
    }
}

pub open spec fn all_below(v: Seq<usize>, n: int) -> bool {
    forall|i: int| 0 <= i < v.len() ==> #[trigger] v[i] < n
}

pub open spec fn pairs_below(v: Seq<(usize, usize)>, n: int) -> bool {
    forall|i: int| 0 <= i < v.len() ==> (#[trigger] v[i]).0 < n && v[i].1 < n
}

impl Canvas {
    fn find_seed(
        &self,
        sc: &Scene,
        list: &Vec<Endpoint>,
        pairs: &Vec<(usize, usize)>,
        net: &String,
        analog: bool,
    ) -> (r: Option<(usize, Vec<Point>)>)
        requires
            sc.wf(),
            pairs_below(pairs@, list@.len() as int),
        ensures
            match r {
                Some((k, p)) => seed_choice(*sc, self@, list@, pairs@, net@, analog, 0) == Some(
                    (k as int, p@),
                ) && k < pairs@.len(),
                None => seed_choice(*sc, self@, list@, pairs@, net@, analog, 0) is None,
            },
    {
        let mut k: usize = 0;
        while k < pairs.len()
            invariant
                k <= pairs.len(),
                sc.wf(),
                pairs_below(pairs@, list@.len() as int),
                seed_choice(*sc, self@, list@, pairs@, net@, analog, 0) == seed_choice(
                    *sc,
                    self@,
                    list@,
                    pairs@,
                    net@,
                    analog,
                    k as int,
                ),
            decreases pairs.len() - k,
        {
            let (i, j): (usize, usize) = pairs[k];
            let a: &Endpoint = &list[i];
            let b: &Endpoint = &list[j];
            let ps: Vec<Vec<Point>> = tree_pair_candidates(sc.cfg, (a.pos, a.dir), (b.pos, b.dir));
            match self.best_wire_of(sc, &ps, net, analog) {
                Some(w) => {
                    return Some((k, copy_path(&ps[w])));
                },
                None => {},
            }
            k = k + 1;
        }
        None
    }

    fn find_join(
        &self,
        sc: &Scene,
        list: &Vec<Endpoint>,
        wired: &Vec<usize>,
        order: &Vec<usize>,
        from: usize,
        net: &String,
        analog: bool,
    ) -> (r: Option<(usize, Vec<Point>, Point)>)
        requires
            sc.wf(),
            all_below(wired@, list@.len() as int),
            all_below(order@, list@.len() as int),
        ensures
            match r {
                Some((k, p, at)) => next_join(
                    *sc,
                    self@,
                    list@,
                    wired@,
                    order@,
                    from as int,
                    net@,
                    analog,
                    0,
                ) == Some((k as int, (JoinView { path: p@, at }))) && k < order@.len(),
                None => next_join(
                    *sc,
                    self@,
                    list@,
                    wired@,
                    order@,
                    from as int,
                    net@,
                    analog,
                    0,
                ) is None,
            },
    {
        let runs: Vec<Span> = self.runs_since(net, from);
        let mut k: usize = 0;
        while k < order.len()
            invariant
                k <= order.len(),
                sc.wf(),
                all_below(wired@, list@.len() as int),
                all_below(order@, list@.len() as int),
                runs@ == net_runs(
                    self@.reg.segs,
                    net@,
                    from as int,
                    self@.reg.segs.len() as int,
                ),
                next_join(*sc, self@, list@, wired@, order@, from as int, net@, analog, 0)
                    == next_join(
                    *sc,
                    self@,
                    list@,
                    wired@,
                    order@,
                    from as int,
                    net@,
                    analog,
                    k as int,
                ),
            decreases order.len() - k,
        {
            let js: Vec<Join> = tree_join_candidates(sc, &list[order[k]], &runs, list, wired);
            match self.best_join(sc, &js, net, analog) {
                Some(i) => {
                    return Some((k, copy_path(&js[i].path), js[i].at));
                },
                None => {},
            }
            k = k + 1;
        }
        None
    }

    /// Grow a tree from the first pair that can be joined. The endpoints that it reaches are
    /// handed back in order.
    pub fn grow_tree(
        &mut self,
        sc: &Scene,
        net: &String,
        list: &Vec<Endpoint>,
        pairs: &Vec<(usize, usize)>,
        analog: bool,
    ) -> (r: Vec<usize>)
        requires
            sc.wf(),
            endpoints_wf(*sc, list@),
            pairs_below(pairs@, list@.len() as int),
        ensures
            (final(self)@, r@) == tree_grown(*sc, old(self)@, list@, pairs@, *net, analog),
            all_below(r@, list@.len() as int),
    {
        proof {
            reveal(tree_grown);
        }
        let from: usize = self.reg.segs.len();
        let ghost d0 = self@;
        let seed: Option<(usize, Vec<Point>)> = self.find_seed(sc, list, pairs, net, analog);
        let (k, path): (usize, Vec<Point>) = match seed {
            Some(s) => s,
            None => {
                let none: Vec<usize> = Vec::new();
                proof {
                    assert(none@ =~= Seq::empty());
                }
                return none;
            },
        };
        let ghost first = path@;
        self.wire(path, net);
        let mut wired: Vec<usize> = vec![pairs[k].0, pairs[k].1];
        proof {
            assert(wired@ =~= seq![pairs@[k as int].0, pairs@[k as int].1]);
        }
        let ghost wired0 = wired@;
        let mut rest: Vec<usize> = Vec::new();
        let mut n: usize = 0;
        while n < list.len()
            invariant
                n <= list.len(),
                rest@ == others(n as int, wired@),
                all_below(rest@, n as int),
            decreases list.len() - n,
        {
            if !list_includes(&wired, n) {
                rest.push(n);
            }
            n = n + 1;
        }
        let ghost g0 = Growth { d: d0.wired(first, *net), wired: wired0, rest: rest@ };
        let ghost mut fuel: nat = rest@.len();
        let mut going: bool = true;
        let ghost goal = grown(*sc, g0, list@, from as int, *net, analog, fuel);
        proof {
            lemma_wired_adds(d0, first, *net);
        }
        while going && rest.len() > 0
            invariant
                sc.wf(),
                endpoints_wf(*sc, list@),
                all_below(wired@, list@.len() as int),
                all_below(rest@, list@.len() as int),
                from <= self@.reg.segs.len(),
                from == d0.reg.segs.len(),
                fuel == rest@.len(),
                going ==> grown(
                    *sc,
                    (Growth { d: self@, wired: wired@, rest: rest@ }),
                    list@,
                    from as int,
                    *net,
                    analog,
                    fuel,
                ) == goal,
                !going ==> goal == (Growth { d: self@, wired: wired@, rest: rest@ }),
            decreases
                    rest@.len(),
                    if going {
                        1int
                    } else {
                        0
                    },
        {
            let ghost gt = |a: usize, b: usize| joins_after(*sc, list@, wired@, a, b);
            let w: &Vec<usize> = &wired;
            let after = |a: usize, b: usize| -> (r: bool)
                requires
                    sc.wf(),
                    endpoints_wf(*sc, list@),
                    a < list@.len(),
                    b < list@.len(),
                    all_below(w@, list@.len() as int),
                ensures
                    r == joins_after(*sc, list@, w@, a, b),
                {
                    let da: i64 = tree_dist_of(list, w, a);
                    let db: i64 = tree_dist_of(list, w, b);
                    if da != db {
                        da > db
                    } else {
                        natural_compare(
                            refdes_at(sc, &list[a]).as_str(),
                            refdes_at(sc, &list[b]).as_str(),
                        ) > 0
                    }
                };
            let order: Vec<usize> = sort_by(&rest, after, Ghost(gt));
            proof {
                lemma_sorted_items(rest@, gt, |i: usize| i < list@.len());
                assert(order@ == rest_order(*sc, list@, wired@, rest@));
            }
            match self.find_join(sc, list, &wired, &order, from, net, analog) {
                Some((ri, path, at)) => {
                    let ghost before = self@;
                    let ghost j = JoinView { path: path@, at };
                    self.draw_join(path, at, net);
                    proof {
                        lemma_join_adds(before, j, *net);
                    }
                    wired.push(order[ri]);
                    rest = order;
                    rest.remove(ri);
                    proof {
                        fuel = (fuel - 1) as nat;
                    }
                },
                None => {
                    rest = order;
                    going = false;
                },
            }
        }
        let ghost gt = |a: usize, b: usize| a > b;
        let after = |a: usize, b: usize| -> (r: bool)
            ensures
                r == (a > b),
            { a > b };
        let out: Vec<usize> = sort_by(&wired, after, Ghost(gt));
        proof {
            lemma_sorted_items(wired@, gt, |i: usize| i < list@.len());
        }
        out
    }
}

// ---------------------------------------------------------------- the tree of a group

/// Order of endpoints: by reference, then by pad.
pub open spec fn listed_after(sc: Scene<'_>, a: Endpoint, b: Endpoint) -> bool {
    let c = natural_order(refdes_of(sc, a), refdes_of(sc, b));
    c > 0 || (c == 0 && text_behind(a.pad@, b.pad@))
}

pub open spec fn list_order(sc: Scene<'_>, subset: Seq<Endpoint>) -> Seq<usize> {
    sorted_by(
        upto(subset.len() as int),
        |a: usize, b: usize| listed_after(sc, subset[a as int], subset[b as int]),
    )
}

/// The endpoints by reference and pad.
pub open spec fn listed(sc: Scene<'_>, subset: Seq<Endpoint>) -> Seq<Endpoint> {
    Seq::new(list_order(sc, subset).len(), |i: int| subset[list_order(sc, subset)[i] as int])
}

/// The pairs of `i` with the indices `i + 1..n`.
pub open spec fn pairs_of(i: int, n: int) -> Seq<(usize, usize)>
    decreases n - i,
{
    if n <= i + 1 {
        Seq::empty()
    } else {
        pairs_of(i, n - 1).push((i as usize, (n - 1) as usize))
    }
}

/// The pairs whose first index is less than `i`, of indices below `n`.
pub open spec fn pairs_before(i: int, n: int) -> Seq<(usize, usize)>
    decreases i,
{
    if i <= 0 {
        Seq::empty()
    } else {
        pairs_before(i - 1, n) + pairs_of(i - 1, n)
    }
}

pub open spec fn farther(list: Seq<Endpoint>, p: (usize, usize), q: (usize, usize)) -> bool {
    manhattan(list[p.1 as int].pos, list[p.0 as int].pos) > manhattan(
        list[q.1 as int].pos,
        list[q.0 as int].pos,
    )
}

/// All pairs of endpoints, nearest first.
pub open spec fn seed_pairs(list: Seq<Endpoint>) -> Seq<(usize, usize)> {
    sorted_by(
        pairs_before(list.len() as int, list.len() as int),
        |p: (usize, usize), q: (usize, usize)| farther(list, p, q),
    )
}

/// The largest total that is told apart.
pub open spec fn cost_cap(v: int) -> int {
    let top = 0x1_0000_0000_0000_0000_0000_0000_0000;
    if v > top {
        top
    } else if v < -top {
        -top
    } else {
        v
    }
}

/// Cost of the wires `from..n`.
pub open spec fn cost_upto(sc: Scene<'_>, d: Drawing, net: Seq<char>, from: int, n: int) -> int
    decreases n,
{
    if n <= from || n <= 0 || n > d.wires.len() {
        0
    } else {
        cost_cap(cost_upto(sc, d, net, from, n - 1) + wire_cost(sc, d, d.wires[n - 1], net))
    }
}

/// What a tree from one pair would reach, and at what cost.
pub open spec fn trial(
    sc: Scene<'_>,
    d: Drawing,
    list: Seq<Endpoint>,
    pair: (usize, usize),
    net: String,
) -> (int, int) {
    let t = tree_grown(sc, d, list, seq![pair], net, true);
    (t.1.len() as int, cost_upto(sc, t.0, net@, d.wires.len() as int, t.0.wires.len() as int))
}

/// Among the first `n` pairs: the first whose tree reaches most, or a later one that reaches as
/// much for less.
pub open spec fn best_seed(
    sc: Scene<'_>,
    d: Drawing,
    list: Seq<Endpoint>,
    pairs: Seq<(usize, usize)>,
    net: String,
    n: int,
) -> Option<int>
    decreases n,
{
    if n <= 0 || n > pairs.len() {
        None
    } else {
        let before = best_seed(sc, d, list, pairs, net, n - 1);
        match before {
            None => Some(n - 1),
            Some(b) => {
                let here = trial(sc, d, list, pairs[n - 1], net);
                let best = trial(sc, d, list, pairs[b], net);
                if here.0 > best.0 || (here.0 == best.0 && here.1 < best.1 - EPS) {
                    Some(n - 1)
                } else {
                    before
                }
            },
        }
    }
}

/// The tree of a group: an analog group takes the seed whose tree reaches most.
pub open spec fn group_tree(
    sc: Scene<'_>,
    d: Drawing,
    subset: Seq<Endpoint>,
    net: String,
    analog: bool,
) -> (Drawing, Seq<usize>) {
    let list = listed(sc, subset);
    let pairs = seed_pairs(list);
    if !analog {
        tree_grown(sc, d, list, pairs, net, false)
    } else {
        match best_seed(sc, d, list, pairs, net, pairs.len() as int) {
            Some(b) => tree_grown(sc, d, list, seq![pairs[b]], net, true),
            None => (d, Seq::empty()),
        }
    }
}

fn list_by_reference(sc: &Scene, subset: &Vec<Endpoint>) -> (r: Vec<Endpoint>)
    requires
        sc.wf(),
        endpoints_wf(*sc, subset@),
    ensures
        r@ == listed(*sc, subset@),
        endpoints_wf(*sc, r@),
{
    let all: Vec<usize> = indices(subset.len());
    let ghost gt = |a: usize, b: usize| listed_after(*sc, subset@[a as int], subset@[b as int]);
    let after = |p: usize, q: usize| -> (r: bool)
        requires
            sc.wf(),
            endpoints_wf(*sc, subset@),
            p < subset@.len(),
            q < subset@.len(),
        ensures
            r == listed_after(*sc, subset@[p as int], subset@[q as int]),
        {
            let a: &Endpoint = &subset[p];
            let b: &Endpoint = &subset[q];
            let c: i8 = natural_compare(refdes_at(sc, a).as_str(), refdes_at(sc, b).as_str());
            c > 0 || (c == 0 && is_text_behind(&a.pad, &b.pad))
        };
    let order: Vec<usize> = sort_by(&all, after, Ghost(gt));
    proof {
        lemma_sorted_items(all@, gt, |i: usize| i < subset@.len());
    }
    let mut out: Vec<Endpoint> = Vec::new();
    let mut n: usize = 0;
    while n < order.len()
        invariant
            n <= order.len(),
            endpoints_wf(*sc, subset@),
            order@ == list_order(*sc, subset@),
            all_below(order@, subset@.len() as int),
            out@ =~= listed(*sc, subset@).take(n as int),
            endpoints_wf(*sc, out@),
        decreases order.len() - n,
    {
        proof {
            assert(order@[n as int] < subset@.len());
        }
        out.push(copy_endpoint(&subset[order[n]]));
        n = n + 1;
    }
    proof {
        assert(out@ =~= listed(*sc, subset@));
    }
    out
}

fn nearest_pairs(list: &Vec<Endpoint>) -> (r: Vec<(usize, usize)>)
    ensures
        r@ == seed_pairs(list@),
        pairs_below(r@, list@.len() as int),
{
    let top: usize = list.len();
    let mut all: Vec<(usize, usize)> = Vec::new();
    let mut i: usize = 0;
    while i < top
        invariant
            i <= top,
            all@ == pairs_before(i as int, top as int),
            pairs_below(all@, top as int),
        decreases top - i,
    {
        let ghost before = all@;
        let mut j: usize = i + 1;
        proof {
            assert(all@ =~= before + pairs_of(i as int, j as int));
        }
        while j < top
            invariant
                i < j <= top,
                all@ == before + pairs_of(i as int, j as int),
                pairs_below(all@, top as int),
            decreases top - j,
        {
            all.push((i, j));
            j = j + 1;
            proof {
                assert(all@ =~= before + pairs_of(i as int, j as int));
            }
        }
        i = i + 1;
    }
    let ghost gt = |p: (usize, usize), q: (usize, usize)| farther(list@, p, q);
    let after = |p: (usize, usize), q: (usize, usize)| -> (r: bool)
        requires
            p.0 < list@.len(),
            p.1 < list@.len(),
            q.0 < list@.len(),
            q.1 < list@.len(),
        ensures
            r == farther(list@, p, q),
        {
            manhattan_of(list[p.1].pos, list[p.0].pos) > manhattan_of(
                list[q.1].pos,
                list[q.0].pos,
            )
        };
    let out: Vec<(usize, usize)> = sort_by(&all, after, Ghost(gt));
    proof {
        lemma_sorted_items(
            all@,
            gt,
            |p: (usize, usize)| p.0 < list@.len() && p.1 < list@.len(),
        );
    }
    out
}

impl Canvas {
    fn tree_cost_since(&self, sc: &Scene, net: &String, from: usize) -> (r: i128)
        requires
            from <= self@.wires.len(),
        ensures
            r == cost_upto(*sc, self@, net@, from as int, self@.wires.len() as int),
            -0x1_0000_0000_0000_0000_0000_0000_0000 <= r
                <= 0x1_0000_0000_0000_0000_0000_0000_0000,
    {
        let top: i128 = 0x1_0000_0000_0000_0000_0000_0000_0000;
        let mut total: i128 = 0;
        let mut n: usize = from;
        while n < self.out.wires.len()
            invariant
                from <= n <= self.out.wires.len(),
                top == 0x1_0000_0000_0000_0000_0000_0000_0000,
                total == cost_upto(*sc, self@, net@, from as int, n as int),
                -top <= total <= top,
            decreases self.out.wires.len() - n,
        {
            let sum: i128 = total + self.cost_of(sc, &self.out.wires[n], net);
            total = if sum > top {
                top
            } else if sum < -top {
                -top
            } else {
                sum
            };
            n = n + 1;
        }
        total
    }

    /// Join the endpoints of a group by a tree. The endpoints that it reaches are handed back.
    pub fn wire_group_tree(
        &mut self,
        sc: &Scene,
        net: &String,
        subset: &Vec<Endpoint>,
        analog: bool,
    ) -> (r: Vec<Endpoint>)
        requires
            sc.wf(),
            endpoints_wf(*sc, subset@),
        ensures
            ({
                let t = group_tree(*sc, old(self)@, subset@, *net, analog);
                final(self)@ == t.0 && r@.len() == t.1.len() && forall|i: int|
                    0 <= i < r@.len() ==> #[trigger] r@[i] == listed(*sc, subset@)[t.1[i] as int]
            }),
            endpoints_wf(*sc, r@),
    {
        let list: Vec<Endpoint> = list_by_reference(sc, subset);
        let pairs: Vec<(usize, usize)> = nearest_pairs(&list);
        let ghost d0 = self@;
        let reached: Vec<usize> = if !analog {
            self.grow_tree(sc, net, &list, &pairs, false)
        } else {
            let mut best: Option<usize> = None;
            let mut best_len: usize = 0;
            let mut best_cost: i128 = 0;
            let mut n: usize = 0;
            while n < pairs.len()
                invariant
                    n <= pairs.len(),
                    sc.wf(),
                    endpoints_wf(*sc, list@),
                    pairs_below(pairs@, list@.len() as int),
                    self@ == d0,
                    match best {
                        Some(b) => best_seed(*sc, d0, list@, pairs@, *net, n as int) == Some(
                            b as int,
                        ) && b < n && trial(*sc, d0, list@, pairs@[b as int], *net) == (
                            best_len as int,
                            best_cost as int,
                        ) && best_cost >= -0x1_0000_0000_0000_0000_0000_0000_0000,
                        None => best_seed(*sc, d0, list@, pairs@, *net, n as int) is None,
                    },
                decreases pairs.len() - n,
            {
                let one: Vec<(usize, usize)> = vec![pairs[n]];
                proof {
                    assert(one@ =~= seq![pairs@[n as int]]);
                    law_tree_only_adds(*sc, d0, list@, one@, *net, true);
                }
                let undo: WiringSnapshot = self.snapshot_wiring();
                let idx: Vec<usize> = self.grow_tree(sc, net, &list, &one, true);
                let cost: i128 = self.tree_cost_since(sc, net, undo.wires);
                proof {
                    law_rollback_undoes(d0, self@, undo);
                }
                self.rollback_wiring(&undo);
                let better: bool = match best {
                    None => true,
                    Some(_) => idx.len() > best_len || (idx.len() == best_len && cost < best_cost
                        - EPS as i128),
                };
                if better {
                    best = Some(n);
                    best_len = idx.len();
                    best_cost = cost;
                }
                n = n + 1;
            }
            match best {
                Some(b) => {
                    let one: Vec<(usize, usize)> = vec![pairs[b]];
                    proof {
                        assert(one@ =~= seq![pairs@[b as int]]);
                    }
                    self.grow_tree(sc, net, &list, &one, true)
                },
                None => {
                    let none: Vec<usize> = Vec::new();
                    proof {
                        assert(none@ =~= Seq::empty());
                    }
                    none
                },
            }
        };
        let mut out: Vec<Endpoint> = Vec::new();
        let mut n: usize = 0;
        while n < reached.len()
            invariant
                n <= reached.len(),
                endpoints_wf(*sc, list@),
                all_below(reached@, list@.len() as int),
                out@.len() == n,
                forall|i: int| 0 <= i < n ==> #[trigger] out@[i] == list@[reached@[i] as int],
                endpoints_wf(*sc, out@),
            decreases reached.len() - n,
        {
            out.push(copy_endpoint(&list[reached[n]]));
            n = n + 1;
        }
        out
    }
}

} // verus!
