//! The label pass over the signal nets, and the order in which nets are routed.

use vstd::prelude::*;
use crate::canvas::{
    copy_endpoint, label_cramped, list_has, lists, Canvas, Drawing, Endpoint, Scene,
};
use crate::model::NetClass;
use crate::nets::{is_on_root, net_planned, on_root};
use crate::order::{is_text_behind, lemma_sorted_items, sort_by, sorted_by, text_behind};
use crate::pins::{
    endpoints_wf, is_hub_comp, is_pair_net, is_pair_net_static, is_seen, seen, spec_is_hub,
};
use crate::place::SheetNet;
use crate::signals::{
    deduplicated, direct_wire, endpoints_for, lanes_kept, port_stub, Annotation, SignalState,
    Signals, SignalsView,
};
use crate::treelabel::tree_labelled;
use crate::units::Point;

verus! {

// ---------------------------------------------------------------- one net

/// The endpoints among the first `n` that no tree reaches.
pub open spec fn left_over(eps: Seq<Endpoint>, reached: Seq<Point>, n: int) -> Seq<Endpoint>
    decreases n,
{
    if n <= 0 || n > eps.len() {
        Seq::empty()
    } else if seen(reached, eps[n - 1].pos) {
        left_over(eps, reached, n - 1)
    } else {
        left_over(eps, reached, n - 1).push(eps[n - 1])
    }
}

/// Is some endpoint without room for a local label?
pub open spec fn any_cramped(sc: Scene<'_>, d: Drawing, net: Seq<char>, eps: Seq<Endpoint>) -> bool {
    exists|i: int| 0 <= i < eps.len() && label_cramped(sc, d, net, #[trigger] eps[i])
}

/// Is some endpoint on a hub?
pub open spec fn any_on_hub(sc: Scene<'_>, eps: Seq<Endpoint>) -> bool {
    exists|i: int|
        0 <= i < eps.len() && spec_is_hub(
            *sc.cfg,
            sc.design.comps@[sc.model.placed@[(#[trigger] eps[i]).placed as int].comp as int],
        )
}

/// The endpoints among the first `n` that are not at the position.
pub open spec fn away_from(eps: Seq<Endpoint>, p: Point, n: int) -> Seq<Endpoint>
    decreases n,
{
    if n <= 0 || n > eps.len() {
        Seq::empty()
    } else if eps[n - 1].pos == p {
        away_from(eps, p, n - 1)
    } else {
        away_from(eps, p, n - 1).push(eps[n - 1])
    }
}

/// Labels on the first `n` endpoints.
pub open spec fn all_labelled(
    sc: Scene<'_>,
    d: Drawing,
    net: String,
    eps: Seq<Endpoint>,
    global: bool,
    n: int,
) -> Drawing
    decreases n,
{
    if n <= 0 || n > eps.len() {
        d
    } else {
        all_labelled(sc, d, net, eps, global, n - 1).with_label(sc, net, eps[n - 1], global)
    }
}

/// The hierarchical label of a port on one endpoint, where it has none yet; the endpoints that
/// are left over.
pub open spec fn port_labelled(sc: Scene<'_>, d: Drawing, net: SheetNet, eps: Seq<Endpoint>) -> (
    Drawing,
    Seq<Endpoint>,
) {
    match net.port {
        Some(direction) => if on_root(sc) || lists(d.anchored, net.name@) {
            (d, eps)
        } else {
            let s = port_stub(sc, d, net.name@, direction, eps);
            (
                d.anchored_port(s.path, s.at, s.rotation, net.name, direction),
                away_from(eps, eps[s.from as int].pos, eps.len() as int),
            )
        },
        None => (d, eps),
    }
}

/// The labels of the endpoints that no wire reaches. A net with one endpoint in the design gets
/// a global label, and so does a net of two on the root sheet that has no room for local ones.
pub open spec fn rest_labelled(sc: Scene<'_>, d: Drawing, net: SheetNet, rest: Seq<Endpoint>) -> Drawing {
    let cramped = on_root(sc) && net.port is None && net.design_endpoints == 2 && any_cramped(
        sc,
        d,
        net.name@,
        rest,
    );
    let global = net.design_endpoints <= 1 || cramped;
    let (d1, rest1) = port_labelled(sc, d, net, rest);
    let (d2, rest2) = if sc.cfg.dedup_signal_labels && net.port is None && net.design_endpoints == 2
        && rest1.len() >= 2 && !any_on_hub(sc, rest1) {
        deduplicated(sc, d1, net.name, rest1)
    } else {
        (d1, rest1)
    };
    all_labelled(sc, d2, net.name, rest2, global, rest2.len() as int)
}

/// One net: a direct wire between two facing pins, else labels on what no tree reaches.
#[verifier::opaque]
pub open spec fn net_labelled(sc: Scene<'_>, st: SignalState, sn: int) -> SignalState {
    let net = sc.model.nets@[sn];
    let (st1, eps) = endpoints_for(sc, st, sn);
    let direct = direct_wire(sc, st1.d, net, eps);
    let rest = left_over(eps, st1.s.reached[sn], eps.len() as int);
    if eps.len() == 0 {
        st1
    } else if is_pair_net(*sc.cfg, *sc.design, sc.model.placed@, net) && direct is Some {
        SignalState { d: st1.d.wired(direct->0, net.name), s: st1.s }
    } else if rest.len() == 0 {
        st1
    } else {
        SignalState { d: rest_labelled(sc, st1.d, net, rest), s: st1.s }
    }
}

impl Canvas {
    fn label_rest(&mut self, sc: &Scene, net: &SheetNet, rest: Vec<Endpoint>)
        requires
            sc.wf(),
            endpoints_wf(*sc, rest@),
            rest@.len() > 0,
        ensures
            final(self)@ == rest_labelled(*sc, old(self)@, *net, rest@),
    {
        let mut global: bool = net.design_endpoints <= 1;
        if !global && is_on_root(sc) && net.port.is_none() && net.design_endpoints == 2 {
            let mut i: usize = 0;
            let mut cramped: bool = false;
            while i < rest.len()
                invariant
                    i <= rest.len(),
                    sc.wf(),
                    *self == *old(self),
                    cramped == exists|k: int|
                        0 <= k < i && label_cramped(
                            *sc,
                            self@,
                            net.name@,
                            #[trigger] rest@[k],
                        ),
                decreases rest.len() - i,
            {
                if self.local_label_collides(sc, &net.name, &rest[i]) {
                    cramped = true;
                }
                i = i + 1;
            }
            proof {
                assert(cramped == any_cramped(*sc, self@, net.name@, rest@));
            }
            global = cramped;
        }
        let ghost d0 = self@;
        let ghost rest0 = rest@;
        let mut rest: Vec<Endpoint> = rest;
        match net.port {
            Some(direction) => {
                if !is_on_root(sc) && !list_has(&self.port_anchored, &net.name) {
                    let from: usize = self.anchor_port(sc, &net.name, direction, &rest);
                    let at: Point = rest[from].pos;
                    let mut kept: Vec<Endpoint> = Vec::new();
                    let mut i: usize = 0;
                    while i < rest.len()
                        invariant
                            i <= rest.len(),
                            endpoints_wf(*sc, rest@),
                            kept@ == away_from(rest@, at, i as int),
                            endpoints_wf(*sc, kept@),
                        decreases rest.len() - i,
                    {
                        if rest[i].pos != at {
                            kept.push(copy_endpoint(&rest[i]));
                        }
                        i = i + 1;
                    }
                    rest = kept;
                }
            },
            None => {},
        }
        proof {
            assert((self@, rest@) == port_labelled(*sc, d0, *net, rest0));
        }
        if sc.cfg.dedup_signal_labels && net.port.is_none() && net.design_endpoints == 2
            && rest.len() >= 2 && !Canvas::touches_hub(sc, &rest) {
            rest = self.dedup_signal_net(sc, &net.name, rest);
        }
        let ghost d2 = self@;
        let mut i: usize = 0;
        while i < rest.len()
            invariant
                i <= rest.len(),
                sc.wf(),
                self@ == all_labelled(*sc, d2, net.name, rest@, global, i as int),
            decreases rest.len() - i,
        {
            self.emit_label_stub(sc, &net.name, &rest[i], global);
            i = i + 1;
        }
    }

    fn touches_hub(sc: &Scene, eps: &Vec<Endpoint>) -> (r: bool)
        requires
            sc.wf(),
            endpoints_wf(*sc, eps@),
        ensures
            r == any_on_hub(*sc, eps@),
    {
        let mut i: usize = 0;
        while i < eps.len()
            invariant
                i <= eps.len(),
                sc.wf(),
                endpoints_wf(*sc, eps@),
                forall|k: int|
                    0 <= k < i ==> !spec_is_hub(
                        *sc.cfg,
                        sc.design.comps@[sc.model.placed@[(#[trigger] eps@[k]).placed as int].comp as int],
                    ),
            decreases eps.len() - i,
        {
            if is_hub_comp(sc.cfg, sc.design, sc.model.placed[eps[i].placed].comp) {
                return true;
            }
            i = i + 1;
        }
        false
    }

    /// Wire or label what is left of one net.
    pub fn wire_signal_net(&mut self, sc: &Scene, s: &mut Signals, sn: usize)
        requires
            sc.wf(),
            sn < sc.model.nets@.len(),
            old(s)@.wf(*sc),
        ensures
            (SignalState { d: final(self)@, s: final(s)@ }) == net_labelled(
                *sc,
                (SignalState { d: old(self)@, s: old(s)@ }),
                sn as int,
            ),
            final(s)@.wf(*sc),
    {
        proof {
            reveal(net_labelled);
        }
        let net: &SheetNet = &sc.model.nets[sn];
        let eps: Vec<Endpoint> = self.eps_for(sc, s, sn);
        if eps.len() == 0 {
            return;
        }
        proof {
            assert forall|e: int| 0 <= e < net.endpoints@.len() implies (
            #[trigger] net.endpoints@[e]).placed < sc.model.placed@.len() by {
                assert(sc.model.nets@[sn as int].endpoints@[e].placed < sc.model.placed@.len());
            }
        }
        if is_pair_net_static(sc.cfg, sc.design, &sc.model.placed, net) && self.try_direct_wire(
            sc,
            net,
            &eps,
        ) {
            return;
        }
        let mut rest: Vec<Endpoint> = Vec::new();
        let mut i: usize = 0;
        while i < eps.len()
            invariant
                i <= eps.len(),
                sn < s.reached@.len(),
                endpoints_wf(*sc, eps@),
                rest@ == left_over(eps@, s.reached@[sn as int]@, i as int),
                endpoints_wf(*sc, rest@),
            decreases eps.len() - i,
        {
            if !is_seen(&s.reached[sn], eps[i].pos) {
                rest.push(copy_endpoint(&eps[i]));
            }
            i = i + 1;
        }
        if rest.len() == 0 {
            return;
        }
        self.label_rest(sc, net, rest);
    }
}

// ---------------------------------------------------------------- the order of the nets

/// The signal nets among the first `n` that are ports (`ported`), or not, and that are facing
/// pairs (`paired`), or not.
pub open spec fn signal_nets(sc: Scene<'_>, ported: bool, paired: bool, n: int) -> Seq<usize>
    decreases n,
{
    if n <= 0 || n > sc.model.nets@.len() {
        Seq::empty()
    } else {
        let net = sc.model.nets@[n - 1];
        let before = signal_nets(sc, ported, paired, n - 1);
        if net.class == NetClass::Signal && (net.port is Some) == ported && is_pair_net(
            *sc.cfg,
            *sc.design,
            sc.model.placed@,
            net,
        ) == paired {
            before.push((n - 1) as usize)
        } else {
            before
        }
    }
}

/// The nets that get trees and labels: ports last.
pub open spec fn label_order(sc: Scene<'_>) -> Seq<usize> {
    let n = sc.model.nets@.len() as int;
    signal_nets(sc, false, false, n) + signal_nets(sc, true, false, n)
}

/// The nets that join two facing pins.
pub open spec fn pair_order(sc: Scene<'_>) -> Seq<usize> {
    signal_nets(sc, false, true, sc.model.nets@.len() as int)
}

pub open spec fn all_planned(sc: Scene<'_>, st: SignalState, order: Seq<usize>, n: int) -> SignalState
    decreases n,
{
    if n <= 0 || n > order.len() {
        st
    } else {
        net_planned(sc, all_planned(sc, st, order, n - 1), order[n - 1] as int)
    }
}

pub open spec fn all_net_labelled(
    sc: Scene<'_>,
    st: SignalState,
    order: Seq<usize>,
    n: int,
) -> SignalState
    decreases n,
{
    if n <= 0 || n > order.len() {
        st
    } else {
        net_labelled(sc, all_net_labelled(sc, st, order, n - 1), order[n - 1] as int)
    }
}

/// The labels that waited for the trees, as far as there is room.
pub open spec fn annotated(sc: Scene<'_>, d: Drawing, pending: Seq<Annotation>, n: int) -> Drawing
    decreases n,
{
    if n <= 0 || n > pending.len() {
        d
    } else {
        let before = annotated(sc, d, pending, n - 1);
        let a = pending[n - 1];
        match tree_labelled(sc, before, a.net, a.from as int, false, false) {
            Some(d) => d,
            None => before,
        }
    }
}

/// Highest point of the first `n` endpoints.
pub open spec fn top_of(eps: Seq<Endpoint>, n: int) -> int
    decreases n,
{
    if n <= 0 || n > eps.len() {
        i64::MAX as int
    } else if (eps[n - 1].pos.y as int) < top_of(eps, n - 1) {
        eps[n - 1].pos.y as int
    } else {
        top_of(eps, n - 1)
    }
}

/// The stacks of the first `n` nets drawn, and the highest point of each net.
pub open spec fn tops(sc: Scene<'_>, st: SignalState, order: Seq<usize>, n: int) -> (
    SignalState,
    Seq<i64>,
)
    decreases n,
{
    if n <= 0 || n > order.len() {
        (st, Seq::empty())
    } else {
        let before = tops(sc, st, order, n - 1);
        let (st1, eps) = endpoints_for(sc, before.0, order[n - 1] as int);
        (st1, before.1.push(top_of(eps, eps.len() as int) as i64))
    }
}

/// Order of facing pairs: topmost first, then by name.
pub open spec fn pair_after(sc: Scene<'_>, order: Seq<usize>, top: Seq<i64>, a: usize, b: usize) -> bool {
    if top[a as int] != top[b as int] {
        top[a as int] > top[b as int]
    } else {
        text_behind(
            sc.model.nets@[order[a as int] as int].name@,
            sc.model.nets@[order[b as int] as int].name@,
        )
    }
}

#[verifier::opaque]
pub open spec fn pairs_sorted(sc: Scene<'_>, order: Seq<usize>, top: Seq<i64>) -> Seq<usize> {
    let by = sorted_by(
        crate::order::upto(order.len() as int),
        |a: usize, b: usize| pair_after(sc, order, top, a, b),
    );
    Seq::new(by.len(), |i: int| order[by[i] as int])
}

/// All signal nets: lanes, then trees, then labels, then facing pairs.
pub open spec fn signals_routed(sc: Scene<'_>, d: Drawing) -> Drawing {
    let n = sc.model.nets@.len() as int;
    let st0 = lanes_kept(sc, SignalState { d, s: SignalsView::fresh(n) }, n);
    let lo = label_order(sc);
    let po = pair_order(sc);
    let st1 = all_planned(sc, st0, lo, lo.len() as int);
    let st2 = SignalState {
        d: annotated(sc, st1.d, st1.s.pending, st1.s.pending.len() as int),
        s: SignalsView { pending: Seq::empty(), ..st1.s },
    };
    let st3 = all_net_labelled(sc, st2, lo, lo.len() as int);
    let (st4, top) = tops(sc, st3, po, po.len() as int);
    let ps = pairs_sorted(sc, po, top);
    all_net_labelled(sc, st4, ps, ps.len() as int).d
}

pub open spec fn nets_below(sc: Scene<'_>, v: Seq<usize>) -> bool {
    forall|i: int| 0 <= i < v.len() ==> #[trigger] v[i] < sc.model.nets@.len()
}

fn select_nets(sc: &Scene, ported: bool, paired: bool) -> (r: Vec<usize>)
    requires
        sc.wf(),
    ensures
        r@ == signal_nets(*sc, ported, paired, sc.model.nets@.len() as int),
        nets_below(*sc, r@),
{
    let mut out: Vec<usize> = Vec::new();
    let mut n: usize = 0;
    while n < sc.model.nets.len()
        invariant
            n <= sc.model.nets.len(),
            sc.wf(),
            out@ == signal_nets(*sc, ported, paired, n as int),
            nets_below(*sc, out@),
        decreases sc.model.nets.len() - n,
    {
        let net: &SheetNet = &sc.model.nets[n];
        proof {
            assert forall|e: int| 0 <= e < net.endpoints@.len() implies (
            #[trigger] net.endpoints@[e]).placed < sc.model.placed@.len() by {
                assert(sc.model.nets@[n as int].endpoints@[e].placed < sc.model.placed@.len());
            }
        }
        if net.class == NetClass::Signal && net.port.is_some() == ported && is_pair_net_static(
            sc.cfg,
            sc.design,
            &sc.model.placed,
            net,
        ) == paired {
            out.push(n);
        }
        n = n + 1;
    }
    out
}

impl Canvas {
    fn sort_pairs(&mut self, sc: &Scene, s: &mut Signals, order: &Vec<usize>) -> (r: Vec<usize>)
        requires
            sc.wf(),
            nets_below(*sc, order@),
            old(s)@.wf(*sc),
        ensures
            ({
                let t = tops(
                    *sc,
                    (SignalState { d: old(self)@, s: old(s)@ }),
                    order@,
                    order@.len() as int,
                );
                (SignalState { d: final(self)@, s: final(s)@ }) == t.0 && r@ == pairs_sorted(
                    *sc,
                    order@,
                    t.1,
                )
            }),
            final(s)@.wf(*sc),
            nets_below(*sc, r@),
    {
        proof {
            reveal(pairs_sorted);
        }
        let ghost st = SignalState { d: self@, s: s@ };
        let mut top: Vec<i64> = Vec::new();
        let mut n: usize = 0;
        while n < order.len()
            invariant
                n <= order.len(),
                sc.wf(),
                nets_below(*sc, order@),
                s@.wf(*sc),
                top@.len() == n,
                ((SignalState { d: self@, s: s@ }), top@) == tops(*sc, st, order@, n as int),
            decreases order.len() - n,
        {
            let eps: Vec<Endpoint> = self.eps_for(sc, s, order[n]);
            let mut best: i64 = i64::MAX;
            let mut i: usize = 0;
            while i < eps.len()
                invariant
                    i <= eps.len(),
                    best == top_of(eps@, i as int),
                decreases eps.len() - i,
            {
                if (eps[i].pos.y as i64) < best {
                    best = eps[i].pos.y as i64;
                }
                i = i + 1;
            }
            top.push(best);
            n = n + 1;
        }
        let all: Vec<usize> = crate::order::indices(order.len());
        let ghost gt = |a: usize, b: usize| pair_after(*sc, order@, top@, a, b);
        let after = |a: usize, b: usize| -> (r: bool)
            requires
                a < order@.len(),
                b < order@.len(),
                top@.len() == order@.len(),
                nets_below(*sc, order@),
            ensures
                r == pair_after(*sc, order@, top@, a, b),
            {
                proof {
                    assert(order@[a as int] < sc.model.nets@.len());
                    assert(order@[b as int] < sc.model.nets@.len());
                }
                if top[a] != top[b] {
                    top[a] > top[b]
                } else {
                    is_text_behind(&sc.model.nets[order[a]].name, &sc.model.nets[order[b]].name)
                }
            };
        let by: Vec<usize> = sort_by(&all, after, Ghost(gt));
        proof {
            lemma_sorted_items(all@, gt, |i: usize| i < order@.len());
        }
        let mut out: Vec<usize> = Vec::new();
        let mut n: usize = 0;
        while n < by.len()
            invariant
                n <= by.len(),
                nets_below(*sc, order@),
                forall|i: int| 0 <= i < by@.len() ==> #[trigger] by@[i] < order@.len(),
                out@.len() == n,
                forall|i: int| 0 <= i < n ==> #[trigger] out@[i] == order@[by@[i] as int],
                nets_below(*sc, out@),
            decreases by.len() - n,
        {
            out.push(order[by[n]]);
            n = n + 1;
        }
        proof {
            assert(out@ =~= pairs_sorted(*sc, order@, top@));
        }
        out
    }

    fn label_nets(&mut self, sc: &Scene, s: &mut Signals, order: &Vec<usize>)
        requires
            sc.wf(),
            nets_below(*sc, order@),
            old(s)@.wf(*sc),
        ensures
            (SignalState { d: final(self)@, s: final(s)@ }) == all_net_labelled(
                *sc,
                (SignalState { d: old(self)@, s: old(s)@ }),
                order@,
                order@.len() as int,
            ),
            final(s)@.wf(*sc),
    {
        let ghost st = SignalState { d: self@, s: s@ };
        let mut n: usize = 0;
        while n < order.len()
            invariant
                n <= order.len(),
                sc.wf(),
                nets_below(*sc, order@),
                s@.wf(*sc),
                (SignalState { d: self@, s: s@ }) == all_net_labelled(
                    *sc,
                    st,
                    order@,
                    n as int,
                ),
            decreases order.len() - n,
        {
            self.wire_signal_net(sc, s, order[n]);
            n = n + 1;
        }
    }

    /// Route every signal net of the sheet.
    pub fn route_signals(&mut self, sc: &Scene)
        requires
            sc.wf(),
        ensures
            final(self)@ == signals_routed(*sc, old(self)@),
    {
        let mut s: Signals = Signals::new(sc.model.nets.len());
        self.reserve_boundary_lanes(sc, &mut s);
        let mut labels: Vec<usize> = select_nets(sc, false, false);
        let mut ported: Vec<usize> = select_nets(sc, true, false);
        let pairs: Vec<usize> = select_nets(sc, false, true);
        let ghost plain = labels@;
        let ghost more = ported@;
        labels.append(&mut ported);
        proof {
            assert(labels@ =~= plain + more);
            assert(labels@ == label_order(*sc));
            assert(nets_below(*sc, labels@));
        }
        let ghost st0 = SignalState { d: self@, s: s@ };
        let mut n: usize = 0;
        while n < labels.len()
            invariant
                n <= labels.len(),
                sc.wf(),
                nets_below(*sc, labels@),
                s@.wf(*sc),
                (SignalState { d: self@, s: s@ }) == all_planned(*sc, st0, labels@, n as int),
            decreases labels.len() - n,
        {
            self.plan_and_wire_group(sc, &mut s, labels[n]);
            n = n + 1;
        }
        let ghost st1 = SignalState { d: self@, s: s@ };
        let mut pending: Vec<Annotation> = Vec::new();
        std::mem::swap(&mut pending, &mut s.pending);
        let mut n: usize = 0;
        while n < pending.len()
            invariant
                n <= pending.len(),
                sc.wf(),
                pending@ == st1.s.pending,
                self@ == annotated(*sc, st1.d, pending@, n as int),
            decreases pending.len() - n,
        {
            let _ = self.place_tree_net_label(sc, &pending[n].net, pending[n].from, false, false);
            n = n + 1;
        }
        proof {
            assert(s@ == (SignalsView { pending: Seq::empty(), ..st1.s }));
        }
        self.label_nets(sc, &mut s, &labels);
        let sorted: Vec<usize> = self.sort_pairs(sc, &mut s, &pairs);
        self.label_nets(sc, &mut s, &sorted);
    }
}

} // verus!
