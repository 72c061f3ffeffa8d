//! Signal nets one by one: which are wired as trees, which directly, and which get labels.

use vstd::prelude::*;
use crate::canvas::{
    law_rollback_undoes, list_has, lists, Canvas, Drawing, Endpoint, Scene, WiringSnapshot,
};
use crate::grow::{
    adds_wiring, all_below, best_seed, group_tree, law_tree_only_adds, lemma_adds_trans, listed,
    seed_pairs,
};
use crate::order::{indices, rows, upto};
use crate::pins::{endpoints_wf, is_hub_comp, is_seen, seen, spec_is_hub};
use crate::place::SheetNet;
use crate::registry::capped;
use crate::signals::{
    endpoints_for, pick, picked, tree_ported, Annotation, SignalState, Signals, SignalsView,
};
use crate::subsets::{group_wire_subsets, subsets_wf, wire_subsets};
use crate::treelabel::tree_labelled;
use crate::units::Point;
use crate::warning::Warning;
use crate::writer::PortDirection;

verus! {

/// Is this the root sheet?
pub open spec fn on_root(sc: Scene<'_>) -> bool {
    sc.plan.sheets@[sc.model.sheet as int].parent is None
}

pub fn is_on_root(sc: &Scene) -> (r: bool)
    requires
        sc.wf(),
    ensures
        r == on_root(*sc),
{
    sc.plan.sheets[sc.model.sheet].parent.is_none()
}

/// Analog nets are wired as one tree wherever possible.
pub open spec fn is_analog(sc: Scene<'_>, net: SheetNet) -> bool {
    !sc.design.nets@[net.net as int].digital
}

// ---------------------------------------------------------------- which endpoints to wire

pub open spec fn placed_list(eps: Seq<Endpoint>) -> Seq<usize> {
    Seq::new(eps.len(), |i: int| eps[i].placed)
}

pub open spec fn hub_list(sc: Scene<'_>) -> Seq<bool> {
    Seq::new(
        sc.model.placed@.len(),
        |i: int| spec_is_hub(*sc.cfg, sc.design.comps@[sc.model.placed@[i].comp as int]),
    )
}

pub open spec fn root_list(sc: Scene<'_>) -> Seq<usize> {
    Seq::new(sc.model.placed@.len(), |i: int| sc.model.placed@[i].group_root)
}

pub open spec fn refdes_list(sc: Scene<'_>) -> Seq<String> {
    Seq::new(
        sc.model.placed@.len(),
        |i: int| sc.design.comps@[sc.model.placed@[i].comp as int].refdes,
    )
}

/// The sets of endpoints that are joined by wires: all of an analog net, else by groups.
pub open spec fn group_sets(sc: Scene<'_>, eps: Seq<Endpoint>, analog: bool) -> Seq<Seq<usize>> {
    if !analog {
        wire_subsets(placed_list(eps), hub_list(sc), root_list(sc), refdes_list(sc))
    } else if eps.len() >= 2 {
        seq![upto(eps.len() as int)]
    } else {
        Seq::empty()
    }
}

pub fn group_subsets(sc: &Scene, eps: &Vec<Endpoint>, analog: bool) -> (r: Vec<Vec<usize>>)
    requires
        sc.wf(),
        endpoints_wf(*sc, eps@),
    ensures
        rows(r@) == group_sets(*sc, eps@, analog),
        subsets_wf(rows(r@), eps@.len() as int),
{
    if analog {
        let mut out: Vec<Vec<usize>> = Vec::new();
        if eps.len() >= 2 {
            out.push(indices(eps.len()));
        }
        proof {
            assert(rows(out@) =~= group_sets(*sc, eps@, analog));
        }
        return out;
    }
    let mut placed: Vec<usize> = Vec::new();
    let mut n: usize = 0;
    while n < eps.len()
        invariant
            n <= eps.len(),
            placed@ =~= placed_list(eps@).take(n as int),
        decreases eps.len() - n,
    {
        placed.push(eps[n].placed);
        n = n + 1;
    }
    let mut hub: Vec<bool> = Vec::new();
    let mut root: Vec<usize> = Vec::new();
    let mut refdes: Vec<String> = Vec::new();
    let mut n: usize = 0;
    while n < sc.model.placed.len()
        invariant
            n <= sc.model.placed.len(),
            sc.wf(),
            hub@ =~= hub_list(*sc).take(n as int),
            root@ =~= root_list(*sc).take(n as int),
            refdes@ =~= refdes_list(*sc).take(n as int),
        decreases sc.model.placed.len() - n,
    {
        let ci: usize = sc.model.placed[n].comp;
        hub.push(is_hub_comp(sc.cfg, sc.design, ci));
        root.push(sc.model.placed[n].group_root);
        refdes.push(sc.design.comps[ci].refdes.clone());
        n = n + 1;
    }
    proof {
        assert(placed@ =~= placed_list(eps@));
        assert(hub@ =~= hub_list(*sc));
        assert(root@ =~= root_list(*sc));
        assert(refdes@ =~= refdes_list(*sc));
        assert forall|i: int| 0 <= i < placed@.len() implies #[trigger] placed@[i] < hub@.len()
            && placed@[i] < root@.len() by {
            assert(eps@[i].placed < sc.model.placed@.len());
        }
        assert forall|i: int| 0 <= i < root@.len() implies #[trigger] root@[i] < refdes@.len() by {
            assert(sc.model.placed@[i].group_root < sc.model.placed@.len());
        }
    }
    group_wire_subsets(&placed, &hub, &root, &refdes)
}

// ---------------------------------------------------------------- trees of a net

/// A net while its sets of endpoints are wired.
pub struct GroupState {
    pub d: Drawing,
    pub pending: Seq<Annotation>,
    pub reached: Seq<Point>,
    pub count: usize,
}

pub open spec fn end_points(eps: Seq<Endpoint>) -> Seq<Point> {
    Seq::new(eps.len(), |i: int| eps[i].pos)
}

/// The hierarchical label on the tree, where the net is a port that has none yet.
pub open spec fn port_step(
    sc: Scene<'_>,
    before: Drawing,
    tree: Drawing,
    net: SheetNet,
    wired: Seq<Endpoint>,
    analog: bool,
) -> Option<Drawing> {
    match net.port {
        Some(direction) => if on_root(sc) || lists(before.anchored, net.name@) {
            None
        } else {
            tree_ported(
                sc,
                tree,
                net.name,
                direction,
                wired,
                before.reg.segs.len() as int,
                analog,
            )
        },
        None => None,
    }
}

/// One set of endpoints wired as a tree and labelled as far as it needs to be. A tree of fewer
/// than two endpoints, or one without room for a label that it needs, is not drawn.
pub open spec fn subset_wired(
    sc: Scene<'_>,
    g: GroupState,
    net: SheetNet,
    eps: Seq<Endpoint>,
    subset: Seq<usize>,
    analog: bool,
    many: bool,
) -> GroupState {
    let from = g.d.reg.segs.len();
    let sub = picked(eps, subset);
    let t = group_tree(sc, g.d, sub, net.name, analog);
    let wired = picked(listed(sc, sub), t.1);
    if wired.len() < 2 {
        g
    } else {
        let ported = port_step(sc, g.d, t.0, net, wired, analog);
        let d1 = match ported {
            Some(d) => d,
            None => t.0,
        };
        let needs = eps.len() > g.count + wired.len() || net.on_child_blocks || (net.port is Some
            && !on_root(sc) && ported is None) || many;
        let labelled = tree_labelled(sc, d1, net.name, from as int, !analog, analog);
        let reached = g.reached + end_points(wired);
        let count = capped((g.count + wired.len()) as nat);
        if needs {
            match labelled {
                Some(d) => GroupState { d, pending: g.pending, reached, count },
                None => g,
            }
        } else if analog {
            GroupState {
                d: d1,
                pending: g.pending.push(Annotation { net: net.name, from: from as usize }),
                reached,
                count,
            }
        } else {
            GroupState { d: d1, pending: g.pending, reached, count }
        }
    }
}

/// The first `n` sets of endpoints.
pub open spec fn subsets_wired(
    sc: Scene<'_>,
    g: GroupState,
    net: SheetNet,
    eps: Seq<Endpoint>,
    sets: Seq<Seq<usize>>,
    analog: bool,
    n: int,
) -> GroupState
    decreases n,
{
    if n <= 0 || n > sets.len() {
        g
    } else {
        subset_wired(
            sc,
            subsets_wired(sc, g, net, eps, sets, analog, n - 1),
            net,
            eps,
            sets[n - 1],
            analog,
            sets.len() > 1,
        )
    }
}

/// Was some endpoint of a small component left out?
pub open spec fn broke_small(sc: Scene<'_>, eps: Seq<Endpoint>, reached: Seq<Point>) -> bool {
    exists|i: int|
        0 <= i < eps.len() && !seen(reached, (#[trigger] eps[i]).pos)
            && sc.design.comps@[sc.model.placed@[eps[i].placed as int].comp as int].visible_pins
            <= sc.cfg.analog_break_pin_count
}

/// The trees of one net.
#[verifier::opaque]
pub open spec fn net_planned(sc: Scene<'_>, st: SignalState, sn: int) -> SignalState {
    let net = sc.model.nets@[sn];
    let analog = is_analog(sc, net);
    let (st1, eps) = endpoints_for(sc, st, sn);
    let sets = group_sets(sc, eps, analog);
    if sets.len() == 0 {
        st1
    } else {
        let g0 = GroupState {
            d: st1.d,
            pending: st1.s.pending,
            reached: Seq::empty(),
            count: 0,
        };
        let g = subsets_wired(sc, g0, net, eps, sets, analog, sets.len() as int);
        let broken = analog && g.count < eps.len() && (broke_small(sc, eps, g.reached) || g.count
            == 0);
        SignalState {
            d: if broken {
                g.d.warned(
                    Warning::AnalogBroken {
                        net: net.name,
                        wired: g.count,
                        total: eps.len() as usize,
                    },
                )
            } else {
                g.d
            },
            s: SignalsView {
                pending: g.pending,
                reached: st1.s.reached.update(sn, g.reached),
                ..st1.s
            },
        }
    }
}

pub proof fn lemma_group_tree_adds(
    sc: Scene<'_>,
    d: Drawing,
    sub: Seq<Endpoint>,
    net: String,
    analog: bool,
)
    ensures
        adds_wiring(group_tree(sc, d, sub, net, analog).0, d),
{
    let list = listed(sc, sub);
    let pairs = seed_pairs(list);
    if !analog {
        law_tree_only_adds(sc, d, list, pairs, net, false);
    } else {
        match best_seed(sc, d, list, pairs, net, pairs.len() as int) {
            Some(b) => {
                law_tree_only_adds(sc, d, list, seq![pairs[b]], net, true);
            },
            None => {},
        }
    }
}

/// `after` is `before` with wiring added, and with one more port anchored.
pub open spec fn adds_port(after: Drawing, before: Drawing) -> bool {
    after.extends_wiring(before) && after.anchored.len() == before.anchored.len() + 1
        && before.anchored == after.anchored.drop_last() && (Drawing {
        anchored: before.anchored,
        ..after
    }).same_rest(before)
}

pub proof fn lemma_port_adds(
    sc: Scene<'_>,
    d: Drawing,
    net: String,
    direction: PortDirection,
    eps: Seq<Endpoint>,
    from: int,
    analog: bool,
    base: Drawing,
)
    requires
        adds_wiring(d, base),
    ensures
        match tree_ported(sc, d, net, direction, eps, from, analog) {
            Some(r) => adds_port(r, base),
            None => true,
        },
{
    match tree_ported(sc, d, net, direction, eps, from, analog) {
        Some(r) => {
            let w = Drawing { anchored: d.anchored, ..r };
            assert(adds_wiring(w, d)) by {
                assert(d.wires.is_prefix_of(w.wires));
                assert(d.reg.segs.is_prefix_of(w.reg.segs));
                assert(d.junctions.is_prefix_of(w.junctions));
                assert(d.hier_labels.is_prefix_of(w.hier_labels));
                assert(d.reg.label_boxes.is_prefix_of(w.reg.label_boxes));
            }
            lemma_adds_trans(base, d, w);
            assert(r.anchored.drop_last() =~= d.anchored);
        },
        None => {},
    }
}

impl Canvas {
    fn undo_tree(&mut self, undo: &WiringSnapshot, ported: bool, before: Ghost<Drawing>)
        requires
            before@.marks(*undo),
            ported ==> adds_port(old(self)@, before@),
            !ported ==> adds_wiring(old(self)@, before@),
        ensures
            final(self)@ == before@,
    {
        if ported {
            let ghost now = self@;
            self.port_anchored.pop();
            proof {
                assert(self@ == (Drawing { anchored: before@.anchored, ..now }));
            }
        }
        proof {
            law_rollback_undoes(before@, self@, *undo);
        }
        self.rollback_wiring(undo);
    }

    fn wire_subset(
        &mut self,
        sc: &Scene,
        net: &SheetNet,
        eps: &Vec<Endpoint>,
        subset: &Vec<usize>,
        analog: bool,
        many: bool,
        pending: &mut Vec<Annotation>,
        reached: &mut Vec<Point>,
        count: usize,
    ) -> (r: usize)
        requires
            sc.wf(),
            endpoints_wf(*sc, eps@),
            all_below(subset@, eps@.len() as int),
        ensures
            (GroupState {
                d: final(self)@,
                pending: final(pending)@,
                reached: final(reached)@,
                count: r,
            }) == subset_wired(
                *sc,
                (GroupState {
                    d: old(self)@,
                    pending: old(pending)@,
                    reached: old(reached)@,
                    count,
                }),
                *net,
                eps@,
                subset@,
                analog,
                many,
            ),
    {
        let ghost d0 = self@;
        let ghost g0 = GroupState { d: d0, pending: pending@, reached: reached@, count };
        let undo: WiringSnapshot = self.snapshot_wiring();
        let from: usize = self.reg.segs.len();
        let sub: Vec<Endpoint> = pick(sc, eps, subset);
        let wired: Vec<Endpoint> = self.wire_group_tree(sc, &net.name, &sub, analog);
        let ghost t = group_tree(*sc, d0, sub@, net.name, analog);
        proof {
            lemma_group_tree_adds(*sc, d0, sub@, net.name, analog);
            assert(wired@ =~= picked(listed(*sc, sub@), t.1));
        }
        if wired.len() < 2 {
            self.undo_tree(&undo, false, Ghost(d0));
            return count;
        }
        let root: bool = is_on_root(sc);
        let mut ported: bool = false;
        match net.port {
            Some(direction) => {
                if !root && !list_has(&self.port_anchored, &net.name) {
                    proof {
                        lemma_port_adds(
                            *sc,
                            t.0,
                            net.name,
                            direction,
                            wired@,
                            from as int,
                            analog,
                            d0,
                        );
                    }
                    ported = self.place_tree_hier_label(
                        sc,
                        &net.name,
                        direction,
                        &wired,
                        from,
                        analog,
                    );
                }
            },
            None => {},
        }
        let ghost d1 = self@;
        let total: u128 = count as u128 + wired.len() as u128;
        let needs: bool = eps.len() as u128 > total || net.on_child_blocks || (net.port.is_some()
            && !root && !ported) || many;
        if needs {
            if !self.place_tree_net_label(sc, &net.name, from, !analog, analog) {
                self.undo_tree(&undo, ported, Ghost(d0));
                return count;
            }
        } else if analog {
            pending.push(Annotation { net: net.name.clone(), from });
        }
        let ghost r0 = reached@;
        let mut n: usize = 0;
        proof {
            assert(r0 =~= r0 + end_points(wired@).take(0));
        }
        while n < wired.len()
            invariant
                n <= wired.len(),
                reached@ == r0 + end_points(wired@).take(n as int),
            decreases wired.len() - n,
        {
            reached.push(wired[n].pos);
            n = n + 1;
            proof {
                assert(reached@ =~= r0 + end_points(wired@).take(n as int));
            }
        }
        proof {
            assert(end_points(wired@).take(n as int) =~= end_points(wired@));
        }
        if total > usize::MAX as u128 {
            usize::MAX
        } else {
            total as usize
        }
    }

    fn some_small_left(&self, sc: &Scene, eps: &Vec<Endpoint>, reached: &Vec<Point>) -> (r: bool)
        requires
            sc.wf(),
            endpoints_wf(*sc, eps@),
        ensures
            r == broke_small(*sc, eps@, reached@),
    {
        let mut n: usize = 0;
        while n < eps.len()
            invariant
                n <= eps.len(),
                sc.wf(),
                endpoints_wf(*sc, eps@),
                forall|i: int|
                    0 <= i < n ==> !(!seen(reached@, (#[trigger] eps@[i]).pos)
                        && sc.design.comps@[sc.model.placed@[eps@[i].placed as int].comp as int].visible_pins
                        <= sc.cfg.analog_break_pin_count),
            decreases eps.len() - n,
        {
            if !is_seen(reached, eps[n].pos)
                && sc.design.comps[sc.model.placed[eps[n].placed].comp].visible_pins
                <= sc.cfg.analog_break_pin_count {
                return true;
            }
            n = n + 1;
        }
        false
    }

    /// Wire the sets of endpoints of one net as trees.
    pub fn plan_and_wire_group(&mut self, sc: &Scene, s: &mut Signals, sn: usize)
        requires
            sc.wf(),
            sn < sc.model.nets@.len(),
            old(s)@.wf(*sc),
        ensures
            (SignalState { d: final(self)@, s: final(s)@ }) == net_planned(
                *sc,
                (SignalState { d: old(self)@, s: old(s)@ }),
                sn as int,
            ),
            final(s)@.wf(*sc),
    {
        proof {
            reveal(net_planned);
        }
        let net: &SheetNet = &sc.model.nets[sn];
        let analog: bool = !sc.design.nets[net.net].digital;
        let eps: Vec<Endpoint> = self.eps_for(sc, s, sn);
        let ghost st1 = SignalState { d: self@, s: s@ };
        let sets: Vec<Vec<usize>> = group_subsets(sc, &eps, analog);
        let ghost all = rows(sets@);
        if sets.len() == 0 {
            return;
        }
        let mut reached: Vec<Point> = Vec::new();
        let mut count: usize = 0;
        let ghost g0 = GroupState {
            d: self@,
            pending: s@.pending,
            reached: Seq::empty(),
            count: 0,
        };
        let mut pending: Vec<Annotation> = Vec::new();
        std::mem::swap(&mut pending, &mut s.pending);
        let mut n: usize = 0;
        while n < sets.len()
            invariant
                n <= sets.len(),
                sc.wf(),
                endpoints_wf(*sc, eps@),
                all == rows(sets@),
                subsets_wf(all, eps@.len() as int),
                (GroupState { d: self@, pending: pending@, reached: reached@, count })
                    == subsets_wired(*sc, g0, *net, eps@, all, analog, n as int),
            decreases sets.len() - n,
        {
            proof {
                assert(all[n as int] == sets@[n as int]@);
                assert forall|j: int| 0 <= j < sets@[n as int]@.len() implies #[trigger] sets@[n as int]@[j]
                    < eps@.len() by {
                    assert(all[n as int][j] < eps@.len());
                }
            }
            count = self.wire_subset(
                sc,
                net,
                &eps,
                &sets[n],
                analog,
                sets.len() > 1,
                &mut pending,
                &mut reached,
                count,
            );
            n = n + 1;
        }
        if analog && count < eps.len() && (self.some_small_left(sc, &eps, &reached) || count == 0) {
            self.warn(
                Warning::AnalogBroken { net: net.name.clone(), wired: count, total: eps.len() },
            );
        }
        let ghost old_reached = s.reached@;
        let ghost new_reached = reached@;
        s.pending = pending;
        s.reached.set(sn, reached);
        proof {
            assert(s@.reached =~= st1.s.reached.update(sn as int, new_reached));
            assert(s@.cache =~= st1.s.cache);
        }
    }
}

} // verus!
