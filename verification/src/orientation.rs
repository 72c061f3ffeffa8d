//! Rotation and mirroring of components, so that their pins face what they are wired to.

use vstd::prelude::*;
use crate::config::SchConfig;
use crate::geometry::{overlaps, spec_overlaps, BBox, MirrorAxis, SymbolGeom};
use crate::model::{DesignModel, NetClass, Role};
use crate::order::rows;
use crate::pins::{
    drawn_pad, drawn_pad_at, geom_of, is_hub_comp, is_seen, pad_at, pad_dir, pad_outward,
    pad_position, seen, spec_is_hub,
};
use crate::place::{
    body_of, find_pin_net, is_rotatable, pin_net, placed_wf, raw_box_of, rotatable, solid_box_for,
    solid_of, PlacedComp, SheetNet, SheetPad,
};
use crate::registry::{is_leg, sweep, sweep_of, Corridor, CorridorZone, NetBox};
use crate::subsets::{group_wire_subsets, subsets_wf, wire_subsets};
use crate::texts::{board_corridors, nets_wf, other_end, power_stub_corridors, Board, BoardView};
use crate::units::{gap, meet, spec_gap, Point, EPS};
use crate::wiring::{
    mk_span, pair_paths, path_length, path_length_mm, paths, point_on_seg, seg_intersects_box,
    span, spec_cuts, spec_on, tree_pair_candidates, Span,
};

verus! {

// ---------------------------------------------------------------- can two pins be joined?

/// A drawn pin of the component that lies on the run, but for the two that are joined.
pub open spec fn pin_in_way(b: BoardView, pi: int, n: int, s: Span, p: Point, q: Point) -> bool {
    let pin = geom_of(b.design, b.placed[pi]).pins@[n];
    !pin.hidden && match pad_position(b.design, b.placed[pi], pin.number@) {
        Some(at) => at != p && at != q && spec_on(at.x as int, at.y as int, s),
        None => false,
    }
}

/// Some pin of the component lies on the run.
pub open spec fn comp_in_way(b: BoardView, pi: int, s: Span, p: Point, q: Point) -> bool {
    exists|n: int|
        0 <= n < geom_of(b.design, b.placed[pi]).pins@.len() && #[trigger] pin_in_way(
            b,
            pi,
            n,
            s,
            p,
            q,
        )
}

/// The run passes no body, no power connection of another net, and no pin but its two ends.
pub open spec fn run_free(
    b: BoardView,
    s: Span,
    net: Seq<char>,
    corridors: Seq<NetBox>,
    p: Point,
    q: Point,
) -> bool {
    &&& forall|i: int|
        0 <= i < b.placed.len() ==> !spec_overlaps(body_of(b.design, #[trigger] b.placed[i]), sweep(s))
    &&& forall|i: int|
        0 <= i < corridors.len() ==> (#[trigger] corridors[i]).net@ == net || !spec_cuts(
            s,
            corridors[i].bbox,
        )
    &&& forall|i: int| 0 <= i < b.placed.len() ==> !#[trigger] comp_in_way(b, i, s, p, q)
}

/// The path is short enough, and every leg of it is free.
pub open spec fn path_free(
    b: BoardView,
    path: Seq<Point>,
    net: Seq<char>,
    corridors: Seq<NetBox>,
    p: Point,
    q: Point,
) -> bool {
    path_length(path) <= b.cfg.orient_probe_reach_mm + EPS && forall|i: int|
        #[trigger] is_leg(path, i) ==> run_free(
            b,
            span(path[i], path[i + 1]),
            net,
            corridors,
            p,
            q,
        )
}

/// Some wire could join the two pins.
pub open spec fn routable(
    b: BoardView,
    p: (Point, Point),
    q: (Point, Point),
    net: Seq<char>,
    corridors: Seq<NetBox>,
) -> bool {
    let ps = pair_paths(b.cfg.grid_mm as int, p, q);
    exists|k: int| 0 <= k < ps.len() && path_free(b, #[trigger] ps[k], net, corridors, p.0, q.0)
}

fn is_comp_in_way(b: &Board, pi: usize, s: &Span, p: Point, q: Point) -> (r: bool)
    requires
        b.wf(),
        pi < b.placed@.len(),
    ensures
        r == comp_in_way(b@, pi as int, *s, p, q),
{
    let pc: &PlacedComp = &b.placed[pi];
    let geom: &SymbolGeom = &b.design.comps[pc.comp].geom;
    let mut n: usize = 0;
    while n < geom.pins.len()
        invariant
            n <= geom.pins.len(),
            b.wf(),
            pi < b.placed@.len(),
            *pc == b.placed@[pi as int],
            *geom == geom_of(*b.design, *pc),
            forall|k: int| 0 <= k < n ==> !#[trigger] pin_in_way(b@, pi as int, k, *s, p, q),
        decreases geom.pins.len() - n,
    {
        if !geom.pins[n].hidden {
            match pad_at(b.design, pc, &geom.pins[n].number.show()) {
                Some(at) => {
                    if at != p && at != q && point_on_seg(at.x, at.y, s) {
                        proof {
                            assert(pin_in_way(b@, pi as int, n as int, *s, p, q));
                        }
                        return true;
                    }
                },
                None => {},
            }
        }
        n = n + 1;
    }
    false
}

fn is_run_free(b: &Board, s: &Span, net: &String, corridors: &Vec<NetBox>, p: Point, q: Point) -> (r:
    bool)
    requires
        b.wf(),
    ensures
        r == run_free(b@, *s, net@, corridors@, p, q),
{
    let swept: BBox = sweep_of(s);
    let ghost bv = b@;
    let mut i: usize = 0;
    while i < b.placed.len()
        invariant
            i <= b.placed.len(),
            b.wf(),
            bv == b@,
            swept == sweep(*s),
            forall|k: int|
                0 <= k < i ==> !spec_overlaps(
                    body_of(bv.design, #[trigger] bv.placed[k]),
                    sweep(*s),
                ),
        decreases b.placed.len() - i,
    {
        let body: BBox = raw_box_of(b.design, &b.placed[i]);
        if overlaps(&body, &swept) {
            proof {
                assert(spec_overlaps(body_of(bv.design, bv.placed[i as int]), sweep(*s)));
            }
            return false;
        }
        i = i + 1;
    }
    let mut i: usize = 0;
    while i < corridors.len()
        invariant
            i <= corridors.len(),
            forall|k: int|
                0 <= k < i ==> (#[trigger] corridors@[k]).net@ == net@ || !spec_cuts(
                    *s,
                    corridors@[k].bbox,
                ),
        decreases corridors.len() - i,
    {
        if corridors[i].net != *net && seg_intersects_box(s, &corridors[i].bbox) {
            return false;
        }
        i = i + 1;
    }
    let mut i: usize = 0;
    while i < b.placed.len()
        invariant
            i <= b.placed.len(),
            b.wf(),
            bv == b@,
            forall|k: int| 0 <= k < i ==> !#[trigger] comp_in_way(bv, k, *s, p, q),
        decreases b.placed.len() - i,
    {
        if is_comp_in_way(b, i, s, p, q) {
            return false;
        }
        i = i + 1;
    }
    true
}

/// Could some wire join the two pins, as far as the placement shows?
pub fn probe_routable(
    b: &Board,
    p: (Point, Point),
    q: (Point, Point),
    net: &String,
    corridors: &Vec<NetBox>,
) -> (r: bool)
    requires
        b.wf(),
    ensures
        r == routable(b@, p, q, net@, corridors@),
{
    let ps: Vec<Vec<Point>> = tree_pair_candidates(b.cfg, p, q);
    let ghost all = paths(ps@);
    let reach: i128 = b.cfg.orient_probe_reach_mm as i128 + EPS as i128;
    let mut k: usize = 0;
    while k < ps.len()
        invariant
            k <= ps.len(),
            b.wf(),
            all == paths(ps@),
            all == pair_paths(b.cfg.grid_mm as int, p, q),
            reach == b.cfg.orient_probe_reach_mm + EPS,
            forall|j: int|
                0 <= j < k ==> !path_free(b@, #[trigger] all[j], net@, corridors@, p.0, q.0),
        decreases ps.len() - k,
    {
        let path: &Vec<Point> = &ps[k];
        proof {
            assert(all[k as int] == path@);
        }
        let mut free: bool = path_length_mm(path) <= reach;
        let mut i: usize = 0;
        if path.len() > 0 {
            while i < path.len() - 1
                invariant
                    path@.len() > 0,
                    i <= path.len() - 1,
                    b.wf(),
                    reach == b.cfg.orient_probe_reach_mm + EPS,
                    free == (path_length(path@) <= reach && forall|j: int|
                        0 <= j < i && #[trigger] is_leg(path@, j) ==> run_free(
                            b@,
                            span(path@[j], path@[j + 1]),
                            net@,
                            corridors@,
                            p.0,
                            q.0,
                        )),
                decreases path.len() - i,
            {
                if !meet(path[i], path[i + 1]) {
                    let s: Span = mk_span(path[i], path[i + 1]);
                    proof {
                        assert(is_leg(path@, i as int));
                    }
                    if !is_run_free(b, &s, net, corridors, p.0, q.0) {
                        free = false;
                    }
                }
                i = i + 1;
            }
        }
        proof {
            assert(free == path_free(b@, path@, net@, corridors@, p.0, q.0));
        }
        if free {
            return true;
        }
        k = k + 1;
    }
    false
}

// ---------------------------------------------------------------- which pins are to be joined

/// The drawn endpoints of a net, one for each position, with those positions.
pub open spec fn net_pads(b: BoardView, net: SheetNet, n: int) -> (Seq<SheetPad>, Seq<Point>)
    decreases n,
{
    if n <= 0 || n > net.endpoints@.len() {
        (Seq::empty(), Seq::empty())
    } else {
        let before = net_pads(b, net, n - 1);
        let e = net.endpoints@[n - 1];
        match drawn_pad(b.design, b.placed[e.placed as int], e.pad@) {
            Some((pos, _)) => if seen(before.1, pos) {
                before
            } else {
                (before.0.push(SheetPad { placed: e.placed, pad: e.pad }), before.1.push(pos))
            },
            None => before,
        }
    }
}

pub open spec fn pads_placed(pads: Seq<SheetPad>) -> Seq<usize> {
    Seq::new(pads.len(), |i: int| pads[i].placed)
}

pub open spec fn board_hubs(b: BoardView) -> Seq<bool> {
    Seq::new(
        b.placed.len(),
        |i: int| spec_is_hub(b.cfg, b.design.comps@[b.placed[i].comp as int]),
    )
}

pub open spec fn board_roots(b: BoardView) -> Seq<usize> {
    Seq::new(b.placed.len(), |i: int| b.placed[i].group_root)
}

pub open spec fn board_refs(b: BoardView) -> Seq<String> {
    Seq::new(b.placed.len(), |i: int| b.design.comps@[b.placed[i].comp as int].refdes)
}

/// The members among the first `n` of the set that are on other components than member `i`.
pub open spec fn partners_of(pads: Seq<SheetPad>, set: Seq<usize>, i: usize, n: int) -> Seq<SheetPad>
    decreases n,
{
    if n <= 0 || n > set.len() {
        Seq::empty()
    } else {
        let before = partners_of(pads, set, i, n - 1);
        let o = set[n - 1];
        if o != i && pads[o as int].placed != pads[i as int].placed {
            before.push(pads[o as int])
        } else {
            before
        }
    }
}

/// A pad and the pads that it is to be joined to.
#[derive(Debug)]
pub struct Target {
    pub placed: usize,
    pub pad: String,
    pub partners: Vec<SheetPad>,
}

pub struct TargetView {
    pub placed: usize,
    pub pad: String,
    pub partners: Seq<SheetPad>,
}

impl View for Target {
    type V = TargetView;

    open spec fn view(&self) -> TargetView {
        TargetView { placed: self.placed, pad: self.pad, partners: self.partners@ }
    }
}

pub open spec fn target_views(v: Seq<Target>) -> Seq<TargetView> {
    Seq::new(v.len(), |i: int| v[i]@)
}

/// The targets of the first `n` members of a set.
pub open spec fn set_targets(pads: Seq<SheetPad>, set: Seq<usize>, n: int) -> Seq<TargetView>
    decreases n,
{
    if n <= 0 || n > set.len() {
        Seq::empty()
    } else {
        let before = set_targets(pads, set, n - 1);
        let i = set[n - 1];
        let partners = partners_of(pads, set, i, set.len() as int);
        if partners.len() == 0 {
            before
        } else {
            before.push(
                TargetView {
                    placed: pads[i as int].placed,
                    pad: pads[i as int].pad,
                    partners,
                },
            )
        }
    }
}

/// The targets of the first `n` sets.
pub open spec fn sets_targets(pads: Seq<SheetPad>, sets: Seq<Seq<usize>>, n: int) -> Seq<TargetView>
    decreases n,
{
    if n <= 0 || n > sets.len() {
        Seq::empty()
    } else {
        sets_targets(pads, sets, n - 1) + set_targets(
            pads,
            sets[n - 1],
            sets[n - 1].len() as int,
        )
    }
}

pub open spec fn net_targets(b: BoardView, net: SheetNet) -> Seq<TargetView> {
    if net.class != NetClass::Signal {
        Seq::empty()
    } else {
        let pads = net_pads(b, net, net.endpoints@.len() as int).0;
        let sets = wire_subsets(pads_placed(pads), board_hubs(b), board_roots(b), board_refs(b));
        sets_targets(pads, sets, sets.len() as int)
    }
}

/// The targets of the first `n` nets.
pub open spec fn tree_targets(b: BoardView, n: int) -> Seq<TargetView>
    decreases n,
{
    if n <= 0 || n > b.nets.len() {
        Seq::empty()
    } else {
        tree_targets(b, n - 1) + net_targets(b, b.nets[n - 1])
    }
}

pub open spec fn roots_wf(placed: Seq<PlacedComp>) -> bool {
    forall|i: int| 0 <= i < placed.len() ==> (#[trigger] placed[i]).group_root < placed.len()
}

/// Targets and partners are pads of placed components.
pub open spec fn targets_wf(ts: Seq<TargetView>, n: int) -> bool {
    forall|i: int, j: int|
        0 <= i < ts.len() && 0 <= j < ts[i].partners.len() ==> (
        #[trigger] ts[i].partners[j]).placed < n
}

pub open spec fn pads_wf(pads: Seq<SheetPad>, n: int) -> bool {
    forall|i: int| 0 <= i < pads.len() ==> (#[trigger] pads[i]).placed < n
}

fn find_net_pads(b: &Board, net: &SheetNet) -> (r: Vec<SheetPad>)
    requires
        b.wf(),
        forall|e: int|
            0 <= e < net.endpoints@.len() ==> (#[trigger] net.endpoints@[e]).placed
                < b.placed@.len(),
    ensures
        r@ == net_pads(b@, *net, net.endpoints@.len() as int).0,
        pads_wf(r@, b.placed@.len() as int),
{
    let mut pads: Vec<SheetPad> = Vec::new();
    let mut met: Vec<Point> = Vec::new();
    let mut n: usize = 0;
    while n < net.endpoints.len()
        invariant
            n <= net.endpoints.len(),
            b.wf(),
            forall|e: int|
                0 <= e < net.endpoints@.len() ==> (#[trigger] net.endpoints@[e]).placed
                    < b.placed@.len(),
            (pads@, met@) == net_pads(b@, *net, n as int),
            pads_wf(pads@, b.placed@.len() as int),
        decreases net.endpoints.len() - n,
    {
        let placed: usize = net.endpoints[n].placed;
        let pad: &String = &net.endpoints[n].pad;
        match drawn_pad_at(b.design, &b.placed[placed], pad) {
            Some((pos, _)) => {
                if !is_seen(&met, pos) {
                    pads.push(SheetPad { placed, pad: pad.clone() });
                    met.push(pos);
                }
            },
            None => {},
        }
        n = n + 1;
    }
    pads
}

fn push_set_targets(pads: &[SheetPad], set: &Vec<usize>, out: &mut Vec<Target>, Ghost(top): Ghost<
    int,
>)
    requires
        pads_wf(pads@, top),
        forall|i: int| 0 <= i < set@.len() ==> #[trigger] set@[i] < pads@.len(),
        targets_wf(target_views(old(out)@), top),
    ensures
        target_views(final(out)@) == target_views(old(out)@) + set_targets(
            pads@,
            set@,
            set@.len() as int,
        ),
        targets_wf(target_views(final(out)@), top),
{
    let ghost o0 = target_views(out@);
    let mut n: usize = 0;
    proof {
        assert(o0 =~= o0 + set_targets(pads@, set@, 0));
    }
    while n < set.len()
        invariant
            n <= set.len(),
            pads_wf(pads@, top),
            forall|i: int| 0 <= i < set@.len() ==> #[trigger] set@[i] < pads@.len(),
            target_views(out@) == o0 + set_targets(pads@, set@, n as int),
            targets_wf(target_views(out@), top),
        decreases set.len() - n,
    {
        let i: usize = set[n];
        let mut partners: Vec<SheetPad> = Vec::new();
        let mut k: usize = 0;
        while k < set.len()
            invariant
                k <= set.len(),
                i < pads@.len(),
                pads_wf(pads@, top),
                forall|i: int| 0 <= i < set@.len() ==> #[trigger] set@[i] < pads@.len(),
                partners@ == partners_of(pads@, set@, i, k as int),
                pads_wf(partners@, top),
            decreases set.len() - k,
        {
            let o: usize = set[k];
            if o != i && pads[o].placed != pads[i].placed {
                partners.push(SheetPad { placed: pads[o].placed, pad: pads[o].pad.clone() });
            }
            k = k + 1;
        }
        if partners.len() > 0 {
            let ghost before = out@;
            let t: Target = Target { placed: pads[i].placed, pad: pads[i].pad.clone(), partners };
            let ghost tv = t@;
            out.push(t);
            proof {
                assert(target_views(out@) =~= target_views(before).push(tv));
                assert forall|a: int, c: int|
                    0 <= a < target_views(out@).len() && 0 <= c < target_views(
                        out@,
                    )[a].partners.len() implies (
                #[trigger] target_views(out@)[a].partners[c]).placed < top by {
                    if a < before.len() {
                        assert(target_views(out@)[a] == target_views(before)[a]);
                        assert(target_views(before)[a].partners[c].placed < top);
                    } else {
                        assert(target_views(out@)[a] == tv);
                        assert(tv.partners[c].placed < top);
                    }
                }
            }
        }
        n = n + 1;
        proof {
            assert(target_views(out@) =~= o0 + set_targets(pads@, set@, n as int));
        }
    }
}

/// The pins that are to be joined to pins of other components, and to which.
pub fn build_tree_targets(b: &Board) -> (r: Vec<Target>)
    requires
        b.wf(),
        roots_wf(b.placed@),
    ensures
        target_views(r@) == tree_targets(b@, b.nets@.len() as int),
        targets_wf(target_views(r@), b.placed@.len() as int),
{
    let mut hub: Vec<bool> = Vec::new();
    let mut root: Vec<usize> = Vec::new();
    let mut refdes: Vec<String> = Vec::new();
    let mut n: usize = 0;
    while n < b.placed.len()
        invariant
            n <= b.placed.len(),
            b.wf(),
            hub@ =~= board_hubs(b@).take(n as int),
            root@ =~= board_roots(b@).take(n as int),
            refdes@ =~= board_refs(b@).take(n as int),
        decreases b.placed.len() - n,
    {
        let ci: usize = b.placed[n].comp;
        hub.push(is_hub_comp(b.cfg, b.design, ci));
        root.push(b.placed[n].group_root);
        refdes.push(b.design.comps[ci].refdes.clone());
        n = n + 1;
    }
    proof {
        assert(hub@ =~= board_hubs(b@));
        assert(root@ =~= board_roots(b@));
        assert(refdes@ =~= board_refs(b@));
        assert forall|i: int| 0 <= i < root@.len() implies #[trigger] root@[i] < refdes@.len() by {
            assert(b.placed@[i].group_root < b.placed@.len());
        }
    }
    let mut out: Vec<Target> = Vec::new();
    let mut n: usize = 0;
    proof {
        assert(target_views(out@) =~= Seq::empty());
    }
    while n < b.nets.len()
        invariant
            n <= b.nets.len(),
            b.wf(),
            hub@ == board_hubs(b@),
            root@ == board_roots(b@),
            refdes@ == board_refs(b@),
            forall|i: int| 0 <= i < root@.len() ==> #[trigger] root@[i] < refdes@.len(),
            target_views(out@) == tree_targets(b@, n as int),
            targets_wf(target_views(out@), b.placed@.len() as int),
        decreases b.nets.len() - n,
    {
        let net: &SheetNet = &b.nets[n];
        let ghost before = target_views(out@);
        proof {
            assert forall|e: int| 0 <= e < net.endpoints@.len() implies (
            #[trigger] net.endpoints@[e]).placed < b.placed@.len() by {
                assert(b.nets@[n as int].endpoints@[e].placed < b.placed@.len());
            }
            assert(before =~= before + Seq::empty());
        }
        if net.class == NetClass::Signal {
            let pads: Vec<SheetPad> = find_net_pads(b, net);
            let mut placed: Vec<usize> = Vec::new();
            let mut i: usize = 0;
            while i < pads.len()
                invariant
                    i <= pads.len(),
                    placed@ =~= pads_placed(pads@).take(i as int),
                decreases pads.len() - i,
            {
                placed.push(pads[i].placed);
                i = i + 1;
            }
            proof {
                assert(placed@ =~= pads_placed(pads@));
                assert forall|i: int| 0 <= i < placed@.len() implies #[trigger] placed@[i]
                    < hub@.len() && placed@[i] < root@.len() by {
                    assert(pads@[i].placed < b.placed@.len());
                }
            }
            let sets: Vec<Vec<usize>> = group_wire_subsets(&placed, &hub, &root, &refdes);
            let ghost ss = rows(sets@);
            let mut k: usize = 0;
            proof {
                assert(before =~= before + sets_targets(pads@, ss, 0));
            }
            while k < sets.len()
                invariant
                    k <= sets.len(),
                    ss == rows(sets@),
                    subsets_wf(ss, pads@.len() as int),
                    pads_wf(pads@, b.placed@.len() as int),
                    target_views(out@) == before + sets_targets(pads@, ss, k as int),
                    targets_wf(target_views(out@), b.placed@.len() as int),
                decreases sets.len() - k,
            {
                proof {
                    assert(ss[k as int] == sets@[k as int]@);
                    assert forall|j: int| 0 <= j < sets@[k as int]@.len() implies #[trigger] sets@[k as int]@[j]
                        < pads@.len() by {
                        assert(ss[k as int][j] < pads@.len());
                    }
                }
                push_set_targets(&pads, &sets[k], &mut out, Ghost(b.placed@.len() as int));
                k = k + 1;
                proof {
                    assert(target_views(out@) =~= before + sets_targets(pads@, ss, k as int));
                }
            }
        }
        n = n + 1;
    }
    out
}

// ---------------------------------------------------------------- how well a pose serves

/// What a pin of a rail is worth: grounds are to point down, supplies up.
pub open spec fn rail_score(class: NetClass, dir: Point) -> int {
    let down = if dir.y > 0 {
        2int
    } else if dir.y < 0 {
        -2
    } else {
        0
    };
    if class == NetClass::Ground {
        down
    } else {
        -down
    }
}

/// The unit step along the longer side of the way from `a` to `b`.
pub open spec fn heading(a: Point, b: Point) -> (int, int) {
    let vx = b.x - a.x;
    let vy = b.y - a.y;
    if spec_gap(b.x as int, a.x as int) >= spec_gap(b.y as int, a.y as int) {
        (
            if vx >= 0 {
                1
            } else {
                -1
            },
            0,
        )
    } else {
        (
            0,
            if vy >= 0 {
                1
            } else {
                -1
            },
        )
    }
}

/// What it is worth that the pin of a two-pin net looks towards the component of its mate.
pub open spec fn facing_score(b: BoardView, pi: int, pad: Seq<char>, net: SheetNet, dir: Point) -> int {
    if net.endpoints@.len() != 2 || net.port is Some {
        0
    } else {
        match other_end(net, pi, pad, 0) {
            Some(k) => if net.endpoints@[k].placed == pi {
                0
            } else {
                let h = heading(b.placed[pi].at, b.placed[net.endpoints@[k].placed as int].at);
                let along = dir.x * h.0 + dir.y * h.1;
                if along > 0 {
                    3
                } else if along < 0 {
                    -1
                } else {
                    0
                }
            },
            None => 0,
        }
    }
}

pub fn score_rail(class: NetClass, dir: Point) -> (r: i128)
    ensures
        r == rail_score(class, dir),
        -2 <= r <= 2,
{
    let down: i128 = if dir.y > 0 {
        2
    } else if dir.y < 0 {
        -2
    } else {
        0
    };
    if class == NetClass::Ground {
        down
    } else {
        -down
    }
}

pub fn score_facing(b: &Board, pi: usize, pad: &String, net: &SheetNet, dir: Point) -> (r: i128)
    requires
        pi < b.placed@.len(),
        forall|e: int|
            0 <= e < net.endpoints@.len() ==> (#[trigger] net.endpoints@[e]).placed
                < b.placed@.len(),
    ensures
        r == facing_score(b@, pi as int, pad@, *net, dir),
        -1 <= r <= 3,
{
    if net.endpoints.len() != 2 || net.port.is_some() {
        return 0;
    }
    let mut i: usize = 0;
    while i < net.endpoints.len()
        invariant
            i <= net.endpoints.len(),
            pi < b.placed@.len(),
            net.endpoints@.len() == 2,
            net.port is None,
            forall|e: int|
                0 <= e < net.endpoints@.len() ==> (#[trigger] net.endpoints@[e]).placed
                    < b.placed@.len(),
            other_end(*net, pi as int, pad@, 0) == other_end(*net, pi as int, pad@, i as int),
        decreases net.endpoints.len() - i,
    {
        if net.endpoints[i].placed != pi || net.endpoints[i].pad != *pad {
            let o: usize = net.endpoints[i].placed;
            if o == pi {
                return 0;
            }
            let from: Point = b.placed[pi].at;
            let to: Point = b.placed[o].at;
            let (hx, hy): (i64, i64) = if gap(to.x, from.x) >= gap(to.y, from.y) {
                (
                    if to.x >= from.x {
                        1
                    } else {
                        -1
                    },
                    0,
                )
            } else {
                (
                    0,
                    if to.y >= from.y {
                        1
                    } else {
                        -1
                    },
                )
            };
            proof {
                assert((hx as int, hy as int) == heading(from, to));
                assert(dir.x * hx == if hx == 1 { dir.x as int } else if hx == 0 { 0 } else { -dir.x })
                    by (nonlinear_arith)
                    requires
                        hx == 0 || hx == 1 || hx == -1,
                ;
                assert(dir.y * hy == if hy == 1 { dir.y as int } else if hy == 0 { 0 } else { -dir.y })
                    by (nonlinear_arith)
                    requires
                        hy == 0 || hy == 1 || hy == -1,
                ;
            }
            let along: i64 = dir.x as i64 * hx + dir.y as i64 * hy;
            return if along > 0 {
                3
            } else if along < 0 {
                -1
            } else {
                0
            };
        }
        i = i + 1;
    }
    0
}

/// What the best of the first `n` partners is worth: eight where a wire can be drawn, six where
/// it can but both pins look the same way, nothing where none can.
pub open spec fn partner_score(
    b: BoardView,
    p: (Point, Point),
    net: Seq<char>,
    partners: Seq<SheetPad>,
    corridors: Seq<NetBox>,
    n: int,
) -> int
    decreases n,
{
    if n <= 0 || n > partners.len() {
        0
    } else {
        let before = partner_score(b, p, net, partners, corridors, n - 1);
        let o = partners[n - 1];
        match (
            pad_position(b.design, b.placed[o.placed as int], o.pad@),
            pad_outward(b.design, b.placed[o.placed as int], o.pad@),
        ) {
            (Some(at), Some(dir)) => {
                let value = if dir == p.1 {
                    6int
                } else {
                    8
                };
                if value > before && routable(b, p, (at, dir), net, corridors) {
                    value
                } else {
                    before
                }
            },
            _ => before,
        }
    }
}

fn score_partners(
    b: &Board,
    p: (Point, Point),
    net: &String,
    partners: &[SheetPad],
    corridors: &Vec<NetBox>,
) -> (r: i128)
    requires
        b.wf(),
        pads_wf(partners@, b.placed@.len() as int),
    ensures
        r == partner_score(b@, p, net@, partners@, corridors@, partners@.len() as int),
        0 <= r <= 8,
{
    let mut best: i128 = 0;
    let mut n: usize = 0;
    while n < partners.len()
        invariant
            n <= partners.len(),
            b.wf(),
            pads_wf(partners@, b.placed@.len() as int),
            best == partner_score(b@, p, net@, partners@, corridors@, n as int),
            0 <= best <= 8,
        decreases partners.len() - n,
    {
        let o: &SheetPad = &partners[n];
        let op: &PlacedComp = &b.placed[o.placed];
        match (pad_at(b.design, op, &o.pad), pad_dir(b.design, op, &o.pad)) {
            (Some(at), Some(dir)) => {
                let value: i128 = if dir == p.1 {
                    6
                } else {
                    8
                };
                if value > best && probe_routable(b, p, (at, dir), net, corridors) {
                    best = value;
                }
            },
            _ => {},
        }
        n = n + 1;
    }
    best
}

/// Index of the last of the first `n` targets that is this pad.
pub open spec fn target_at(ts: Seq<TargetView>, pi: int, pad: Seq<char>, n: int) -> Option<int>
    decreases n,
{
    if n <= 0 || n > ts.len() {
        None
    } else if ts[n - 1].placed == pi && ts[n - 1].pad@ == pad {
        Some(n - 1)
    } else {
        target_at(ts, pi, pad, n - 1)
    }
}

fn find_target(ts: &Vec<Target>, pi: usize, pad: &String) -> (r: Option<usize>)
    ensures
        match r {
            Some(k) => target_at(target_views(ts@), pi as int, pad@, ts@.len() as int) == Some(
                k as int,
            ) && k < ts@.len(),
            None => target_at(target_views(ts@), pi as int, pad@, ts@.len() as int) is None,
        },
{
    let mut n: usize = ts.len();
    while n > 0
        invariant
            n <= ts.len(),
            target_at(target_views(ts@), pi as int, pad@, ts@.len() as int) == target_at(
                target_views(ts@),
                pi as int,
                pad@,
                n as int,
            ),
        decreases n,
    {
        proof {
            assert(target_views(ts@)[n - 1] == ts@[n - 1]@);
        }
        if ts[n - 1].placed == pi && ts[n - 1].pad == *pad {
            return Some(n - 1);
        }
        n = n - 1;
    }
    None
}

/// What a pin at `pos` that looks towards `dir` is worth.
pub open spec fn pin_score(
    b: BoardView,
    ts: Seq<TargetView>,
    corridors: Seq<NetBox>,
    pi: int,
    pad: Seq<char>,
    pos: Point,
    dir: Point,
) -> int {
    match pin_net(b.nets, pi, pad) {
        Some(sn) => {
            let net = b.nets[sn];
            if net.class != NetClass::Signal {
                rail_score(net.class, dir)
            } else {
                let best = match target_at(ts, pi, pad, ts.len() as int) {
                    Some(k) => partner_score(
                        b,
                        (pos, dir),
                        net.name@,
                        ts[k].partners,
                        corridors,
                        ts[k].partners.len() as int,
                    ),
                    None => 0,
                };
                if best > 0 {
                    best
                } else {
                    facing_score(b, pi, pad, net, dir)
                }
            }
        },
        None => 0,
    }
}

fn score_pin(
    b: &Board,
    ts: &Vec<Target>,
    corridors: &Vec<NetBox>,
    pi: usize,
    pad: &String,
    pos: Point,
    dir: Point,
) -> (r: i128)
    requires
        b.wf(),
        pi < b.placed@.len(),
        targets_wf(target_views(ts@), b.placed@.len() as int),
    ensures
        r == pin_score(b@, target_views(ts@), corridors@, pi as int, pad@, pos, dir),
        -2 <= r <= 8,
{
    match find_pin_net(b.nets, pi, pad) {
        Some(sn) => {
            let net: &SheetNet = &b.nets[sn];
            if net.class != NetClass::Signal {
                return score_rail(net.class, dir);
            }
            let best: i128 = match find_target(ts, pi, pad) {
                Some(k) => {
                    proof {
                        assert(target_views(ts@)[k as int] == ts@[k as int]@);
                        assert forall|i: int| 0 <= i < ts@[k as int].partners@.len() implies (
                        #[trigger] ts@[k as int].partners@[i]).placed < b.placed@.len() by {
                            assert(target_views(ts@)[k as int].partners[i].placed < b.placed@.len());
                        }
                    }
                    score_partners(b, (pos, dir), &net.name, &ts[k].partners, corridors)
                },
                None => 0,
            };
            if best > 0 {
                best
            } else {
                proof {
                    assert forall|e: int| 0 <= e < net.endpoints@.len() implies (
                    #[trigger] net.endpoints@[e]).placed < b.placed@.len() by {
                        assert(b.nets@[sn as int].endpoints@[e].placed < b.placed@.len());
                    }
                }
                score_facing(b, pi, pad, net, dir)
            }
        },
        None => 0,
    }
}

/// What the first `n` pins of a component are worth if it stood as `t` says, each position
/// counted once; the positions met.
pub open spec fn pose_score(
    b: BoardView,
    ts: Seq<TargetView>,
    corridors: Seq<NetBox>,
    pi: int,
    t: PlacedComp,
    n: int,
) -> (int, Seq<Point>)
    decreases n,
{
    let pins = geom_of(b.design, t).pins@;
    if n <= 0 || n > pins.len() {
        (0, Seq::empty())
    } else {
        let before = pose_score(b, ts, corridors, pi, t, n - 1);
        let pin = pins[n - 1];
        match pad_position(b.design, t, pin.number@) {
            Some(pos) => if pin.hidden || seen(before.1, pos) {
                before
            } else {
                (
                    before.0 + match pad_outward(b.design, t, pin.number@) {
                        Some(dir) => pin_score(b, ts, corridors, pi, pin.number@, pos, dir),
                        None => 0,
                    },
                    before.1.push(pos),
                )
            },
            None => before,
        }
    }
}

/// How well the component would be wired if it stood as `t` says.
pub open spec fn spec_score(
    b: BoardView,
    ts: Seq<TargetView>,
    corridors: Seq<NetBox>,
    pi: int,
    t: PlacedComp,
) -> int {
    pose_score(b, ts, corridors, pi, t, geom_of(b.design, t).pins@.len() as int).0
}

/// How well the component would be wired if it stood as `t` says.
pub fn orientation_score(
    b: &Board,
    ts: &Vec<Target>,
    corridors: &Vec<NetBox>,
    pi: usize,
    t: &PlacedComp,
) -> (r: i128)
    requires
        b.wf(),
        pi < b.placed@.len(),
        t.comp == b.placed@[pi as int].comp,
        targets_wf(target_views(ts@), b.placed@.len() as int),
    ensures
        r == spec_score(b@, target_views(ts@), corridors@, pi as int, *t),
{
    let geom: &SymbolGeom = &b.design.comps[t.comp].geom;
    let ghost tv = target_views(ts@);
    let mut score: i128 = 0;
    let mut met: Vec<Point> = Vec::new();
    let mut n: usize = 0;
    while n < geom.pins.len()
        invariant
            n <= geom.pins.len(),
            b.wf(),
            pi < b.placed@.len(),
            t.comp == b.placed@[pi as int].comp,
            tv == target_views(ts@),
            targets_wf(tv, b.placed@.len() as int),
            *geom == geom_of(*b.design, *t),
            (score as int, met@) == pose_score(b@, tv, corridors@, pi as int, *t, n as int),
            -2 * n <= score <= 8 * n,
        decreases geom.pins.len() - n,
    {
        let number: &String = &geom.pins[n].number.show();
        if !geom.pins[n].hidden {
            match pad_at(b.design, t, number) {
                Some(pos) => {
                    if !is_seen(&met, pos) {
                        match pad_dir(b.design, t, number) {
                            Some(dir) => {
                                score = score + score_pin(b, ts, corridors, pi, number, pos, dir);
                            },
                            None => {},
                        }
                        met.push(pos);
                    }
                },
                None => {},
            }
        }
        n = n + 1;
    }
    score
}

// ---------------------------------------------------------------- choice of a pose

/// A connector with a fixed board edge keeps its handedness.
pub open spec fn mirrorable(design: DesignModel, p: PlacedComp) -> bool {
    !(p.role == Role::Connector && design.comps@[p.comp as int].edge_attr is Some)
}

pub fn is_mirrorable(design: &DesignModel, p: &PlacedComp) -> (r: bool)
    requires
        p.comp < design.comps@.len(),
    ensures
        r == mirrorable(*design, *p),
{
    !(p.role == Role::Connector && design.comps[p.comp].edge_attr.is_some())
}

/// The component turned and mirrored in place.
pub open spec fn posed(p: PlacedComp, pose: (i32, Option<MirrorAxis>)) -> PlacedComp {
    PlacedComp { rotation: pose.0, mirror: pose.1, ..p }
}

/// The rotations to try, the present one first.
pub open spec fn rotations(p: PlacedComp) -> Seq<i32> {
    if rotatable(p.role) {
        seq![p.rotation] + seq![0i32, 90, 180, 270].filter(|r: i32| r != p.rotation)
    } else {
        seq![p.rotation]
    }
}

/// The mirrorings to try, the present one first.
pub open spec fn mirrors(design: DesignModel, p: PlacedComp) -> Seq<Option<MirrorAxis>> {
    if !mirrorable(design, p) {
        seq![p.mirror]
    } else if p.mirror == Some(MirrorAxis::Y) {
        seq![Some(MirrorAxis::Y), None]
    } else {
        seq![p.mirror, Some(MirrorAxis::Y)]
    }
}

/// Pose number `k`: all rotations under the first mirroring, then those under the next.
pub open spec fn pose_at(design: DesignModel, p: PlacedComp, k: int) -> (i32, Option<MirrorAxis>) {
    let rs = rotations(p);
    (rs[k % rs.len() as int], mirrors(design, p)[k / rs.len() as int])
}

pub open spec fn poses(design: DesignModel, p: PlacedComp) -> Seq<(i32, Option<MirrorAxis>)> {
    Seq::new(rotations(p).len() * mirrors(design, p).len(), |k: int| pose_at(design, p, k))
}

/// The new extent covers another component that the old one left alone.
pub open spec fn clashes(placed: Seq<PlacedComp>, pi: int, nb: BBox) -> bool {
    exists|o: int|
        0 <= o < placed.len() && o != pi && spec_overlaps(nb, (#[trigger] placed[o]).bbox)
            && !spec_overlaps(placed[pi].bbox, placed[o].bbox)
}

/// The better of the first `n` poses with its score: the first, unless a later one is better
/// and covers nothing new.
pub open spec fn best_pose(
    b: BoardView,
    ts: Seq<TargetView>,
    corridors: Seq<NetBox>,
    pi: int,
    n: int,
) -> (int, int)
    decreases n,
{
    let p = b.placed[pi];
    let all = poses(b.design, p);
    if n <= 1 || n > all.len() {
        (0, spec_score(b, ts, corridors, pi, posed(p, all[0])))
    } else {
        let before = best_pose(b, ts, corridors, pi, n - 1);
        let t = posed(p, all[n - 1]);
        let score = spec_score(b, ts, corridors, pi, t);
        if score > before.1 && !clashes(b.placed, pi, solid_of(b.cfg, b.design, t)) {
            (n - 1, score)
        } else {
            before
        }
    }
}

/// The power connections of the other components.
pub open spec fn foreign_corridors(cs: Seq<Corridor>, pi: int, n: int) -> Seq<NetBox>
    decreases n,
{
    if n <= 0 || n > cs.len() {
        Seq::empty()
    } else {
        let before = foreign_corridors(cs, pi, n - 1);
        if cs[n - 1].zone == CorridorZone::Corridor && cs[n - 1].owner != pi {
            before.push(NetBox { bbox: cs[n - 1].bbox, net: cs[n - 1].net })
        } else {
            before
        }
    }
}

/// The component as the best pose has it.
pub open spec fn oriented_one(b: BoardView, ts: Seq<TargetView>, pi: int) -> PlacedComp {
    let p = b.placed[pi];
    if p.pinned {
        p
    } else {
        let cs = board_corridors(b, b.placed.len() as int);
        let corridors = foreign_corridors(cs, pi, cs.len() as int);
        let all = poses(b.design, p);
        let pose = all[best_pose(b, ts, corridors, pi, all.len() as int).0];
        if pose == (p.rotation, p.mirror) {
            p
        } else {
            let t = posed(p, pose);
            PlacedComp { bbox: solid_of(b.cfg, b.design, t), ..t }
        }
    }
}

pub open spec fn with_placed(b: BoardView, placed: Seq<PlacedComp>) -> BoardView {
    BoardView { cfg: b.cfg, design: b.design, placed, nets: b.nets }
}

/// The first `n` components turned one after the other.
pub open spec fn oriented_upto(b: BoardView, ts: Seq<TargetView>, n: int) -> Seq<PlacedComp>
    decreases n,
{
    if n <= 0 || n > b.placed.len() {
        b.placed
    } else {
        let before = oriented_upto(b, ts, n - 1);
        before.update(n - 1, oriented_one(with_placed(b, before), ts, n - 1))
    }
}

/// All components turned, twice over.
pub open spec fn oriented(b: BoardView) -> Seq<PlacedComp> {
    let ts = tree_targets(b, b.nets.len() as int);
    let n = b.placed.len() as int;
    let once = oriented_upto(b, ts, n);
    oriented_upto(with_placed(b, once), ts, n)
}

/// Only rotation, mirroring and extent may differ.
pub open spec fn same_but_pose(a: PlacedComp, b: PlacedComp) -> bool {
    a == (PlacedComp { rotation: a.rotation, mirror: a.mirror, bbox: a.bbox, ..b })
}

pub open spec fn all_same_but_pose(a: Seq<PlacedComp>, b: Seq<PlacedComp>) -> bool {
    a.len() == b.len() && forall|i: int|
        0 <= i < a.len() ==> #[trigger] same_but_pose(a[i], b[i])
}

proof fn lemma_oriented_upto(b: BoardView, ts: Seq<TargetView>, n: int)
    requires
        0 <= n <= b.placed.len(),
    ensures
        all_same_but_pose(oriented_upto(b, ts, n), b.placed),
        forall|i: int|
            0 <= i < b.placed.len() && b.placed[i].pinned ==> #[trigger] oriented_upto(b, ts, n)[i]
                == b.placed[i],
        forall|i: int|
            0 <= i < b.placed.len() && !rotatable(b.placed[i].role) ==> (
            #[trigger] oriented_upto(b, ts, n)[i]).rotation == b.placed[i].rotation,
        forall|i: int|
            n <= i < b.placed.len() ==> #[trigger] oriented_upto(b, ts, n)[i] == b.placed[i],
    decreases n,
{
    if n > 0 {
        lemma_oriented_upto(b, ts, n - 1);
        let before = oriented_upto(b, ts, n - 1);
        let r = oriented_upto(b, ts, n);
        let i = n - 1;
        let bv = with_placed(b, before);
        assert(before[i] == b.placed[i]);
        if !before[i].pinned && !rotatable(before[i].role) {
            let cs = board_corridors(bv, bv.placed.len() as int);
            let corridors = foreign_corridors(cs, i, cs.len() as int);
            let all = poses(b.design, before[i]);
            lemma_best_pose(bv, ts, corridors, i, all.len() as int);
            assert(rotations(before[i]).len() == 1);
        }
        assert forall|k: int| 0 <= k < r.len() implies #[trigger] same_but_pose(
            r[k],
            b.placed[k],
        ) by {
            if k != i {
                assert(same_but_pose(before[k], b.placed[k]));
            }
        }
    }
}

proof fn lemma_poses(design: DesignModel, p: PlacedComp)
    ensures
        poses(design, p).len() > 0,
        rotations(p).len() > 0,
        rotations(p)[0] == p.rotation,
        poses(design, p)[0] == (p.rotation, p.mirror),
{
    let a = rotations(p).len();
    let c = mirrors(design, p).len();
    assert(a * c > 0) by (nonlinear_arith)
        requires
            a > 0,
            c > 0,
    ;
    assert(0int / (a as int) == 0 && 0int % (a as int) == 0) by {
        vstd::arithmetic::div_mod::lemma_small_mod(0, a);
        vstd::arithmetic::div_mod::lemma_basic_div(0, a as int);
    }
}

proof fn lemma_best_pose(
    b: BoardView,
    ts: Seq<TargetView>,
    corridors: Seq<NetBox>,
    pi: int,
    n: int,
)
    ensures
        0 <= best_pose(b, ts, corridors, pi, n).0 < poses(b.design, b.placed[pi]).len(),
    decreases n,
{
    lemma_poses(b.design, b.placed[pi]);
    if n > 1 && n <= poses(b.design, b.placed[pi]).len() {
        lemma_best_pose(b, ts, corridors, pi, n - 1);
    }
}

/// Turning the components leaves them where they are. One that was placed by hand keeps its
/// pose, and one whose role forbids rotation keeps its rotation.
pub proof fn law_orientation_keeps(b: BoardView)
    ensures
        all_same_but_pose(oriented(b), b.placed),
        forall|i: int|
            0 <= i < b.placed.len() && b.placed[i].pinned ==> #[trigger] oriented(b)[i]
                == b.placed[i],
        forall|i: int|
            0 <= i < b.placed.len() && !rotatable(b.placed[i].role) ==> (
            #[trigger] oriented(b)[i]).rotation == b.placed[i].rotation,
{
    let ts = tree_targets(b, b.nets.len() as int);
    let n = b.placed.len() as int;
    lemma_oriented_upto(b, ts, n);
    let once = oriented_upto(b, ts, n);
    lemma_oriented_upto(with_placed(b, once), ts, n);
    assert forall|k: int| 0 <= k < n implies #[trigger] same_but_pose(
        oriented(b)[k],
        b.placed[k],
    ) by {
        assert(same_but_pose(once[k], b.placed[k]));
        assert(same_but_pose(oriented(b)[k], once[k]));
    }
    assert forall|i: int| 0 <= i < n && b.placed[i].pinned implies #[trigger] oriented(b)[i]
        == b.placed[i] by {
        assert(once[i] == b.placed[i]);
    }
    assert forall|i: int| 0 <= i < n && !rotatable(b.placed[i].role) implies (
    #[trigger] oriented(b)[i]).rotation == b.placed[i].rotation by {
        assert(same_but_pose(once[i], b.placed[i]));
        assert(once[i].rotation == b.placed[i].rotation);
    }
}

/// A pose is given up only for one that scores higher.
pub proof fn law_present_pose_kept_on_ties(
    b: BoardView,
    ts: Seq<TargetView>,
    corridors: Seq<NetBox>,
    pi: int,
    n: int,
)
    requires
        0 <= pi < b.placed.len(),
        1 <= n <= poses(b.design, b.placed[pi]).len(),
    ensures
        best_pose(b, ts, corridors, pi, n).0 == 0 || best_pose(b, ts, corridors, pi, n).1
            > spec_score(b, ts, corridors, pi, b.placed[pi]),
    decreases n,
{
    let p = b.placed[pi];
    lemma_poses(b.design, p);
    assert(posed(p, poses(b.design, p)[0]) == p);
    if n > 1 {
        law_present_pose_kept_on_ties(b, ts, corridors, pi, n - 1);
        lemma_first_pose(b, ts, corridors, pi, n - 1);
    }
}

proof fn lemma_first_pose(b: BoardView, ts: Seq<TargetView>, corridors: Seq<NetBox>, pi: int, n: int)
    requires
        0 <= pi < b.placed.len(),
    ensures
        best_pose(b, ts, corridors, pi, n).1 >= spec_score(b, ts, corridors, pi, b.placed[pi]),
    decreases n,
{
    let p = b.placed[pi];
    lemma_poses(b.design, p);
    assert(posed(p, poses(b.design, p)[0]) == p);
    if n > 1 && n <= poses(b.design, p).len() {
        lemma_first_pose(b, ts, corridors, pi, n - 1);
    }
}

fn list_rotations(p: &PlacedComp) -> (r: Vec<i32>)
    ensures
        r@ == rotations(*p),
{
    let mut out: Vec<i32> = vec![p.rotation];
    if is_rotatable(p.role) {
        let quarter: Vec<i32> = vec![0, 90, 180, 270];
        let ghost keep = |r: i32| r != p.rotation;
        let mut n: usize = 0;
        proof {
            assert(quarter@ =~= seq![0i32, 90, 180, 270]);
            assert(quarter@.take(0).filter(keep) =~= Seq::empty()) by {
                reveal(Seq::filter);
            }
            assert(out@ =~= seq![p.rotation] + quarter@.take(0).filter(keep));
        }
        while n < quarter.len()
            invariant
                n <= quarter.len(),
                keep == (|r: i32| r != p.rotation),
                out@ == seq![p.rotation] + quarter@.take(n as int).filter(keep),
            decreases quarter.len() - n,
        {
            proof {
                reveal(Seq::filter);
                assert(quarter@.take(n + 1).drop_last() =~= quarter@.take(n as int));
                assert(quarter@.take(n + 1).last() == quarter@[n as int]);
            }
            if quarter[n] != p.rotation {
                out.push(quarter[n]);
            }
            n = n + 1;
            proof {
                assert(out@ =~= seq![p.rotation] + quarter@.take(n as int).filter(keep));
            }
        }
        proof {
            assert(quarter@.take(n as int) =~= quarter@);
        }
    } else {
        proof {
            assert(out@ =~= seq![p.rotation]);
        }
    }
    out
}

fn list_mirrors(design: &DesignModel, p: &PlacedComp) -> (r: Vec<Option<MirrorAxis>>)
    requires
        p.comp < design.comps@.len(),
    ensures
        r@ == mirrors(*design, *p),
{
    let r: Vec<Option<MirrorAxis>> = if !is_mirrorable(design, p) {
        vec![p.mirror]
    } else {
        match p.mirror {
            Some(MirrorAxis::Y) => vec![Some(MirrorAxis::Y), None],
            other => vec![other, Some(MirrorAxis::Y)],
        }
    };
    proof {
        assert(r@ =~= mirrors(*design, *p));
    }
    r
}

fn do_clash(placed: &[PlacedComp], pi: usize, nb: &BBox) -> (r: bool)
    requires
        pi < placed@.len(),
    ensures
        r == clashes(placed@, pi as int, *nb),
{
    let mut o: usize = 0;
    while o < placed.len()
        invariant
            o <= placed.len(),
            pi < placed@.len(),
            forall|k: int|
                0 <= k < o ==> !(k != pi && spec_overlaps(*nb, (#[trigger] placed@[k]).bbox)
                    && !spec_overlaps(placed@[pi as int].bbox, placed@[k].bbox)),
        decreases placed.len() - o,
    {
        if o != pi && overlaps(nb, &placed[o].bbox) && !overlaps(&placed[pi].bbox, &placed[o].bbox) {
            return true;
        }
        o = o + 1;
    }
    false
}

fn list_foreign(cs: &[Corridor], pi: usize) -> (r: Vec<NetBox>)
    ensures
        r@ == foreign_corridors(cs@, pi as int, cs@.len() as int),
{
    let mut out: Vec<NetBox> = Vec::new();
    let mut n: usize = 0;
    while n < cs.len()
        invariant
            n <= cs.len(),
            out@ == foreign_corridors(cs@, pi as int, n as int),
        decreases cs.len() - n,
    {
        if cs[n].zone == CorridorZone::Corridor && cs[n].owner != pi {
            out.push(NetBox { bbox: cs[n].bbox, net: cs[n].net.clone() });
        }
        n = n + 1;
    }
    out
}

fn orient_one(b: &Board, ts: &Vec<Target>, pi: usize) -> (r: PlacedComp)
    requires
        b.wf(),
        pi < b.placed@.len(),
        targets_wf(target_views(ts@), b.placed@.len() as int),
    ensures
        r == oriented_one(b@, target_views(ts@), pi as int),
{
    let p: PlacedComp = b.placed[pi];
    if p.pinned {
        return p;
    }
    let ghost tv = target_views(ts@);
    let ghost bv = b@;
    let rs: Vec<i32> = list_rotations(&p);
    let ms: Vec<Option<MirrorAxis>> = list_mirrors(b.design, &p);
    let all_corridors: Vec<Corridor> = power_stub_corridors(b);
    let corridors: Vec<NetBox> = list_foreign(&all_corridors, pi);
    let ghost all = poses(*b.design, p);
    proof {
        lemma_poses(*b.design, p);
        assert(posed(p, all[0]) == p);
    }
    let mut best: (i32, Option<MirrorAxis>) = (p.rotation, p.mirror);
    let ghost mut at: int = 0;
    let mut best_score: i128 = orientation_score(b, ts, &corridors, pi, &p);
    let mut m: usize = 0;
    let ghost mut k: int = 1;
    let width: usize = rs.len();
    proof {
        assert(0 * width == 0);
    }
    while m < ms.len()
        invariant
            m <= ms.len(),
            b.wf(),
            bv == b@,
            pi < b.placed@.len(),
            p == b.placed@[pi as int],
            tv == target_views(ts@),
            targets_wf(tv, b.placed@.len() as int),
            rs@ == rotations(p),
            ms@ == mirrors(*b.design, p),
            width == rs@.len(),
            width > 0,
            all == poses(*b.design, p),
            all.len() == width * ms@.len(),
            1 <= k <= all.len(),
            k == if m == 0 { 1 } else { width * m },
            (at, best_score as int) == best_pose(bv, tv, corridors@, pi as int, k),
            0 <= at < all.len(),
            best == all[at],
        decreases ms.len() - m,
    {
        let mut i: usize = if m == 0 {
            1
        } else {
            0
        };
        proof {
            assert(width * m + width <= all.len()) by (nonlinear_arith)
                requires
                    all.len() == width * ms@.len(),
                    m < ms@.len(),
            ;
        }
        while i < rs.len()
            invariant
                i <= rs.len(),
                m < ms.len(),
                b.wf(),
                bv == b@,
                pi < b.placed@.len(),
                p == b.placed@[pi as int],
                tv == target_views(ts@),
                targets_wf(tv, b.placed@.len() as int),
                rs@ == rotations(p),
                ms@ == mirrors(*b.design, p),
                width == rs@.len(),
                all == poses(*b.design, p),
                all.len() == width * ms@.len(),
                width * m + width <= all.len(),
                k == width * m + i,
                k >= 1,
                (at, best_score as int) == best_pose(bv, tv, corridors@, pi as int, k),
                0 <= at < all.len(),
                best == all[at],
            decreases rs.len() - i,
        {
            let t: PlacedComp = PlacedComp { rotation: rs[i], mirror: ms[m], ..p };
            proof {
                assert(width * m == m * width) by (nonlinear_arith);
                vstd::arithmetic::div_mod::lemma_fundamental_div_mod_converse(
                    k,
                    width as int,
                    m as int,
                    i as int,
                );
                assert(all[k] == pose_at(*b.design, p, k));
                assert(t == posed(p, all[k]));
            }
            let score: i128 = orientation_score(b, ts, &corridors, pi, &t);
            if score > best_score {
                let nb: BBox = solid_box_for(b.cfg, b.design, &t);
                if !do_clash(b.placed, pi, &nb) {
                    best = (rs[i], ms[m]);
                    best_score = score;
                    proof {
                        at = k;
                    }
                }
            }
            i = i + 1;
            proof {
                k = k + 1;
            }
        }
        m = m + 1;
        proof {
            assert(width * m == width * (m - 1) + width) by (nonlinear_arith);
        }
    }
    if best.0 == p.rotation && best.1 == p.mirror {
        return p;
    }
    let t: PlacedComp = PlacedComp { rotation: best.0, mirror: best.1, ..p };
    PlacedComp { bbox: solid_box_for(b.cfg, b.design, &t), ..t }
}

/// Exchanging one placed component for another of the same kind keeps the placement sound.
pub proof fn lemma_wf_update(b: BoardView, pi: int, q: PlacedComp)
    requires
        b.wf(),
        0 <= pi < b.placed.len(),
        q.comp == b.placed[pi].comp,
    ensures
        with_placed(b, b.placed.update(pi, q)).wf(),
{
    let r = b.placed.update(pi, q);
    assert forall|i: int| 0 <= i < r.len() implies (#[trigger] r[i]).comp
        < b.design.comps@.len() by {
        assert(b.placed[i].comp < b.design.comps@.len());
    }
}

proof fn lemma_wf_kept(b: BoardView, placed: Seq<PlacedComp>)
    requires
        b.wf(),
        all_same_but_pose(placed, b.placed),
    ensures
        with_placed(b, placed).wf(),
{
    assert forall|i: int| 0 <= i < placed.len() implies (#[trigger] placed[i]).comp
        < b.design.comps@.len() by {
        assert(same_but_pose(placed[i], b.placed[i]));
        assert(b.placed[i].comp < b.design.comps@.len());
    }
}

fn orient_all(
    cfg: &SchConfig,
    design: &DesignModel,
    placed: &mut Vec<PlacedComp>,
    nets: &[SheetNet],
    ts: &Vec<Target>,
    Ghost(b): Ghost<BoardView>,
) -> (changed: bool)
    requires
        b == (BoardView { cfg: *cfg, design: *design, placed: old(placed)@, nets: nets@ }),
        b.wf(),
        targets_wf(target_views(ts@), b.placed.len() as int),
    ensures
        final(placed)@ == oriented_upto(b, target_views(ts@), b.placed.len() as int),
        all_same_but_pose(final(placed)@, b.placed),
        !changed ==> final(placed)@ == b.placed,
{
    let ghost tv = target_views(ts@);
    let mut changed: bool = false;
    let mut n: usize = 0;
    proof {
        lemma_oriented_upto(b, tv, 0);
    }
    while n < placed.len()
        invariant
            n <= placed@.len(),
            placed@.len() == b.placed.len(),
            *cfg == b.cfg,
            *design == b.design,
            nets@ == b.nets,
            b.wf(),
            tv == target_views(ts@),
            targets_wf(tv, b.placed.len() as int),
            placed@ == oriented_upto(b, tv, n as int),
            all_same_but_pose(placed@, b.placed),
            !changed ==> placed@ == b.placed,
        decreases placed.len() - n,
    {
        let ghost bv = with_placed(b, placed@);
        proof {
            lemma_wf_kept(b, placed@);
        }
        let board: Board = Board { cfg, design, placed: &*placed, nets };
        proof {
            assert(board@ == bv);
        }
        let p: PlacedComp = orient_one(&board, ts, n);
        if p.rotation != placed[n].rotation || p.mirror != placed[n].mirror {
            changed = true;
        }
        let ghost before = placed@;
        placed.set(n, p);
        n = n + 1;
        proof {
            lemma_oriented_upto(b, tv, n as int);
            if !changed {
                assert(p == before[n - 1]);
                assert(placed@ =~= before);
            }
        }
    }
    changed
}

/// Turn and mirror the components, so that they can be wired; what was placed by hand stays.
pub fn orient_for_wiring(
    cfg: &SchConfig,
    design: &DesignModel,
    placed: &mut Vec<PlacedComp>,
    nets: &[SheetNet],
)
    requires
        cfg.wf(),
        placed_wf(*design, old(placed)@),
        nets_wf(nets@, old(placed)@.len() as int),
        roots_wf(old(placed)@),
    ensures
        final(placed)@ == oriented(
            (BoardView { cfg: *cfg, design: *design, placed: old(placed)@, nets: nets@ }),
        ),
        all_same_but_pose(final(placed)@, old(placed)@),
{
    let ghost b = BoardView { cfg: *cfg, design: *design, placed: placed@, nets: nets@ };
    let board: Board = Board { cfg, design, placed: &*placed, nets };
    let ts: Vec<Target> = build_tree_targets(&board);
    let changed: bool = orient_all(cfg, design, placed, nets, &ts, Ghost(b));
    let ghost once = placed@;
    if changed {
        proof {
            lemma_wf_kept(b, once);
        }
        let _ = orient_all(cfg, design, placed, nets, &ts, Ghost(with_placed(b, once)));
        proof {
            assert forall|k: int| 0 <= k < placed@.len() implies #[trigger] same_but_pose(
                placed@[k],
                b.placed[k],
            ) by {
                assert(same_but_pose(once[k], b.placed[k]));
                assert(same_but_pose(placed@[k], once[k]));
            }
        }
    } else {
        proof {
            assert(with_placed(b, once) == b);
        }
    }
}

} // verus!
