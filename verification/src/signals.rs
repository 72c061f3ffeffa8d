//! The signal pass of a sheet: trees, direct wires and labels for every signal net.

use vstd::prelude::*;
use crate::canvas::{
    best_stub, copy_endpoint, copy_endpoints, copy_path, label_stubs, law_rollback_undoes,
    stub_candidates, stubs, text_fits, wire_fits, Canvas, Drawing, Endpoint, Scene, Stub, StubKind,
    StubView, WiringSnapshot,
};
use crate::geometry::{make_box, bx, BBox, SymbolGeom};
use crate::glyphs::{hier_box, hier_text_box};
use crate::grow::{
    adds_wiring, all_below, lemma_adds_trans, lemma_join_adds, manhattan_of, net_runs,
};
use crate::model::NetClass;
use crate::order::sorted_by;
use crate::pins::{endpoints_of, endpoints_wf, geom_of, net_endpoints, pad_at, pad_position};
use crate::place::{find_pin_net, label_stub_len, pin_net, spec_stub_len, PlacedComp, SheetNet};
use crate::power::{collapsed, lemma_collapsed_wf};
use crate::registry::crossings;
use crate::subsets::{anchor_order, port_anchor_order};
use crate::tree::{all_joins, doubles, join_choice, tree_join_candidates, Join};
use crate::treelabel::{box_clear_of_runs, lemma_branch_path, tree_branch, Site};
use crate::units::{
    greater, half, lesser, near, shift, spec_half, spec_max, spec_min, spec_near_point, spec_shift,
    Iu, Point, EPS,
};
use crate::wiring::{
    facing, facing_paths, flip, flip_paths, flipped, flipped_paths, manhattan, paths, Span,
};
use crate::writer::PortDirection;

verus! {

/// A label that is placed once all trees are drawn.
#[derive(Debug)]
pub struct Annotation {
    pub net: String,
    /// Number of wires before the tree was drawn.
    pub from: usize,
}

/// What the signal pass remembers of each net.
#[derive(Debug)]
pub struct Signals {
    /// The endpoints of a net once its stacks of pins are drawn.
    pub cache: Vec<Option<Vec<Endpoint>>>,
    /// The positions of a net that its trees reach.
    pub reached: Vec<Vec<Point>>,
    pub pending: Vec<Annotation>,
}

pub struct SignalsView {
    pub cache: Seq<Option<Seq<Endpoint>>>,
    pub reached: Seq<Seq<Point>>,
    pub pending: Seq<Annotation>,
}

impl View for Signals {
    type V = SignalsView;

    open spec fn view(&self) -> SignalsView {
        SignalsView {
            cache: Seq::new(
                self.cache@.len(),
                |i: int|
                    match self.cache@[i] {
                        Some(v) => Some(v@),
                        None => None,
                    },
            ),
            reached: paths(self.reached@),
            pending: self.pending@,
        }
    }
}

impl SignalsView {
    pub open spec fn wf(self, sc: Scene<'_>) -> bool {
        &&& self.cache.len() == sc.model.nets@.len()
        &&& self.reached.len() == sc.model.nets@.len()
        &&& forall|i: int|
            0 <= i < self.cache.len() ==> match #[trigger] self.cache[i] {
                Some(e) => endpoints_wf(sc, e),
                None => true,
            }
    }

    /// Before anything is drawn.
    pub open spec fn fresh(n: int) -> SignalsView {
        SignalsView {
            cache: Seq::new(n as nat, |i: int| None),
            reached: Seq::new(n as nat, |i: int| Seq::empty()),
            pending: Seq::empty(),
        }
    }
}

impl Signals {
    pub fn new(n: usize) -> (s: Signals)
        ensures
            s@ == SignalsView::fresh(n as int),
    {
        let mut cache: Vec<Option<Vec<Endpoint>>> = Vec::new();
        let mut reached: Vec<Vec<Point>> = Vec::new();
        let mut i: usize = 0;
        while i < n
            invariant
                i <= n,
                cache@.len() == i,
                reached@.len() == i,
                forall|k: int| 0 <= k < i ==> #[trigger] cache@[k] is None,
                forall|k: int| 0 <= k < i ==> (#[trigger] reached@[k])@ == Seq::<Point>::empty(),
            decreases n - i,
        {
            cache.push(None);
            reached.push(Vec::new());
            i = i + 1;
        }
        let s: Signals = Signals { cache, reached, pending: Vec::new() };
        proof {
            assert(s@.cache =~= SignalsView::fresh(n as int).cache);
            assert(s@.reached =~= SignalsView::fresh(n as int).reached);
        }
        s
    }
}

/// The sheet and what is remembered of its nets.
pub struct SignalState {
    pub d: Drawing,
    pub s: SignalsView,
}

/// The endpoints of a net; the stacks among its pins are drawn the first time.
pub open spec fn endpoints_for(sc: Scene<'_>, st: SignalState, sn: int) -> (SignalState, Seq<Endpoint>) {
    let net = sc.model.nets@[sn];
    match st.s.cache[sn] {
        Some(e) => (st, e),
        None => {
            let c = collapsed(sc, st.d, endpoints_of(sc, net), net.name, true, false);
            (
                SignalState {
                    d: c.0,
                    s: SignalsView { cache: st.s.cache.update(sn, Some(c.1)), ..st.s },
                },
                c.1,
            )
        },
    }
}

impl Canvas {
    pub fn eps_for(&mut self, sc: &Scene, s: &mut Signals, sn: usize) -> (r: Vec<Endpoint>)
        requires
            sc.wf(),
            sn < sc.model.nets@.len(),
            old(s)@.wf(*sc),
        ensures
            ((SignalState { d: final(self)@, s: final(s)@ }), r@) == endpoints_for(
                *sc,
                (SignalState { d: old(self)@, s: old(s)@ }),
                sn as int,
            ),
            final(s)@.wf(*sc),
            endpoints_wf(*sc, r@),
    {
        let cached: Option<Vec<Endpoint>> = match &s.cache[sn] {
            Some(v) => Some(copy_endpoints(v)),
            None => None,
        };
        proof {
            let c = s@.cache[sn as int];
        }
        match cached {
            Some(v) => v,
            None => {
                let raw: Vec<Endpoint> = net_endpoints(sc, sn);
                let name: &String = &sc.model.nets[sn].name;
                proof {
                    lemma_collapsed_wf(*sc, self@, raw@, *name, true, false);
                }
                let eps: Vec<Endpoint> = self.collapse_stacked_pins(sc, &raw, name, true, false);
                let ghost before = s@;
                s.cache.set(sn, Some(copy_endpoints(&eps)));
                proof {
                    assert(s@.cache =~= before.cache.update(sn as int, Some(eps@)));
                }
                eps
            },
        }
    }
}

// ---------------------------------------------------------------- lanes of boundary ports

/// Is the pin a close neighbour of the endpoint, on a signal net with more endpoints?
pub open spec fn boxes_in(sc: Scene<'_>, e: Endpoint, n: int) -> bool {
    let p = sc.model.placed@[e.placed as int];
    let pin = geom_of(*sc.design, p).pins@[n];
    !pin.hidden && match pad_position(*sc.design, p, pin.number@) {
        Some(pos) => !spec_near_point(pos, e.pos) && manhattan(pos, e.pos) <= 2 * sc.cfg.grid_mm
            + EPS && match pin_net(sc.model.nets@, e.placed as int, pin.number@) {
            Some(sn) => sc.model.nets@[sn].class == NetClass::Signal
                && sc.model.nets@[sn].design_endpoints > 1,
            None => false,
        },
        None => false,
    }
}

/// Does a neighbouring pin carry a signal net that will be wired past this endpoint?
pub open spec fn boxed_in(sc: Scene<'_>, e: Endpoint) -> bool {
    exists|n: int|
        0 <= n < geom_of(*sc.design, sc.model.placed@[e.placed as int]).pins@.len()
            && #[trigger] boxes_in(sc, e, n)
}

pub fn pin_boxed_by_wiring_neighbor(sc: &Scene, e: &Endpoint) -> (r: bool)
    requires
        sc.wf(),
        e.placed < sc.model.placed@.len(),
    ensures
        r == boxed_in(*sc, *e),
{
    let p: &PlacedComp = &sc.model.placed[e.placed];
    let geom: &SymbolGeom = &sc.design.comps[p.comp].geom;
    let window: i64 = 2 * sc.cfg.grid_mm as i64 + EPS;
    let mut n: usize = 0;
    while n < geom.pins.len()
        invariant
            n <= geom.pins.len(),
            sc.wf(),
            e.placed < sc.model.placed@.len(),
            *p == sc.model.placed@[e.placed as int],
            *geom == geom_of(*sc.design, *p),
            window == 2 * sc.cfg.grid_mm + EPS,
            forall|k: int| 0 <= k < n ==> !#[trigger] boxes_in(*sc, *e, k),
        decreases geom.pins.len() - n,
    {
        if !geom.pins[n].hidden {
            match pad_at(sc.design, p, &geom.pins[n].number.show()) {
                Some(pos) => {
                    if !near(pos, e.pos) && manhattan_of(pos, e.pos) <= window {
                        match find_pin_net(&sc.model.nets, e.placed, &geom.pins[n].number.show()) {
                            Some(sn) => {
                                if sc.model.nets[sn].class == NetClass::Signal
                                    && sc.model.nets[sn].design_endpoints > 1 {
                                    proof {
                                        assert(boxes_in(*sc, *e, n as int));
                                    }
                                    return true;
                                }
                            },
                            None => {},
                        }
                    }
                },
                None => {},
            }
        }
        n = n + 1;
    }
    false
}

/// The lane that the label of an endpoint needs.
pub open spec fn lane(sc: Scene<'_>, e: Endpoint, n: int) -> BBox {
    let h = spec_half(sc.cfg.grid_mm as int) as int;
    let len = spec_stub_len(*sc.cfg, n) as int;
    if e.dir.x != 0 {
        let x = spec_shift(e.pos.x as int, e.dir.x as int, len) as int;
        bx(spec_min(e.pos.x as int, x), e.pos.y - h, spec_max(e.pos.x as int, x), e.pos.y + h)
    } else {
        let y = spec_shift(e.pos.y as int, e.dir.y as int, len) as int;
        bx(e.pos.x - h, spec_min(e.pos.y as int, y), e.pos.x + h, spec_max(e.pos.y as int, y))
    }
}

fn lane_of(sc: &Scene, e: &Endpoint, name: &String) -> (b: BBox)
    requires
        sc.wf(),
    ensures
        b == lane(*sc, *e, name@.len() as int),
{
    let h: i64 = half(sc.cfg.grid_mm as i64) as i64;
    let len: i64 = label_stub_len(sc.cfg, name.as_str()) as i64;
    if e.dir.x != 0 {
        let x: Iu = shift(e.pos.x, e.dir.x, len);
        make_box(
            lesser(e.pos.x, x) as i64,
            e.pos.y as i64 - h,
            greater(e.pos.x, x) as i64,
            e.pos.y as i64 + h,
        )
    } else {
        let y: Iu = shift(e.pos.y, e.dir.y, len);
        make_box(
            e.pos.x as i64 - h,
            lesser(e.pos.y, y) as i64,
            e.pos.x as i64 + h,
            greater(e.pos.y, y) as i64,
        )
    }
}

/// The lane of one net kept free, where the net has a single endpoint that is boxed in.
#[verifier::opaque]
pub open spec fn lane_kept(sc: Scene<'_>, st: SignalState, sn: int) -> SignalState {
    let net = sc.model.nets@[sn];
    if net.class != NetClass::Signal || net.design_endpoints > 1 {
        st
    } else {
        let (st1, eps) = endpoints_for(sc, st, sn);
        if eps.len() > 0 && boxed_in(sc, eps[0]) {
            SignalState {
                d: st1.d.reserved(lane(sc, eps[0], net.name@.len() as int), net.name),
                s: st1.s,
            }
        } else {
            st1
        }
    }
}

/// The lanes of the first `n` nets.
pub open spec fn lanes_kept(sc: Scene<'_>, st: SignalState, n: int) -> SignalState
    decreases n,
{
    if n <= 0 || n > sc.model.nets@.len() {
        st
    } else {
        lane_kept(sc, lanes_kept(sc, st, n - 1), n - 1)
    }
}

impl Canvas {
    pub fn reserve_boundary_lanes(&mut self, sc: &Scene, s: &mut Signals)
        requires
            sc.wf(),
            old(s)@.wf(*sc),
        ensures
            (SignalState { d: final(self)@, s: final(s)@ }) == lanes_kept(
                *sc,
                (SignalState { d: old(self)@, s: old(s)@ }),
                sc.model.nets@.len() as int,
            ),
            final(s)@.wf(*sc),
    {
        let ghost st = SignalState { d: self@, s: s@ };
        let mut sn: usize = 0;
        while sn < sc.model.nets.len()
            invariant
                sn <= sc.model.nets.len(),
                sc.wf(),
                s@.wf(*sc),
                (SignalState { d: self@, s: s@ }) == lanes_kept(*sc, st, sn as int),
            decreases sc.model.nets.len() - sn,
        {
            proof {
                reveal(lane_kept);
            }
            let net: &SheetNet = &sc.model.nets[sn];
            if net.class == NetClass::Signal && net.design_endpoints <= 1 {
                let eps: Vec<Endpoint> = self.eps_for(sc, s, sn);
                if eps.len() > 0 && pin_boxed_by_wiring_neighbor(sc, &eps[0]) {
                    let b: BBox = lane_of(sc, &eps[0], &net.name);
                    self.reserve(b, &net.name);
                }
            }
            sn = sn + 1;
        }
    }
}

// ---------------------------------------------------------------- hierarchical labels

/// The stubs of the first `n` endpoints of `order`, one endpoint after the other.
pub open spec fn port_stubs(
    sc: Scene<'_>,
    n: int,
    eps: Seq<Endpoint>,
    order: Seq<usize>,
    k: int,
) -> Seq<StubView>
    decreases k,
{
    if k <= 0 || k > order.len() {
        Seq::empty()
    } else {
        port_stubs(sc, n, eps, order, k - 1) + stub_candidates(
            *sc.cfg,
            n,
            eps[order[k - 1] as int],
            order[k - 1],
            StubKind::Hier,
        )
    }
}

fn port_stubs_of(sc: &Scene, net: &String, eps: &Vec<Endpoint>, order: &Vec<usize>) -> (r: Vec<Stub>)
    requires
        sc.wf(),
        all_below(order@, eps@.len() as int),
    ensures
        stubs(r@) == port_stubs(*sc, net@.len() as int, eps@, order@, order@.len() as int),
        order@.len() > 0 ==> r@.len() > 0,
        forall|i: int| 0 <= i < r@.len() ==> (#[trigger] r@[i]).from < eps@.len(),
{
    let mut out: Vec<Stub> = Vec::new();
    let mut k: usize = 0;
    proof {
        assert(stubs(out@) =~= Seq::empty());
    }
    while k < order.len()
        invariant
            k <= order.len(),
            sc.wf(),
            all_below(order@, eps@.len() as int),
            stubs(out@) == port_stubs(*sc, net@.len() as int, eps@, order@, k as int),
            k > 0 ==> out@.len() > 0,
            forall|i: int| 0 <= i < out@.len() ==> (#[trigger] out@[i]).from < eps@.len(),
        decreases order.len() - k,
    {
        let ei: usize = order[k];
        let mut more: Vec<Stub> = label_stubs(sc.cfg, net, &eps[ei], ei, StubKind::Hier);
        let ghost before = out@;
        let ghost added = more@;
        let ghost cands = stub_candidates(
            *sc.cfg,
            net@.len() as int,
            eps@[ei as int],
            ei,
            StubKind::Hier,
        );
        proof {
            assert forall|i: int| 0 <= i < added.len() implies (#[trigger] added[i]).from
                < eps@.len() by {
                assert(stubs(added)[i] == added[i]@);
                assert(stubs(added).len() == cands.len());
                if eps@[ei as int].dir.y != 0 {
                    assert(cands[i] == crate::canvas::elbow_stub(
                        *sc.cfg,
                        net@.len() as int,
                        eps@[ei as int],
                        ei,
                        StubKind::Hier,
                        crate::canvas::elbow_at(StubKind::Hier, i),
                    ));
                } else {
                    assert(cands[i] == crate::canvas::straight_stub(
                        *sc.cfg,
                        net@.len() as int,
                        eps@[ei as int],
                        ei,
                        StubKind::Hier,
                        i,
                    ));
                }
                assert(cands[i].from == ei);
            }
        }
        out.append(&mut more);
        proof {
            assert(out@ =~= before + added);
            assert(stubs(out@) =~= stubs(before) + stubs(added));
        }
        k = k + 1;
    }
    out
}

/// The stub that a port is anchored on.
pub open spec fn port_stub(
    sc: Scene<'_>,
    d: Drawing,
    net: Seq<char>,
    direction: PortDirection,
    eps: Seq<Endpoint>,
) -> StubView {
    let order = anchor_order(sc.model.placed@, direction, eps);
    let c = port_stubs(sc, net.len() as int, eps, order, order.len() as int);
    match best_stub(sc, d, c, net, StubKind::Hier) {
        Some(i) => c[i],
        None => c[0],
    }
}

proof fn lemma_axis_len(eps: Seq<Endpoint>, n: int)
    requires
        0 <= n <= eps.len(),
    ensures
        crate::subsets::by_axis(eps, true, n).len() + crate::subsets::by_axis(eps, false, n).len()
            == n,
    decreases n,
{
    if n > 0 {
        lemma_axis_len(eps, n - 1);
    }
}

proof fn lemma_flow_len(eps: Seq<Endpoint>, v: Seq<usize>, left: bool, n: int)
    requires
        0 <= n <= v.len(),
    ensures
        crate::subsets::by_flow(eps, v, left, true, n).len() + crate::subsets::by_flow(
            eps,
            v,
            left,
            false,
            n,
        ).len() == n,
    decreases n,
{
    if n > 0 {
        lemma_flow_len(eps, v, left, n - 1);
    }
}

/// Every endpoint is tried as the anchor of a port.
pub proof fn law_anchor_order_complete(
    placed: Seq<PlacedComp>,
    direction: PortDirection,
    eps: Seq<Endpoint>,
)
    ensures
        anchor_order(placed, direction, eps).len() == eps.len(),
{
    let side = crate::subsets::by_axis(eps, true, eps.len() as int);
    let vert = crate::subsets::by_axis(eps, false, eps.len() as int);
    lemma_axis_len(eps, eps.len() as int);
    let m = crate::subsets::twice_middle(placed);
    let left = direction == PortDirection::Input;
    crate::order::law_sort_is_permutation(
        side,
        |a: usize, b: usize|
            crate::subsets::outness(eps[a as int], m) < crate::subsets::outness(eps[b as int], m),
    );
    crate::order::law_sort_is_permutation(
        vert,
        |a: usize, b: usize| crate::subsets::column_after(eps, true, a, b),
    );
    let by_col = |a: usize, b: usize| crate::subsets::column_after(eps, left, a, b);
    crate::order::law_sort_is_permutation(side, by_col);
    crate::order::law_sort_is_permutation(vert, by_col);
    let s = sorted_by(side, by_col);
    lemma_flow_len(eps, s, left, s.len() as int);
}

impl Canvas {
    /// Draw the hierarchical label of a port on the stub of the endpoint that suits it best.
    /// The endpoint is handed back.
    pub fn anchor_port(
        &mut self,
        sc: &Scene,
        net: &String,
        direction: PortDirection,
        eps: &Vec<Endpoint>,
    ) -> (r: usize)
        requires
            sc.wf(),
            eps@.len() > 0,
        ensures
            ({
                let s = port_stub(*sc, old(self)@, net@, direction, eps@);
                r == s.from && final(self)@ == old(self)@.anchored_port(
                    s.path,
                    s.at,
                    s.rotation,
                    *net,
                    direction,
                )
            }),
            r < eps@.len(),
    {
        let order: Vec<usize> = port_anchor_order(&sc.model.placed, direction, eps);
        proof {
            law_anchor_order_complete(sc.model.placed@, direction, eps@);
        }
        let mut c: Vec<Stub> = port_stubs_of(sc, net, eps, &order);
        let choice: usize = match self.choose_stub(sc, &c, net, StubKind::Hier) {
            Some(i) => i,
            None => 0,
        };
        let ghost all = stubs(c@);
        let s: Stub = c.swap_remove(choice);
        proof {
            assert(s@ == all[choice as int]);
        }
        let from: usize = s.from;
        self.commit_hier(net, direction, s.path, s.at, s.rotation);
        from
    }
}

/// Does the stub fit as the hierarchical label of a tree?
pub open spec fn tree_port_fits(
    sc: Scene<'_>,
    d: Drawing,
    net: Seq<char>,
    s: StubView,
) -> bool {
    let b = hier_box(net.len() as int, s.at, s.rotation as int);
    wire_fits(sc, d, s.path, net, seq![s.placed]) && !doubles(d.reg.segs, s.path, net) && crossings(
        d.reg.segs,
        s.path,
        None,
    ) == 0 && text_fits(sc, d, b, net, true) && box_clear_of_runs(d.reg.segs, b, None)
}

/// The first stub, at or after stub `k`, that fits.
pub open spec fn first_tree_port(
    sc: Scene<'_>,
    d: Drawing,
    net: Seq<char>,
    c: Seq<StubView>,
    k: int,
) -> Option<StubView>
    decreases c.len() - k,
{
    if k < 0 || k >= c.len() {
        None
    } else if tree_port_fits(sc, d, net, c[k]) {
        Some(c[k])
    } else {
        first_tree_port(sc, d, net, c, k + 1)
    }
}

/// The tree with the hierarchical label of its port, on the stub of an endpoint or on a branch;
/// none where neither has room.
pub open spec fn tree_ported(
    sc: Scene<'_>,
    d: Drawing,
    net: String,
    direction: PortDirection,
    eps: Seq<Endpoint>,
    from: int,
    analog: bool,
) -> Option<Drawing> {
    let order = anchor_order(sc.model.placed@, direction, eps);
    let c = port_stubs(sc, net@.len() as int, eps, order, order.len() as int);
    match first_tree_port(sc, d, net@, c, 0) {
        Some(s) => Some(
            d.wired(s.path, net).with_hier_label(
                net,
                direction,
                Site { at: s.at, rotation: s.rotation },
            ),
        ),
        None => match tree_branch(sc, d, net@, from, analog) {
            Some(b) => Some(
                d.wired(b.path, net).joined(b.path[0]).with_hier_label(
                    net,
                    direction,
                    Site {
                        at: b.at,
                        rotation: if b.rotation == 180 {
                            0
                        } else {
                            180
                        },
                    },
                ),
            ),
            None => None,
        },
    }
}

impl Canvas {
    fn find_tree_port(&self, sc: &Scene, net: &String, c: &Vec<Stub>) -> (r: Option<usize>)
        requires
            sc.wf(),
        ensures
            match r {
                Some(i) => i < c@.len() && first_tree_port(*sc, self@, net@, stubs(c@), 0) == Some(
                    c@[i as int]@,
                ),
                None => first_tree_port(*sc, self@, net@, stubs(c@), 0) is None,
            },
    {
        let mut k: usize = 0;
        while k < c.len()
            invariant
                k <= c.len(),
                sc.wf(),
                first_tree_port(*sc, self@, net@, stubs(c@), 0) == first_tree_port(
                    *sc,
                    self@,
                    net@,
                    stubs(c@),
                    k as int,
                ),
            decreases c.len() - k,
        {
            let s: &Stub = &c[k];
            let except: Vec<usize> = vec![s.placed];
            proof {
                assert(except@ =~= seq![s.placed]);
                assert(stubs(c@)[k as int] == s@);
            }
            let b: BBox = hier_text_box(net.as_str(), s.at, s.rotation);
            if self.wire_ok(sc, &s.path, net, &except) && !self.overlaps_same_net(&s.path, net)
                && self.reg.count_crossings(&s.path) == 0 && self.text_ok(sc, &b, net, true)
                && self.box_clear_of_all_segs(&b, None) {
                return Some(k);
            }
            k = k + 1;
        }
        None
    }

    /// Draw the hierarchical label of a port on the tree of its net.
    pub fn place_tree_hier_label(
        &mut self,
        sc: &Scene,
        net: &String,
        direction: PortDirection,
        eps: &Vec<Endpoint>,
        from: usize,
        analog: bool,
    ) -> (r: bool)
        requires
            sc.wf(),
        ensures
            match tree_ported(*sc, old(self)@, *net, direction, eps@, from as int, analog) {
                Some(d) => r && final(self)@ == d,
                None => !r && final(self)@ == old(self)@,
            },
    {
        let order: Vec<usize> = port_anchor_order(&sc.model.placed, direction, eps);
        let mut c: Vec<Stub> = port_stubs_of(sc, net, eps, &order);
        match self.find_tree_port(sc, net, &c) {
            Some(i) => {
                let s: Stub = c.swap_remove(i);
                let site: Site = Site { at: s.at, rotation: s.rotation };
                self.wire(s.path, net);
                self.add_hier_label(net, direction, site);
                return true;
            },
            None => {},
        }
        match self.tree_branch_stub(sc, net, from, analog) {
            Some(b) => {
                proof {
                    lemma_branch_path(*sc, self@, net@, from as int, analog);
                }
                let start: Point = b.path[0];
                let rotation: i32 = if b.rotation == 180 {
                    0
                } else {
                    180
                };
                let site: Site = Site { at: b.at, rotation };
                self.wire(b.path, net);
                self.push_junction(start);
                self.add_hier_label(net, direction, site);
                true
            },
            None => false,
        }
    }
}

// ---------------------------------------------------------------- a direct wire

/// The wires that join two facing pins.
pub open spec fn direct_paths(g: int, a: Endpoint, b: Endpoint) -> Seq<Seq<Point>> {
    if a.dir.x != 0 && b.dir.x != 0 && a.dir.x != b.dir.x {
        if a.dir.x < 0 {
            facing(g, b.pos, a.pos)
        } else {
            facing(g, a.pos, b.pos)
        }
    } else if a.dir.y != 0 && b.dir.y != 0 && a.dir.y != b.dir.y {
        if a.dir.y < 0 {
            flip_paths(facing(g, flip(b.pos), flip(a.pos)))
        } else {
            flip_paths(facing(g, flip(a.pos), flip(b.pos)))
        }
    } else {
        Seq::empty()
    }
}

/// The first path, at or after path `k`, that fits and crosses nothing.
pub open spec fn first_direct(
    sc: Scene<'_>,
    d: Drawing,
    net: Seq<char>,
    except: Seq<usize>,
    ps: Seq<Seq<Point>>,
    k: int,
) -> Option<Seq<Point>>
    decreases ps.len() - k,
{
    if k < 0 || k >= ps.len() {
        None
    } else if wire_fits(sc, d, ps[k], net, except) && crossings(d.reg.segs, ps[k], None) == 0 {
        Some(ps[k])
    } else {
        first_direct(sc, d, net, except, ps, k + 1)
    }
}

/// The wire that joins the two endpoints of a net directly, where there is one.
pub open spec fn direct_wire(
    sc: Scene<'_>,
    d: Drawing,
    net: SheetNet,
    eps: Seq<Endpoint>,
) -> Option<Seq<Point>> {
    let a = eps[0];
    let b = eps[1];
    if eps.len() != 2 || net.port is Some || net.on_child_blocks || a.placed == b.placed
        || manhattan(b.pos, a.pos) > sc.cfg.wire_length_guard_mm || manhattan(b.pos, a.pos) == 0 {
        None
    } else {
        first_direct(
            sc,
            d,
            net.name@,
            seq![a.placed, b.placed],
            direct_paths(sc.cfg.grid_mm as int, a, b),
            0,
        )
    }
}

impl Canvas {
    /// Join the two endpoints of a net by a wire that crosses nothing.
    pub fn try_direct_wire(&mut self, sc: &Scene, net: &SheetNet, eps: &Vec<Endpoint>) -> (r: bool)
        requires
            sc.wf(),
        ensures
            match direct_wire(*sc, old(self)@, *net, eps@) {
                Some(p) => r && final(self)@ == old(self)@.wired(p, net.name),
                None => !r && final(self)@ == old(self)@,
            },
    {
        if eps.len() != 2 || net.port.is_some() || net.on_child_blocks {
            return false;
        }
        let a: &Endpoint = &eps[0];
        let b: &Endpoint = &eps[1];
        let far: i64 = manhattan_of(b.pos, a.pos);
        if a.placed == b.placed || far > sc.cfg.wire_length_guard_mm as i64 || far == 0 {
            return false;
        }
        let except: Vec<usize> = vec![a.placed, b.placed];
        proof {
            assert(except@ =~= seq![a.placed, b.placed]);
        }
        let g: Iu = sc.cfg.grid_mm;
        let ps: Vec<Vec<Point>> = if a.dir.x != 0 && b.dir.x != 0 && a.dir.x != b.dir.x {
            if a.dir.x < 0 {
                facing_paths(g, b.pos, a.pos)
            } else {
                facing_paths(g, a.pos, b.pos)
            }
        } else if a.dir.y != 0 && b.dir.y != 0 && a.dir.y != b.dir.y {
            let turned: Vec<Vec<Point>> = if a.dir.y < 0 {
                facing_paths(g, flipped(b.pos), flipped(a.pos))
            } else {
                facing_paths(g, flipped(a.pos), flipped(b.pos))
            };
            flipped_paths(&turned)
        } else {
            let none: Vec<Vec<Point>> = Vec::new();
            proof {
                assert(paths(none@) =~= Seq::empty());
            }
            none
        };
        let ghost all = paths(ps@);
        let mut k: usize = 0;
        while k < ps.len()
            invariant
                k <= ps.len(),
                sc.wf(),
                *self == *old(self),
                all == paths(ps@),
                direct_wire(*sc, self@, *net, eps@) == first_direct(
                    *sc,
                    self@,
                    net.name@,
                    except@,
                    all,
                    k as int,
                ),
            decreases ps.len() - k,
        {
            proof {
                assert(all[k as int] == ps@[k as int]@);
            }
            if self.wire_ok(sc, &ps[k], &net.name, &except) && self.reg.count_crossings(&ps[k])
                == 0 {
                let path: Vec<Point> = copy_path(&ps[k]);
                self.wire(path, &net.name);
                return true;
            }
            k = k + 1;
        }
        false
    }
}

// ---------------------------------------------------------------- one label for two endpoints

/// How unsuited an endpoint is to carry the one label of its net.
pub struct LabelKey {
    pub vertical: int,
    pub pins: int,
    pub x: int,
    pub y: int,
}

/// A length cut to micrometres, towards zero.
pub open spec fn micrometres(v: int) -> int {
    if v >= 0 {
        v / 10
    } else {
        -((-v) / 10)
    }
}

fn micrometres_of(v: Iu) -> (r: i64)
    ensures
        r == micrometres(v as int),
{
    let v: i64 = v as i64;
    if v >= 0 {
        v / 10
    } else {
        -((-v) / 10)
    }
}

pub open spec fn label_key(sc: Scene<'_>, e: Endpoint) -> LabelKey {
    LabelKey {
        vertical: if e.dir.y != 0 {
            1
        } else {
            0
        },
        pins: sc.design.comps@[sc.model.placed@[e.placed as int].comp as int].visible_pins as int,
        x: micrometres(e.pos.x as int),
        y: micrometres(e.pos.y as int),
    }
}

/// Sideways pins first, then the busier component, then by position.
pub open spec fn key_less(a: LabelKey, b: LabelKey) -> bool {
    if a.vertical != b.vertical {
        a.vertical < b.vertical
    } else if a.pins != b.pins {
        a.pins > b.pins
    } else if a.x != b.x {
        a.x < b.x
    } else {
        a.y < b.y
    }
}

/// The first of the best suited endpoints among the first `n`.
pub open spec fn label_carrier(sc: Scene<'_>, eps: Seq<Endpoint>, n: int) -> int
    decreases n,
{
    if n <= 1 || n > eps.len() {
        0
    } else {
        let before = label_carrier(sc, eps, n - 1);
        if key_less(label_key(sc, eps[n - 1]), label_key(sc, eps[before])) {
            n - 1
        } else {
            before
        }
    }
}

fn label_carrier_of(sc: &Scene, eps: &Vec<Endpoint>) -> (r: usize)
    requires
        sc.wf(),
        endpoints_wf(*sc, eps@),
        eps@.len() > 0,
    ensures
        r == label_carrier(*sc, eps@, eps@.len() as int),
        r < eps@.len(),
{
    let mut best: usize = 0;
    let mut n: usize = 1;
    while n < eps.len()
        invariant
            1 <= n <= eps.len(),
            best < n,
            sc.wf(),
            endpoints_wf(*sc, eps@),
            best == label_carrier(*sc, eps@, n as int),
        decreases eps.len() - n,
    {
        let a: &Endpoint = &eps[n];
        let b: &Endpoint = &eps[best];
        let pa: usize = sc.design.comps[sc.model.placed[a.placed].comp].visible_pins;
        let pb: usize = sc.design.comps[sc.model.placed[b.placed].comp].visible_pins;
        let va: bool = a.dir.y != 0;
        let vb: bool = b.dir.y != 0;
        let xa: i64 = micrometres_of(a.pos.x);
        let xb: i64 = micrometres_of(b.pos.x);
        let less: bool = if va != vb {
            !va
        } else if pa != pb {
            pa > pb
        } else if xa != xb {
            xa < xb
        } else {
            micrometres_of(a.pos.y) < micrometres_of(b.pos.y)
        };
        if less {
            best = n;
        }
        n = n + 1;
    }
    best
}

/// The endpoints joined so far to the one that carries the label.
pub struct Joining {
    pub d: Drawing,
    pub wired: Seq<usize>,
    pub left: Seq<usize>,
}

/// The first `n` endpoints joined to the one that carries the label, as far as they can be.
pub open spec fn joined_upto(
    sc: Scene<'_>,
    j: Joining,
    eps: Seq<Endpoint>,
    rep: int,
    from: int,
    net: String,
    n: int,
) -> Joining
    decreases n,
{
    if n <= 0 || n > eps.len() {
        j
    } else {
        let before = joined_upto(sc, j, eps, rep, from, net, n - 1);
        if n - 1 == rep {
            before
        } else {
            let runs = net_runs(before.d.reg.segs, net@, from, before.d.reg.segs.len() as int);
            let js = all_joins(sc, eps[n - 1], runs, eps, before.wired);
            match join_choice(sc, before.d, js, net@, true) {
                Some(c) => Joining {
                    d: before.d.with_join(c, net),
                    wired: before.wired.push((n - 1) as usize),
                    left: before.left,
                },
                None => Joining { left: before.left.push((n - 1) as usize), ..before },
            }
        }
    }
}

pub open spec fn picked(eps: Seq<Endpoint>, idx: Seq<usize>) -> Seq<Endpoint> {
    Seq::new(idx.len(), |i: int| eps[idx[i] as int])
}

/// One endpoint carries a global label and the others are wired to it; the endpoints that could
/// not be wired still need a label. Nothing is changed where none could.
pub open spec fn deduplicated(
    sc: Scene<'_>,
    d: Drawing,
    net: String,
    eps: Seq<Endpoint>,
) -> (Drawing, Seq<Endpoint>) {
    let rep = label_carrier(sc, eps, eps.len() as int);
    let start = Joining {
        d: d.with_label(sc, net, eps[rep], true),
        wired: seq![rep as usize],
        left: Seq::empty(),
    };
    let j = joined_upto(sc, start, eps, rep, d.reg.segs.len() as int, net, eps.len() as int);
    if j.wired.len() == 1 {
        (d, eps)
    } else {
        (j.d, picked(eps, j.left))
    }
}

pub proof fn lemma_label_adds(sc: Scene<'_>, d: Drawing, net: String, e: Endpoint, global: bool)
    ensures
        adds_wiring(d.with_label(sc, net, e, global), d),
{
}

proof fn lemma_joined_adds(
    sc: Scene<'_>,
    j: Joining,
    eps: Seq<Endpoint>,
    rep: int,
    from: int,
    net: String,
    n: int,
)
    ensures
        adds_wiring(joined_upto(sc, j, eps, rep, from, net, n).d, j.d),
    decreases n,
{
    if 0 < n <= eps.len() {
        lemma_joined_adds(sc, j, eps, rep, from, net, n - 1);
        let before = joined_upto(sc, j, eps, rep, from, net, n - 1);
        if n - 1 != rep {
            let runs = net_runs(before.d.reg.segs, net@, from, before.d.reg.segs.len() as int);
            let js = all_joins(sc, eps[n - 1], runs, eps, before.wired);
            match join_choice(sc, before.d, js, net@, true) {
                Some(c) => {
                    lemma_join_adds(before.d, c, net);
                    lemma_adds_trans(j.d, before.d, before.d.with_join(c, net));
                },
                None => {},
            }
        }
    }
}

impl Canvas {
    /// Keep one label on a net and wire its other endpoints to it. The endpoints that still need
    /// a label are handed back.
    pub fn dedup_signal_net(&mut self, sc: &Scene, net: &String, eps: Vec<Endpoint>) -> (r: Vec<
        Endpoint,
    >)
        requires
            sc.wf(),
            endpoints_wf(*sc, eps@),
            eps@.len() > 0,
        ensures
            (final(self)@, r@) == deduplicated(*sc, old(self)@, *net, eps@),
            endpoints_wf(*sc, r@),
    {
        let rep: usize = label_carrier_of(sc, &eps);
        let ghost d0 = self@;
        let undo: WiringSnapshot = self.snapshot_wiring();
        let from: usize = self.reg.segs.len();
        self.emit_label_stub(sc, net, &eps[rep], true);
        let mut wired: Vec<usize> = vec![rep];
        let mut left: Vec<usize> = Vec::new();
        let ghost start = Joining { d: self@, wired: seq![rep as usize], left: Seq::empty() };
        proof {
            assert(wired@ =~= seq![rep as usize]);
            lemma_label_adds(*sc, d0, *net, eps@[rep as int], true);
        }
        let mut n: usize = 0;
        while n < eps.len()
            invariant
                n <= eps.len(),
                sc.wf(),
                endpoints_wf(*sc, eps@),
                from == d0.reg.segs.len(),
                adds_wiring(self@, d0),
                all_below(wired@, eps@.len() as int),
                all_below(left@, eps@.len() as int),
                wired@.len() >= 1,
                (Joining { d: self@, wired: wired@, left: left@ }) == joined_upto(
                    *sc,
                    start,
                    eps@,
                    rep as int,
                    from as int,
                    *net,
                    n as int,
                ),
            decreases eps.len() - n,
        {
            if n != rep {
                let runs: Vec<Span> = self.runs_since(net, from);
                let js: Vec<Join> = tree_join_candidates(sc, &eps[n], &runs, &eps, &wired);
                match self.best_join(sc, &js, net, true) {
                    Some(i) => {
                        let path: Vec<Point> = copy_path(&js[i].path);
                        let at: Point = js[i].at;
                        let ghost before = self@;
                        let ghost c = js@[i as int]@;
                        self.draw_join(path, at, net);
                        proof {
                            lemma_join_adds(before, c, *net);
                            lemma_adds_trans(d0, before, self@);
                        }
                        wired.push(n);
                    },
                    None => {
                        left.push(n);
                    },
                }
            }
            n = n + 1;
        }
        if wired.len() == 1 {
            proof {
                law_rollback_undoes(d0, self@, undo);
            }
            self.rollback_wiring(&undo);
            return eps;
        }
        pick(sc, &eps, &left)
    }
}

pub fn pick(sc: &Scene, eps: &Vec<Endpoint>, idx: &Vec<usize>) -> (r: Vec<Endpoint>)
    requires
        endpoints_wf(*sc, eps@),
        all_below(idx@, eps@.len() as int),
    ensures
        r@ == picked(eps@, idx@),
        endpoints_wf(*sc, r@),
{
    let mut out: Vec<Endpoint> = Vec::new();
    let mut n: usize = 0;
    while n < idx.len()
        invariant
            n <= idx.len(),
            endpoints_wf(*sc, eps@),
            all_below(idx@, eps@.len() as int),
            out@ =~= picked(eps@, idx@).take(n as int),
            endpoints_wf(*sc, out@),
        decreases idx.len() - n,
    {
        out.push(copy_endpoint(&eps[idx[n]]));
        n = n + 1;
    }
    proof {
        assert(out@ =~= picked(eps@, idx@));
    }
    out
}

} // verus!
