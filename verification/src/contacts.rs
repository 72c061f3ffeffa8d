//! Where nets can make contact on a routed sheet: only at wires of last resort.

use vstd::prelude::*;
use crate::align::align_items;
use crate::apart::{
    apart_but, lasting, later, lemma_added, lemma_best_wire, lemma_bus, lemma_direct,
    lemma_feasible, lemma_first_fit, lemma_fits_is_safe, lemma_flag, lemma_none_excused, lemma_same,
    lemma_stack, lemma_supplied, lemma_supply, lemma_tree_labelled, lemma_trees_of_net, nets_apart,
};
use crate::blocks::{
    all_blocks_drawn, block_origin, block_size, blocks_drawn, edge_ports, fallback_ports, ports_on,
    side_drawn, unanchored,
};
use crate::canvas::{
    best_stub, label_kind, label_stub, lists, short_stub, stub_candidates, Drawing, Endpoint, Fit,
    Scene, StubKind,
};
use crate::glyphs::{attachment, potential_rank};
use crate::grow::{all_below, net_runs};
use crate::labels::{
    all_labelled, all_net_labelled, all_planned, annotated, away_from, label_order, left_over,
    net_labelled, nets_below, pair_after, pair_order, pairs_sorted, port_labelled, signal_nets,
    signals_routed, tops,
};
use crate::model::NetClass;
use crate::nets::{net_planned, on_root, subsets_wired, GroupState};
use crate::order::{includes, lemma_sorted_items, sorted_by, upto};
use crate::pins::endpoints_of;
use crate::place::{PlacedComp, SheetNet};
use crate::power::{collapse_one, collapse_upto, collapsed, edge_order, positions, stacks};
use crate::pulled::{law_alignment_keeps_nets_apart, pulls_level};
use crate::rails::{
    align_targets, bank_bus, bank_fits, bank_step, bank_symbol_y, bank_x, banks, banks_upto,
    flag_choice, flag_fits, flag_once, flag_site, BankState,
};
use crate::registry::{legs, with_path, LabelBox, RegPin};
use crate::route::{power_routed, sheet_routed, start_drawing, unconnected};
use crate::sheets::SheetPort;
use crate::signals::{
    deduplicated, endpoints_for, joined_upto, label_carrier, lane_kept, lanes_kept,
    law_anchor_order_complete, picked, port_stub, port_stubs, Annotation, Joining, SignalState,
    SignalsView,
};
use crate::subsets::{anchor_order, by_axis, by_flow, column_after, outness, twice_middle};
use crate::supply::{nets_supplied, supplied_upto, supply_choice};
use crate::tree::{all_joins, join_choice, join_paths};
use crate::units::{sat, Iu, Point};
use crate::warning::Warning;
use crate::wiring::Seg;
use crate::writer::PortDirection;
use crate::zones::{flag_order, flag_origin, flag_rows};

verus! {

// ---------------------------------------------------------------- wires of last resort

/// Is the endpoint one of the net's?
pub open spec fn is_end(sc: Scene<'_>, net: SheetNet, e: Endpoint) -> bool {
    exists|i: int|
        0 <= i < endpoints_of(sc, net).len() && #[trigger] endpoints_of(sc, net)[i] == e
}

/// The bus through the ends of a stack of neighbouring pins of the net.
pub open spec fn is_stack_bus(sc: Scene<'_>, net: SheetNet, path: Seq<Point>) -> bool {
    let eps = endpoints_of(sc, net);
    exists|r: int|
        0 <= r < stacks(eps, edge_order(eps)).len() && path == positions(
            eps,
            #[trigger] stacks(eps, edge_order(eps))[r],
        ) && stacks(eps, edge_order(eps))[r].len() >= 2
}

/// The short stub of a signal pin that has no room for a longer one.
pub open spec fn is_short_stub(sc: Scene<'_>, net: SheetNet, path: Seq<Point>) -> bool {
    net.class == NetClass::Signal && exists|e: Endpoint| #[trigger]
        is_end(sc, net, e) && path == short_stub(e).path
}

/// The first stub of an endpoint of a port.
pub open spec fn is_first_port_stub(sc: Scene<'_>, net: SheetNet, path: Seq<Point>) -> bool {
    net.port is Some && exists|e: Endpoint| #[trigger]
        is_end(sc, net, e) && path == stub_candidates(
            *sc.cfg,
            net.name@.len() as int,
            e,
            0,
            StubKind::Hier,
        )[0].path
}

/// A remark says that a power stub of this component touches another net.
pub open spec fn contact_said(sc: Scene<'_>, d: Drawing, net: String, placed: usize) -> bool {
    exists|i: int|
        0 <= i < d.warnings.len() && #[trigger] d.warnings[i] == (Warning::PowerStubContact {
            net,
            refdes: sc.design.comps@[sc.model.placed@[placed as int].comp as int].refdes,
        })
}

/// The plain stub of a power pin, where a remark says that it touches another net.
pub open spec fn is_remarked_stub(sc: Scene<'_>, d: Drawing, net: SheetNet, path: Seq<Point>) -> bool {
    exists|e: Endpoint, down: bool|
        contact_said(sc, d, net.name, e.placed) && path == (#[trigger] attachment(
            *sc.cfg,
            e.pos,
            e.dir,
            down,
            0,
            0,
        )).path
}

/// Is there a symbol of the net at the point?
pub open spec fn symbol_stands(d: Drawing, net: Seq<char>, at: Point) -> bool {
    exists|i: int|
        0 <= i < d.power_symbols.len() && (#[trigger] d.power_symbols[i]).net@ == net
            && d.power_symbols[i].at == at
}

/// The wire from a symbol of the net to the first place for its flag.
pub open spec fn is_first_flag_wire(sc: Scene<'_>, d: Drawing, net: SheetNet, path: Seq<Point>) -> bool {
    exists|at: Point, left: bool|
        symbol_stands(d, net.name@, at) && path == seq![
            at,
            #[trigger] flag_site(sc, net.name@.len() as int, at, left, 0),
        ]
}

/// A path that is drawn for the net though it may make contact with other nets.
pub open spec fn fallback(sc: Scene<'_>, d: Drawing, net: SheetNet, path: Seq<Point>) -> bool {
    ||| is_stack_bus(sc, net, path)
    ||| is_short_stub(sc, net, path)
    ||| is_first_port_stub(sc, net, path)
    ||| is_remarked_stub(sc, d, net, path)
    ||| is_first_flag_wire(sc, d, net, path)
}

/// The wire is a leg of the path, for the net.
pub open spec fn leg_of(s: Seg, path: Seq<Point>, net: Seq<char>) -> bool {
    s.net@ == net && exists|m: int|
        0 <= m < legs(path, path.len() - 1).len() && #[trigger] legs(path, path.len() - 1)[m]
            == s.span
}

/// Is wire `j` one of last resort: a leg of a bus through stacked pins, of the short stub of a
/// signal pin, of the first stub of a port, of a power stub with a remark on its contact, or of
/// the wire to the first place for a flag?
pub open spec fn last_resort(sc: Scene<'_>, d: Drawing, j: int) -> bool {
    exists|k: int, path: Seq<Point>|
        0 <= k < sc.model.nets@.len() && #[trigger] fallback(sc, d, sc.model.nets@[k], path)
            && leg_of(d.reg.segs[j], path, sc.model.nets@[k].name@)
}

pub open spec fn resort(sc: Scene<'_>) -> spec_fn(Drawing, int) -> bool {
    |d: Drawing, j: int| last_resort(sc, d, j)
}

/// Where a wire makes contact with a pin, or with a wire drawn before it, of another net, it is
/// one of last resort.
pub open spec fn contacts_are_last_resorts(sc: Scene<'_>, d: Drawing) -> bool {
    apart_but(d, resort(sc))
}

proof fn lemma_fallback_lasts(sc: Scene<'_>, a: Drawing, b: Drawing, net: SheetNet, path: Seq<Point>)
    requires
        later(b, a),
        fallback(sc, a, net, path),
    ensures
        fallback(sc, b, net, path),
{
    if is_remarked_stub(sc, a, net, path) {
        let (e, down) = choose|e: Endpoint, down: bool|
            contact_said(sc, a, net.name, e.placed) && path == (#[trigger] attachment(
                *sc.cfg,
                e.pos,
                e.dir,
                down,
                0,
                0,
            )).path;
        let i = choose|i: int|
            0 <= i < a.warnings.len() && #[trigger] a.warnings[i] == (Warning::PowerStubContact {
                net: net.name,
                refdes: sc.design.comps@[sc.model.placed@[e.placed as int].comp as int].refdes,
            });
        assert(b.warnings[i] == a.warnings[i]);
        assert(contact_said(sc, b, net.name, e.placed));
    }
    if is_first_flag_wire(sc, a, net, path) {
        let (at, left) = choose|at: Point, left: bool|
            symbol_stands(a, net.name@, at) && path == seq![
                at,
                #[trigger] flag_site(sc, net.name@.len() as int, at, left, 0),
            ];
        let i = choose|i: int|
            0 <= i < a.power_symbols.len() && (#[trigger] a.power_symbols[i]).net@ == net.name@
                && a.power_symbols[i].at == at;
        assert(b.power_symbols[i] == a.power_symbols[i]);
        assert(symbol_stands(b, net.name@, at));
    }
}

proof fn lemma_resort_lasts(sc: Scene<'_>)
    ensures
        lasting(resort(sc)),
{
    let ex = resort(sc);
    assert forall|a: Drawing, b: Drawing, j: int|
        #![trigger later(b, a), ex(a, j)]
        later(b, a) && 0 <= j < a.reg.segs.len() && ex(a, j) implies ex(b, j) by {
        let (k, path) = choose|k: int, path: Seq<Point>|
            0 <= k < sc.model.nets@.len() && #[trigger] fallback(sc, a, sc.model.nets@[k], path)
                && leg_of(a.reg.segs[j], path, sc.model.nets@[k].name@);
        lemma_fallback_lasts(sc, a, b, sc.model.nets@[k], path);
        assert(b.reg.segs[j] == a.reg.segs[j]);
    }
}

/// A path of last resort keeps contacts where they may be.
proof fn lemma_unchecked(sc: Scene<'_>, d: Drawing, b: Drawing, k: int, path: Seq<Point>)
    requires
        contacts_are_last_resorts(sc, d),
        later(b, d),
        0 <= k < sc.model.nets@.len(),
        b.reg.segs == with_path(d.reg.segs, path, sc.model.nets@[k].name),
        fallback(sc, b, sc.model.nets@[k], path),
    ensures
        contacts_are_last_resorts(sc, b),
{
    let ex = resort(sc);
    lemma_resort_lasts(sc);
    let more = legs(path, path.len() - 1);
    assert forall|j: int| d.reg.segs.len() <= j < b.reg.segs.len() implies #[trigger] ex(b, j) by {
        let m = j - d.reg.segs.len();
        assert(b.reg.segs[j].span == more[m]);
        assert(leg_of(b.reg.segs[j], path, sc.model.nets@[k].name@));
    }
    lemma_added(d, b, path, sc.model.nets@[k].name, ex);
}

// ---------------------------------------------------------------- stacks of pins

pub proof fn lemma_stacks_below(eps: Seq<Endpoint>)
    requires
        eps.len() <= usize::MAX,
    ensures
        crate::order::rows_wf(stacks(eps, edge_order(eps)), eps.len() as int),
{
    let order = edge_order(eps);
    let gt = |a: usize, b: usize| crate::power::edge_after(eps[a as int], eps[b as int]);
    let joins = |a: usize, b: usize| crate::power::stacks_on(eps, a, b);
    crate::order::lemma_sorted_items(upto(eps.len() as int), gt, |i: usize| i < eps.len());
    crate::power::lemma_runs_wf(order, joins, order.len() as int, eps.len() as int);
}

/// There are no more endpoints than pads.
pub proof fn lemma_few_endpoints(sc: Scene<'_>, net: SheetNet, n: int)
    ensures
        crate::pins::endpoints_upto(sc, net, n).len() <= net.endpoints@.len(),
        n >= 0 ==> crate::pins::endpoints_upto(sc, net, n).len() <= n,
        net.endpoints@.len() <= usize::MAX,
    decreases n,
{
    assert(net.endpoints.len() == net.endpoints@.len());
    if 0 < n <= net.endpoints@.len() {
        lemma_few_endpoints(sc, net, n - 1);
    }
}

proof fn lemma_collapse(sc: Scene<'_>, d: Drawing, k: int, up: bool, power: bool, n: int)
    requires
        contacts_are_last_resorts(sc, d),
        0 <= k < sc.model.nets@.len(),
    ensures
        ({
            let net = sc.model.nets@[k];
            let eps = endpoints_of(sc, net);
            let c = collapse_upto(sc, d, eps, stacks(eps, edge_order(eps)), net.name, up, power, n);
            contacts_are_last_resorts(sc, c.0) && (!power ==> all_ends(sc, net, c.1))
        }),
    decreases n,
{
    let net = sc.model.nets@[k];
    let eps = endpoints_of(sc, net);
    let runs = stacks(eps, edge_order(eps));
    if 0 < n <= runs.len() {
        lemma_collapse(sc, d, k, up, power, n - 1);
        lemma_few_endpoints(sc, net, net.endpoints@.len() as int);
        lemma_stacks_below(eps);
        lemma_resort_lasts(sc);
        let before = collapse_upto(sc, d, eps, runs, net.name, up, power, n - 1);
        let run = runs[n - 1];
        assert(run.len() > 0);
        assert(run[0] < eps.len() && run[run.len() - 1] < eps.len());
        let one = collapse_one(sc, before.0, eps, run, net.name, up, power);
        lemma_stack(sc, before.0, eps, run, net.name, up, resort(sc));
        if run.len() >= 2 {
            let path = positions(eps, run);
            let b = before.0.wired(path, net.name);
            assert(is_stack_bus(sc, net, path));
            lemma_unchecked(sc, before.0, b, k, path);
        }
        if !power {
            assert(is_end(sc, net, eps[run[0] as int]));
            assert(is_end(sc, net, eps[run.last() as int]));
        }
    }
}

pub open spec fn all_ends(sc: Scene<'_>, net: SheetNet, eps: Seq<Endpoint>) -> bool {
    forall|i: int| 0 <= i < eps.len() ==> is_end(sc, net, #[trigger] eps[i])
}

// ---------------------------------------------------------------- the signal pass

/// The endpoints that are kept of each net are the net's.
pub open spec fn ends_kept(sc: Scene<'_>, s: SignalsView) -> bool {
    &&& s.cache.len() == sc.model.nets@.len()
    &&& forall|sn: int|
        0 <= sn < s.cache.len() ==> match #[trigger] s.cache[sn] {
            Some(v) => all_ends(sc, sc.model.nets@[sn], v) && v.len() <= usize::MAX,
            None => true,
        }
}

pub open spec fn state_ok(sc: Scene<'_>, st: SignalState) -> bool {
    contacts_are_last_resorts(sc, st.d) && ends_kept(sc, st.s)
}

proof fn lemma_few_runs(order: Seq<usize>, joins: spec_fn(usize, usize) -> bool, n: int)
    requires
        0 <= n <= order.len(),
    ensures
        crate::order::runs_by(order, joins, n).len() <= n,
        n > 0 ==> crate::order::runs_by(order, joins, n).len() > 0,
    decreases n,
{
    if n > 0 {
        lemma_few_runs(order, joins, n - 1);
    }
}

pub proof fn lemma_collapse_len(
    sc: Scene<'_>,
    d: Drawing,
    eps: Seq<Endpoint>,
    runs: Seq<Seq<usize>>,
    net: String,
    up: bool,
    power: bool,
    n: int,
)
    requires
        0 <= n <= runs.len(),
    ensures
        collapse_upto(sc, d, eps, runs, net, up, power, n).1.len() == n,
    decreases n,
{
    if n > 0 {
        lemma_collapse_len(sc, d, eps, runs, net, up, power, n - 1);
    }
}

pub proof fn lemma_few_collapsed(sc: Scene<'_>, d: Drawing, net: SheetNet, up: bool, power: bool)
    ensures
        collapsed(sc, d, endpoints_of(sc, net), net.name, up, power).1.len() <= usize::MAX,
{
    let eps = endpoints_of(sc, net);
    let order = edge_order(eps);
    let runs = stacks(eps, order);
    lemma_few_endpoints(sc, net, net.endpoints@.len() as int);
    crate::order::law_sort_is_permutation(
        upto(eps.len() as int),
        |a: usize, b: usize| crate::power::edge_after(eps[a as int], eps[b as int]),
    );
    lemma_few_runs(
        order,
        |a: usize, b: usize| crate::power::stacks_on(eps, a, b),
        order.len() as int,
    );
    lemma_collapse_len(sc, d, eps, runs, net.name, up, power, runs.len() as int);
}

proof fn lemma_endpoints(sc: Scene<'_>, st: SignalState, sn: int)
    requires
        state_ok(sc, st),
        0 <= sn < sc.model.nets@.len(),
    ensures
        state_ok(sc, endpoints_for(sc, st, sn).0),
        all_ends(sc, sc.model.nets@[sn], endpoints_for(sc, st, sn).1),
        endpoints_for(sc, st, sn).1.len() <= usize::MAX,
{
    let net = sc.model.nets@[sn];
    let eps = endpoints_of(sc, net);
    let runs = stacks(eps, edge_order(eps));
    match st.s.cache[sn] {
        Some(v) => {},
        None => {
            lemma_collapse(sc, st.d, sn, true, false, runs.len() as int);
            lemma_few_collapsed(sc, st.d, net, true, false);
        },
    }
}

proof fn lemma_lanes(sc: Scene<'_>, st: SignalState, n: int)
    requires
        state_ok(sc, st),
    ensures
        state_ok(sc, lanes_kept(sc, st, n)),
    decreases n,
{
    if 0 < n <= sc.model.nets@.len() {
        lemma_lanes(sc, st, n - 1);
        let before = lanes_kept(sc, st, n - 1);
        reveal(lane_kept);
        lemma_endpoints(sc, before, n - 1);
        lemma_resort_lasts(sc);
        let st1 = endpoints_for(sc, before, n - 1).0;
        let after = lanes_kept(sc, st, n);
        if after.d != st1.d && after.d != before.d {
            lemma_same(st1.d, after.d, resort(sc));
        }
    }
}

proof fn lemma_planned(sc: Scene<'_>, st: SignalState, sn: int)
    requires
        state_ok(sc, st),
        0 <= sn < sc.model.nets@.len(),
    ensures
        state_ok(sc, net_planned(sc, st, sn)),
{
    reveal(net_planned);
    let net = sc.model.nets@[sn];
    let analog = crate::nets::is_analog(sc, net);
    let (st1, eps) = endpoints_for(sc, st, sn);
    let sets = crate::nets::group_sets(sc, eps, analog);
    lemma_endpoints(sc, st, sn);
    lemma_resort_lasts(sc);
    if sets.len() > 0 {
        let g0 = GroupState {
            d: st1.d,
            pending: st1.s.pending,
            reached: Seq::empty(),
            count: 0,
        };
        lemma_trees_of_net(sc, g0, net, eps, sets, analog, sets.len() as int, resort(sc));
        let g = subsets_wired(sc, g0, net, eps, sets, analog, sets.len() as int);
        lemma_same(g.d, net_planned(sc, st, sn).d, resort(sc));
    }
}

proof fn lemma_all_planned(sc: Scene<'_>, st: SignalState, order: Seq<usize>, n: int)
    requires
        state_ok(sc, st),
        nets_below(sc, order),
    ensures
        state_ok(sc, all_planned(sc, st, order, n)),
    decreases n,
{
    if 0 < n <= order.len() {
        lemma_all_planned(sc, st, order, n - 1);
        assert(order[n - 1] < sc.model.nets@.len());
        lemma_planned(sc, all_planned(sc, st, order, n - 1), order[n - 1] as int);
    }
}

proof fn lemma_annotated(sc: Scene<'_>, d: Drawing, pending: Seq<Annotation>, n: int)
    requires
        contacts_are_last_resorts(sc, d),
    ensures
        contacts_are_last_resorts(sc, annotated(sc, d, pending, n)),
    decreases n,
{
    if 0 < n <= pending.len() {
        lemma_annotated(sc, d, pending, n - 1);
        lemma_resort_lasts(sc);
        let a = pending[n - 1];
        lemma_tree_labelled(
            sc,
            annotated(sc, d, pending, n - 1),
            a.net,
            a.from as int,
            false,
            false,
            resort(sc),
        );
    }
}

// ---------------------------------------------------------------- labels

proof fn lemma_label(sc: Scene<'_>, d: Drawing, k: int, e: Endpoint, global: bool)
    requires
        contacts_are_last_resorts(sc, d),
        0 <= k < sc.model.nets@.len(),
        sc.model.nets@[k].class == NetClass::Signal,
        is_end(sc, sc.model.nets@[k], e),
    ensures
        contacts_are_last_resorts(sc, d.with_label(sc, sc.model.nets@[k].name, e, global)),
{
    let net = sc.model.nets@[k].name;
    let kind = label_kind(global);
    let c = stub_candidates(*sc.cfg, net@.len() as int, e, 0, kind);
    let s = label_stub(sc, d, net@, e, global);
    let b = d.with_label(sc, net, e, global);
    lemma_resort_lasts(sc);
    lemma_first_fit(sc, d, c, net@, kind, Fit::Strict, 0);
    lemma_first_fit(sc, d, c, net@, kind, Fit::Relaxed, 0);
    lemma_first_fit(sc, d, c, net@, kind, Fit::Uncrossed, 0);
    lemma_first_fit(sc, d, c, net@, kind, Fit::Placeable, 0);
    if s == short_stub(e) {
        assert(is_short_stub(sc, sc.model.nets@[k], s.path));
        lemma_unchecked(sc, d, b, k, s.path);
    } else {
        lemma_fits_is_safe(sc, d, s.path, net@, seq![s.placed]);
        lemma_added(d, b, s.path, net, resort(sc));
    }
}

proof fn lemma_all_labelled(
    sc: Scene<'_>,
    d: Drawing,
    k: int,
    eps: Seq<Endpoint>,
    global: bool,
    n: int,
)
    requires
        contacts_are_last_resorts(sc, d),
        0 <= k < sc.model.nets@.len(),
        sc.model.nets@[k].class == NetClass::Signal,
        all_ends(sc, sc.model.nets@[k], eps),
    ensures
        contacts_are_last_resorts(
            sc,
            all_labelled(sc, d, sc.model.nets@[k].name, eps, global, n),
        ),
    decreases n,
{
    if 0 < n <= eps.len() {
        lemma_all_labelled(sc, d, k, eps, global, n - 1);
        let before = all_labelled(sc, d, sc.model.nets@[k].name, eps, global, n - 1);
        lemma_label(sc, before, k, eps[n - 1], global);
    }
}

/// The stubs of a port start with the first stub of the first endpoint.
proof fn lemma_port_stubs_first(sc: Scene<'_>, n: int, eps: Seq<Endpoint>, order: Seq<usize>, k: int)
    requires
        1 <= k <= order.len(),
    ensures
        port_stubs(sc, n, eps, order, k).len() > 0,
        port_stubs(sc, n, eps, order, k)[0].path == stub_candidates(
            *sc.cfg,
            n,
            eps[order[0] as int],
            0,
            StubKind::Hier,
        )[0].path,
    decreases k,
{
    if k > 1 {
        lemma_port_stubs_first(sc, n, eps, order, k - 1);
    } else {
        assert(port_stubs(sc, n, eps, order, 0) =~= Seq::empty());
    }
}

proof fn lemma_axis_below(eps: Seq<Endpoint>, side: bool, n: int)
    requires
        0 <= n <= eps.len() <= usize::MAX,
    ensures
        all_below(by_axis(eps, side, n), eps.len() as int),
    decreases n,
{
    if n > 0 {
        lemma_axis_below(eps, side, n - 1);
    }
}

proof fn lemma_flow_below(eps: Seq<Endpoint>, v: Seq<usize>, left: bool, with: bool, n: int)
    requires
        all_below(v, eps.len() as int),
        0 <= n <= v.len(),
    ensures
        all_below(by_flow(eps, v, left, with, n), eps.len() as int),
    decreases n,
{
    if n > 0 {
        lemma_flow_below(eps, v, left, with, n - 1);
    }
}

/// The order of anchors names endpoints.
pub proof fn lemma_anchors_below(placed: Seq<PlacedComp>, direction: PortDirection, eps: Seq<Endpoint>)
    requires
        eps.len() <= usize::MAX,
    ensures
        all_below(anchor_order(placed, direction, eps), eps.len() as int),
{
    let side = by_axis(eps, true, eps.len() as int);
    let vert = by_axis(eps, false, eps.len() as int);
    let m = twice_middle(placed);
    let left = direction == PortDirection::Input;
    let p = |i: usize| i < eps.len();
    lemma_axis_below(eps, true, eps.len() as int);
    lemma_axis_below(eps, false, eps.len() as int);
    lemma_sorted_items(
        side,
        |a: usize, b: usize| outness(eps[a as int], m) < outness(eps[b as int], m),
        p,
    );
    lemma_sorted_items(vert, |a: usize, b: usize| column_after(eps, true, a, b), p);
    lemma_sorted_items(side, |a: usize, b: usize| column_after(eps, left, a, b), p);
    lemma_sorted_items(vert, |a: usize, b: usize| column_after(eps, left, a, b), p);
    let s = sorted_by(side, |a: usize, b: usize| column_after(eps, left, a, b));
    if direction != PortDirection::Bidirectional {
        lemma_flow_below(eps, s, left, true, s.len() as int);
        lemma_flow_below(eps, s, left, false, s.len() as int);
    }
}

proof fn lemma_away_ends(sc: Scene<'_>, net: SheetNet, eps: Seq<Endpoint>, p: Point, n: int)
    requires
        all_ends(sc, net, eps),
    ensures
        all_ends(sc, net, away_from(eps, p, n)),
    decreases n,
{
    if 0 < n <= eps.len() {
        lemma_away_ends(sc, net, eps, p, n - 1);
    }
}

pub proof fn lemma_left_ends(sc: Scene<'_>, net: SheetNet, eps: Seq<Endpoint>, reached: Seq<Point>, n: int)
    requires
        all_ends(sc, net, eps),
        0 <= n <= eps.len(),
    ensures
        all_ends(sc, net, left_over(eps, reached, n)),
        left_over(eps, reached, n).len() <= n,
    decreases n,
{
    if n > 0 {
        lemma_left_ends(sc, net, eps, reached, n - 1);
    }
}

proof fn lemma_port(sc: Scene<'_>, d: Drawing, k: int, eps: Seq<Endpoint>)
    requires
        contacts_are_last_resorts(sc, d),
        0 <= k < sc.model.nets@.len(),
        all_ends(sc, sc.model.nets@[k], eps),
        0 < eps.len() <= usize::MAX,
    ensures
        contacts_are_last_resorts(sc, port_labelled(sc, d, sc.model.nets@[k], eps).0),
        all_ends(sc, sc.model.nets@[k], port_labelled(sc, d, sc.model.nets@[k], eps).1),
{
    let net = sc.model.nets@[k];
    match net.port {
        Some(direction) => {
            if !on_root(sc) && !lists(d.anchored, net.name@) {
                let order = anchor_order(sc.model.placed@, direction, eps);
                let n = net.name@.len() as int;
                let c = port_stubs(sc, n, eps, order, order.len() as int);
                let s = port_stub(sc, d, net.name@, direction, eps);
                let b = port_labelled(sc, d, net, eps).0;
                lemma_resort_lasts(sc);
                law_anchor_order_complete(sc.model.placed@, direction, eps);
                lemma_anchors_below(sc.model.placed@, direction, eps);
                lemma_away_ends(sc, net, eps, eps[s.from as int].pos, eps.len() as int);
                lemma_first_fit(sc, d, c, net.name@, StubKind::Hier, Fit::Strict, 0);
                lemma_first_fit(sc, d, c, net.name@, StubKind::Hier, Fit::Relaxed, 0);
                lemma_first_fit(sc, d, c, net.name@, StubKind::Hier, Fit::Uncrossed, 0);
                lemma_first_fit(sc, d, c, net.name@, StubKind::Hier, Fit::Placeable, 0);
                match best_stub(sc, d, c, net.name@, StubKind::Hier) {
                    Some(i) => {
                        lemma_fits_is_safe(sc, d, s.path, net.name@, seq![s.placed]);
                        lemma_added(d, b, s.path, net.name, resort(sc));
                    },
                    None => {
                        lemma_port_stubs_first(sc, n, eps, order, order.len() as int);
                        assert(order[0] < eps.len());
                        assert(is_end(sc, net, eps[order[0] as int]));
                        assert(is_first_port_stub(sc, net, s.path));
                        lemma_unchecked(sc, d, b, k, s.path);
                    },
                }
            }
        },
        None => {},
    }
}

pub proof fn lemma_carrier(sc: Scene<'_>, eps: Seq<Endpoint>, n: int)
    requires
        1 <= n <= eps.len(),
    ensures
        0 <= label_carrier(sc, eps, n) < n,
    decreases n,
{
    if n > 1 {
        lemma_carrier(sc, eps, n - 1);
    }
}

proof fn lemma_joined(sc: Scene<'_>, j: Joining, eps: Seq<Endpoint>, rep: int, from: int, net: String, n: int)
    requires
        contacts_are_last_resorts(sc, j.d),
        eps.len() <= usize::MAX,
        all_below(j.left, eps.len() as int),
    ensures
        contacts_are_last_resorts(sc, joined_upto(sc, j, eps, rep, from, net, n).d),
        all_below(joined_upto(sc, j, eps, rep, from, net, n).left, eps.len() as int),
    decreases n,
{
    if 0 < n <= eps.len() {
        lemma_joined(sc, j, eps, rep, from, net, n - 1);
        let before = joined_upto(sc, j, eps, rep, from, net, n - 1);
        if n - 1 != rep {
            let runs = net_runs(before.d.reg.segs, net@, from, before.d.reg.segs.len() as int);
            let js = all_joins(sc, eps[n - 1], runs, eps, before.wired);
            let ps = join_paths(js);
            lemma_resort_lasts(sc);
            lemma_best_wire(sc, before.d, ps, net@, true, ps.len() as int);
            match join_choice(sc, before.d, js, net@, true) {
                Some(c) => {
                    lemma_feasible(sc, before.d, c.path, net, true, resort(sc));
                    lemma_same(
                        before.d.wired(c.path, net),
                        before.d.with_join(c, net),
                        resort(sc),
                    );
                },
                None => {},
            }
        }
    }
}

proof fn lemma_deduplicated(sc: Scene<'_>, d: Drawing, k: int, eps: Seq<Endpoint>)
    requires
        contacts_are_last_resorts(sc, d),
        0 <= k < sc.model.nets@.len(),
        sc.model.nets@[k].class == NetClass::Signal,
        all_ends(sc, sc.model.nets@[k], eps),
        0 < eps.len() <= usize::MAX,
    ensures
        contacts_are_last_resorts(sc, deduplicated(sc, d, sc.model.nets@[k].name, eps).0),
        all_ends(
            sc,
            sc.model.nets@[k],
            deduplicated(sc, d, sc.model.nets@[k].name, eps).1,
        ),
{
    let net = sc.model.nets@[k];
    let rep = label_carrier(sc, eps, eps.len() as int);
    lemma_carrier(sc, eps, eps.len() as int);
    assert(is_end(sc, net, eps[rep]));
    lemma_label(sc, d, k, eps[rep], true);
    let start = Joining {
        d: d.with_label(sc, net.name, eps[rep], true),
        wired: seq![rep as usize],
        left: Seq::empty(),
    };
    let from = d.reg.segs.len() as int;
    lemma_joined(sc, start, eps, rep, from, net.name, eps.len() as int);
    let j = joined_upto(sc, start, eps, rep, from, net.name, eps.len() as int);
    let r = picked(eps, j.left);
    assert forall|i: int| 0 <= i < r.len() implies is_end(sc, net, #[trigger] r[i]) by {
        assert(j.left[i] < eps.len());
        assert(is_end(sc, net, eps[j.left[i] as int]));
    }
}

proof fn lemma_net_labelled(sc: Scene<'_>, st: SignalState, sn: int)
    requires
        state_ok(sc, st),
        0 <= sn < sc.model.nets@.len(),
        sc.model.nets@[sn].class == NetClass::Signal,
    ensures
        state_ok(sc, net_labelled(sc, st, sn)),
{
    reveal(net_labelled);
    let net = sc.model.nets@[sn];
    let (st1, eps) = endpoints_for(sc, st, sn);
    lemma_endpoints(sc, st, sn);
    lemma_resort_lasts(sc);
    let rest = left_over(eps, st1.s.reached[sn], eps.len() as int);
    lemma_left_ends(sc, net, eps, st1.s.reached[sn], eps.len() as int);
    lemma_direct(sc, st1.d, net, eps, resort(sc));
    if rest.len() > 0 {
        lemma_port(sc, st1.d, sn, rest);
        let (d1, rest1) = port_labelled(sc, st1.d, net, rest);
        if net.port is None && rest1.len() >= 2 {
            lemma_deduplicated(sc, d1, sn, rest1);
            let (d2, rest2) = deduplicated(sc, d1, net.name, rest1);
            lemma_all_labelled(sc, d2, sn, rest2, true, rest2.len() as int);
            lemma_all_labelled(sc, d2, sn, rest2, false, rest2.len() as int);
        }
        lemma_all_labelled(sc, d1, sn, rest1, true, rest1.len() as int);
        lemma_all_labelled(sc, d1, sn, rest1, false, rest1.len() as int);
    }
}

proof fn lemma_all_net_labelled(sc: Scene<'_>, st: SignalState, order: Seq<usize>, n: int)
    requires
        state_ok(sc, st),
        all_signals(sc, order),
    ensures
        state_ok(sc, all_net_labelled(sc, st, order, n)),
    decreases n,
{
    if 0 < n <= order.len() {
        lemma_all_net_labelled(sc, st, order, n - 1);
        assert(is_signal(sc, order[n - 1]));
        lemma_net_labelled(sc, all_net_labelled(sc, st, order, n - 1), order[n - 1] as int);
    }
}

proof fn lemma_tops(sc: Scene<'_>, st: SignalState, order: Seq<usize>, n: int)
    requires
        state_ok(sc, st),
        all_signals(sc, order),
    ensures
        state_ok(sc, tops(sc, st, order, n).0),
    decreases n,
{
    if 0 < n <= order.len() {
        lemma_tops(sc, st, order, n - 1);
        assert(is_signal(sc, order[n - 1]));
        lemma_endpoints(sc, tops(sc, st, order, n - 1).0, order[n - 1] as int);
    }
}

/// Is this a signal net of the sheet?
pub open spec fn is_signal(sc: Scene<'_>, sn: usize) -> bool {
    sn < sc.model.nets@.len() && sc.model.nets@[sn as int].class == NetClass::Signal
}

pub open spec fn all_signals(sc: Scene<'_>, v: Seq<usize>) -> bool {
    forall|i: int| 0 <= i < v.len() ==> is_signal(sc, #[trigger] v[i])
}

pub proof fn lemma_signal_nets(sc: Scene<'_>, ported: bool, paired: bool, n: int)
    requires
        0 <= n <= sc.model.nets@.len(),
    ensures
        all_signals(sc, signal_nets(sc, ported, paired, n)),
        signal_nets(sc, ported, paired, n).len() <= n,
    decreases n,
{
    assert(sc.model.nets.len() == sc.model.nets@.len());
    if n > 0 {
        lemma_signal_nets(sc, ported, paired, n - 1);
    }
}

/// The nets that get trees and labels, and those that join facing pins, are signal nets.
pub proof fn lemma_orders(sc: Scene<'_>)
    ensures
        all_signals(sc, label_order(sc)),
        all_signals(sc, pair_order(sc)),
        nets_below(sc, label_order(sc)),
        pair_order(sc).len() <= usize::MAX,
{
    let n = sc.model.nets@.len() as int;
    assert(sc.model.nets.len() == sc.model.nets@.len());
    lemma_signal_nets(sc, false, false, n);
    lemma_signal_nets(sc, true, false, n);
    lemma_signal_nets(sc, false, true, n);
    let lo = label_order(sc);
    assert forall|i: int| 0 <= i < lo.len() implies #[trigger] lo[i] < sc.model.nets@.len() by {
        assert(is_signal(sc, lo[i]));
    }
}

pub proof fn lemma_pairs_sorted(sc: Scene<'_>, order: Seq<usize>, top: Seq<i64>)
    requires
        all_signals(sc, order),
        order.len() <= usize::MAX,
    ensures
        all_signals(sc, pairs_sorted(sc, order, top)),
{
    reveal(pairs_sorted);
    let gt = |a: usize, b: usize| pair_after(sc, order, top, a, b);
    let by = sorted_by(upto(order.len() as int), gt);
    lemma_sorted_items(upto(order.len() as int), gt, |i: usize| i < order.len());
    let ps = pairs_sorted(sc, order, top);
    assert forall|i: int| 0 <= i < ps.len() implies is_signal(sc, #[trigger] ps[i]) by {
        assert(by[i] < order.len());
        assert(is_signal(sc, order[by[i] as int]));
    }
}

/// The signal pass makes contact with other nets at wires of last resort only.
pub proof fn law_signal_contacts_are_last_resorts(sc: Scene<'_>, d: Drawing)
    requires
        contacts_are_last_resorts(sc, d),
    ensures
        contacts_are_last_resorts(sc, signals_routed(sc, d)),
{
    let n = sc.model.nets@.len() as int;
    let fresh = SignalState { d, s: SignalsView::fresh(n) };
    assert(state_ok(sc, fresh));
    lemma_orders(sc);
    lemma_lanes(sc, fresh, n);
    let st0 = lanes_kept(sc, fresh, n);
    let lo = label_order(sc);
    let po = pair_order(sc);
    lemma_all_planned(sc, st0, lo, lo.len() as int);
    let st1 = all_planned(sc, st0, lo, lo.len() as int);
    lemma_annotated(sc, st1.d, st1.s.pending, st1.s.pending.len() as int);
    let st2 = SignalState {
        d: annotated(sc, st1.d, st1.s.pending, st1.s.pending.len() as int),
        s: SignalsView { pending: Seq::empty(), ..st1.s },
    };
    assert(state_ok(sc, st2));
    lemma_all_net_labelled(sc, st2, lo, lo.len() as int);
    let st3 = all_net_labelled(sc, st2, lo, lo.len() as int);
    lemma_tops(sc, st3, po, po.len() as int);
    let (st4, top) = tops(sc, st3, po, po.len() as int);
    lemma_pairs_sorted(sc, po, top);
    let ps = pairs_sorted(sc, po, top);
    lemma_all_net_labelled(sc, st4, ps, ps.len() as int);
}

// ---------------------------------------------------------------- the power pass

proof fn lemma_no_flag_place(sc: Scene<'_>, d: Drawing, net: Seq<char>, at: Point, left: bool, i: int)
    requires
        0 <= i <= 8,
        forall|k: int|
            0 <= k < 8 ==> !#[trigger] flag_fits(
                sc,
                d,
                net,
                at,
                flag_site(sc, net.len() as int, at, left, k),
            ),
    ensures
        flag_choice(sc, d, net, at, left, i) == flag_site(sc, net.len() as int, at, left, 0),
    decreases 8 - i,
{
    if i < 8 {
        lemma_no_flag_place(sc, d, net, at, left, i + 1);
    }
}

proof fn lemma_flag_once(
    sc: Scene<'_>,
    d: Drawing,
    noted: Seq<String>,
    undriven: Seq<String>,
    k: int,
    at: Point,
    left: bool,
)
    requires
        contacts_are_last_resorts(sc, d),
        0 <= k < sc.model.nets@.len(),
        symbol_stands(d, sc.model.nets@[k].name@, at),
    ensures
        contacts_are_last_resorts(
            sc,
            flag_once(sc, d, noted, undriven, sc.model.nets@[k].name, at, left).0,
        ),
{
    let net = sc.model.nets@[k];
    let n = net.name@.len() as int;
    let b = d.flagged(sc, net.name, at, left);
    lemma_resort_lasts(sc);
    if exists|i: int|
        0 <= i < 8 && #[trigger] flag_fits(sc, d, net.name@, at, flag_site(sc, n, at, left, i)) {
        lemma_flag(sc, d, net.name, at, left, resort(sc));
    } else {
        lemma_no_flag_place(sc, d, net.name@, at, left, 0);
        let path = seq![at, flag_site(sc, n, at, left, 0)];
        let i = choose|i: int|
            0 <= i < d.power_symbols.len() && (#[trigger] d.power_symbols[i]).net@ == net.name@
                && d.power_symbols[i].at == at;
        assert(b.power_symbols[i] == d.power_symbols[i]);
        assert(symbol_stands(b, net.name@, at));
        assert(is_first_flag_wire(sc, b, net, path));
        lemma_unchecked(sc, d, b, k, path);
    }
}

proof fn lemma_symbol_added(sc: Scene<'_>, d: Drawing, net: String, at: Point, down: bool)
    requires
        contacts_are_last_resorts(sc, d),
    ensures
        contacts_are_last_resorts(sc, d.with_symbol(net, at, down)),
        symbol_stands(d.with_symbol(net, at, down), net@, at),
{
    lemma_resort_lasts(sc);
    let b = d.with_symbol(net, at, down);
    lemma_same(d, b, resort(sc));
    assert(b.power_symbols[d.power_symbols.len() as int].net@ == net@);
}

pub proof fn lemma_bank_step(
    sc: Scene<'_>,
    d: Drawing,
    eps: Seq<Endpoint>,
    run: Seq<usize>,
    net: Seq<char>,
    down: bool,
    step: int,
)
    ensures
        bank_step(sc, d, eps, run, net, down, step) matches Some(s) ==> bank_fits(
            sc,
            d,
            eps,
            run,
            net,
            down,
            s,
        ),
    decreases 9 - step,
{
    if step <= 8 {
        lemma_bank_step(sc, d, eps, run, net, down, step + 1);
    }
}

proof fn lemma_banks(
    sc: Scene<'_>,
    st: BankState,
    eps: Seq<Endpoint>,
    runs: Seq<Seq<usize>>,
    k: int,
    down: bool,
    undriven: Seq<String>,
    n: int,
)
    requires
        contacts_are_last_resorts(sc, st.d),
        0 <= k < sc.model.nets@.len(),
    ensures
        contacts_are_last_resorts(
            sc,
            banks_upto(sc, st, eps, runs, sc.model.nets@[k].name, down, undriven, n).d,
        ),
    decreases n,
{
    let net = sc.model.nets@[k].name;
    if 0 < n <= runs.len() {
        lemma_banks(sc, st, eps, runs, k, down, undriven, n - 1);
        let before = banks_upto(sc, st, eps, runs, net, down, undriven, n - 1);
        let run = runs[n - 1];
        lemma_bank_step(sc, before.d, eps, run, net@, down, 0);
        lemma_resort_lasts(sc);
        match bank_step(sc, before.d, eps, run, net@, down, 0) {
            Some(step) => {
                let first = eps[run[0] as int];
                let last = eps[run.last() as int];
                let x = bank_x(sc, first, step);
                let y = bank_symbol_y(sc, first.pos.y, last.pos.y, down);
                let bus = bank_bus(x, first.pos.y, last.pos.y, y, down);
                let at = Point { x, y };
                lemma_bus(sc, before.d, eps, run, x, bus, net, resort(sc));
                let bussed = before.d.bussed(eps, run, x, bus, net);
                lemma_symbol_added(sc, bussed, net, at, down);
                lemma_flag_once(
                    sc,
                    bussed.with_symbol(net, at, down),
                    before.noted,
                    undriven,
                    k,
                    at,
                    first.dir.x < 0,
                );
            },
            None => {},
        }
    }
}

proof fn lemma_one_supplied(sc: Scene<'_>, d: Drawing, k: int, e: Endpoint, down: bool, row: Option<Iu>)
    requires
        contacts_are_last_resorts(sc, d),
        0 <= k < sc.model.nets@.len(),
    ensures
        ({
            let (b, at) = d.supplied(sc, sc.model.nets@[k].name, e, down, row);
            contacts_are_last_resorts(sc, b) && symbol_stands(b, sc.model.nets@[k].name@, at)
        }),
{
    let net = sc.model.nets@[k];
    let ex = resort(sc);
    let (c, w) = supply_choice(sc, d, net.name, e, down, row);
    let b = d.supplied(sc, net.name, e, down, row).0;
    lemma_resort_lasts(sc);
    lemma_supply(sc, d, net.name, e, down, row, ex);
    assert(b.power_symbols[d.power_symbols.len() as int].net@ == net.name@);
    if !apart_but(b, ex) {
        let i = d.warnings.len() as int;
        assert(b.warnings[i] == w->0);
        assert(contact_said(sc, b, net.name, e.placed));
        assert(is_remarked_stub(sc, b, net, c.path));
        assert(fallback(sc, b, net, c.path));
        let more = legs(c.path, c.path.len() - 1);
        assert forall|j: int| d.reg.segs.len() <= j < b.reg.segs.len() implies #[trigger] ex(b, j) by {
            let m = j - d.reg.segs.len();
            assert(b.reg.segs[j].span == more[m]);
            assert(leg_of(b.reg.segs[j], c.path, net.name@));
        }
        lemma_supplied(sc, d, net.name, e, down, row, ex);
    }
}

proof fn lemma_supplied_upto(
    sc: Scene<'_>,
    st: BankState,
    eps: Seq<Endpoint>,
    rows: Seq<Option<Iu>>,
    k: int,
    down: bool,
    undriven: Seq<String>,
    n: int,
)
    requires
        contacts_are_last_resorts(sc, st.d),
        0 <= k < sc.model.nets@.len(),
    ensures
        contacts_are_last_resorts(
            sc,
            supplied_upto(sc, st, eps, rows, sc.model.nets@[k].name, down, undriven, n).0,
        ),
    decreases n,
{
    let net = sc.model.nets@[k].name;
    if 0 < n <= eps.len() {
        lemma_supplied_upto(sc, st, eps, rows, k, down, undriven, n - 1);
        let before = supplied_upto(sc, st, eps, rows, net, down, undriven, n - 1);
        let e = eps[n - 1];
        if !includes(st.served, n - 1) {
            lemma_one_supplied(sc, before.0, k, e, down, rows[n - 1]);
            let (d, at) = before.0.supplied(sc, net, e, down, rows[n - 1]);
            lemma_flag_once(sc, d, before.1, undriven, k, at, e.dir.x < 0);
        }
    }
}

/// The power pass makes contact with other nets at wires of last resort only.
pub proof fn law_power_contacts_are_last_resorts(
    sc: Scene<'_>,
    d: Drawing,
    undriven: Seq<String>,
    n: int,
)
    requires
        contacts_are_last_resorts(sc, d),
    ensures
        contacts_are_last_resorts(sc, nets_supplied(sc, d, undriven, n).0),
    decreases n,
{
    if 0 < n <= sc.model.nets@.len() {
        law_power_contacts_are_last_resorts(sc, d, undriven, n - 1);
        let (d0, noted) = nets_supplied(sc, d, undriven, n - 1);
        let net = sc.model.nets@[n - 1];
        if net.class != NetClass::Signal {
            let down = potential_rank(net.name@, net.class) <= 0;
            let raw = endpoints_of(sc, net);
            lemma_collapse(sc, d0, n - 1, !down, true, stacks(raw, edge_order(raw)).len() as int);
            let (d1, eps) = collapsed(sc, d0, raw, net.name, !down, true);
            let bs = banks(eps);
            let st0 = BankState { d: d1, noted, served: Seq::empty() };
            lemma_banks(sc, st0, eps, bs, n - 1, down, undriven, bs.len() as int);
            let st = banks_upto(sc, st0, eps, bs, net.name, down, undriven, bs.len() as int);
            let rows = align_targets(sc, eps, down);
            lemma_supplied_upto(sc, st, eps, rows, n - 1, down, undriven, eps.len() as int);
        }
    }
}

// ---------------------------------------------------------------- the whole sheet

/// The sheet once its signal and power pins are wired.
pub open spec fn pins_wired(sc: Scene<'_>, d: Drawing, undriven: Seq<String>) -> Drawing {
    nets_supplied(sc, signals_routed(sc, d), undriven, sc.model.nets@.len() as int).0
}

/// The sheet before sibling labels are pulled onto common columns: with the flags of the utility
/// band, the blocks of the child sheets and the ports of the edge columns.
pub open spec fn unaligned(sc: Scene<'_>, d: Drawing, undriven: Seq<String>) -> Drawing {
    let p = power_routed(sc, signals_routed(sc, d), undriven).0;
    fallback_ports(sc, all_blocks_drawn(sc, Drawing { no_connects: unconnected(sc), ..p }))
}

/// Once the signal and power pins of a sheet are wired, a wire that makes contact with a pin, or
/// with a wire drawn before it, of another net is one of last resort.
pub proof fn law_contacts_are_last_resorts(
    sc: Scene<'_>,
    pins: Seq<RegPin>,
    texts: Seq<LabelBox>,
    undriven: Seq<String>,
)
    ensures
        contacts_are_last_resorts(sc, pins_wired(sc, start_drawing(pins, texts), undriven)),
{
    let d = start_drawing(pins, texts);
    law_signal_contacts_are_last_resorts(sc, d);
    law_power_contacts_are_last_resorts(
        sc,
        signals_routed(sc, d),
        undriven,
        sc.model.nets@.len() as int,
    );
}

proof fn lemma_flag_rows_later(
    sc: Scene<'_>,
    d: Drawing,
    noted: Seq<String>,
    order: Seq<usize>,
    x: Iu,
    y: Iu,
    n: int,
)
    ensures
        later(flag_rows(sc, d, noted, order, x, y, n).0, d),
    decreases n,
{
    if 0 < n <= order.len() {
        lemma_flag_rows_later(sc, d, noted, order, x, y, n - 1);
    }
}

proof fn lemma_side_later(
    sc: Scene<'_>,
    d: Drawing,
    ports: Seq<SheetPort>,
    edge: Iu,
    top: Iu,
    left: bool,
    n: int,
)
    ensures
        later(side_drawn(sc, d, ports, edge, top, left, n).0, d),
    decreases n,
{
    if 0 < n <= ports.len() {
        lemma_side_later(sc, d, ports, edge, top, left, n - 1);
    }
}

proof fn lemma_blocks_later(sc: Scene<'_>, d: Drawing, children: Seq<usize>, o: Point, n: int)
    ensures
        later(blocks_drawn(sc, d, children, o, n).0, d),
    decreases n,
{
    if 0 < n <= children.len() {
        lemma_blocks_later(sc, d, children, o, n - 1);
        let before = blocks_drawn(sc, d, children, o, n - 1);
        let after = blocks_drawn(sc, d, children, o, n);
        let child = children[n - 1] as int;
        let size = block_size(sc, child);
        let at = after.0.blocks.last().at;
        let ports = sc.plan.sheets@[child].ports@;
        let l = ports_on(ports, true, ports.len() as int);
        let r = ports_on(ports, false, ports.len() as int);
        lemma_side_later(sc, before.0, l, at.x, at.y, true, l.len() as int);
        let a = side_drawn(sc, before.0, l, at.x, at.y, true, l.len() as int);
        lemma_side_later(sc, a.0, r, sat(at.x + size.x), at.y, false, r.len() as int);
    }
}

proof fn lemma_edge_ports_later(sc: Scene<'_>, d: Drawing, list: Seq<usize>, top: Iu, n: int)
    ensures
        later(edge_ports(sc, d, list, top, n).0, d),
    decreases n,
{
    if 0 < n <= list.len() {
        lemma_edge_ports_later(sc, d, list, top, n - 1);
    }
}

/// What the flags of the band, the blocks and the edge columns add to the wires comes behind them.
pub proof fn law_later_wires_come_behind(sc: Scene<'_>, d: Drawing, undriven: Seq<String>)
    ensures
        later(unaligned(sc, d, undriven), pins_wired(sc, d, undriven)),
{
    let d1 = signals_routed(sc, d);
    let s = nets_supplied(sc, d1, undriven, sc.model.nets@.len() as int);
    let o = flag_origin(sc, s.0);
    let order = flag_order(sc.model.nets@, s.1);
    lemma_flag_rows_later(sc, s.0, s.1, order, o.x, o.y, order.len() as int);
    let p = power_routed(sc, d1, undriven).0;
    let q = Drawing { no_connects: unconnected(sc), ..p };
    let children = sc.plan.sheets@[sc.model.sheet as int].children@;
    lemma_blocks_later(sc, q, children, block_origin(sc, q), children.len() as int);
    let b = all_blocks_drawn(sc, q);
    let list = unanchored(sc, b.anchored, sc.model.nets@.len() as int);
    let top = sc.cfg.spec_snap(sc.model.content_box.y1 + 25400);
    lemma_edge_ports_later(sc, b, list, top, list.len() as int);
}

/// Nets stay apart on a routed sheet, unless a wire of last resort was drawn, or a wire for a flag
/// of the utility band, a block of a child sheet or a port of an edge column; stubs that are pulled
/// onto a common column have to be level.
pub proof fn law_sheet_keeps_nets_apart(
    sc: Scene<'_>,
    pins: Seq<RegPin>,
    texts: Seq<LabelBox>,
    undriven: Seq<String>,
)
    requires
        ({
            let d = start_drawing(pins, texts);
            let w = pins_wired(sc, d, undriven);
            let u = unaligned(sc, d, undriven);
            &&& forall|j: int| 0 <= j < w.reg.segs.len() ==> !#[trigger] last_resort(sc, w, j)
            &&& u.reg.segs.len() == w.reg.segs.len()
            &&& pulls_level(sc, u)
            &&& align_items(sc, u).len() <= usize::MAX
        }),
    ensures
        nets_apart(sheet_routed(sc, start_drawing(pins, texts), undriven).reg),
{
    let d = start_drawing(pins, texts);
    let w = pins_wired(sc, d, undriven);
    let u = unaligned(sc, d, undriven);
    let ex = resort(sc);
    law_contacts_are_last_resorts(sc, pins, texts, undriven);
    assert forall|j: int| 0 <= j < w.reg.segs.len() implies !#[trigger] ex(w, j) by {
        assert(!last_resort(sc, w, j));
    }
    lemma_none_excused(w, ex);
    law_later_wires_come_behind(sc, d, undriven);
    assert(u.reg.segs =~= w.reg.segs);
    law_alignment_keeps_nets_apart(sc, u);
}

} // verus!
