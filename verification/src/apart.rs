//! How nets stay apart: every step of the routing that asks what is free draws a wire that makes
//! no contact with another net. The wires that are drawn without asking are those of
//! [`crate::contacts`].

use vstd::prelude::*;
use crate::canvas::{
    best_stub, first_fit, wire_fits, Drawing, Endpoint, Fit, Scene, StubKind, StubView,
};
use crate::glyphs::AttachmentView;
use crate::grow::{
    best_seed, group_tree, grown, listed, net_runs, next_join, others, rest_order, seed_pairs,
    tree_grown, Growth,
};
use crate::nets::{port_step, subset_wired, subsets_wired, GroupState};
use crate::place::{text_width, SheetNet};
use crate::power::{
    members_placed, offset_stack, stack_bus_x, stack_fits, stack_step, tap, taps_fit, upright,
};
use crate::rails::{flag_choice, flag_fits, flag_site};
use crate::registry::{
    crossings, electrically_clear, is_leg, legs, path_safe, with_path, RegPin, RegView,
};
use crate::signals::{
    direct_paths, direct_wire, first_direct, first_tree_port, picked, port_stubs, tree_ported,
};
use crate::subsets::anchor_order;
use crate::supply::{
    best_supply, law_best_supply_is_cheapest, least_crossed, rescue_stubs, supply_choice,
    supply_stubs,
};
use crate::tree::{
    all_joins, best_wire, feasible, join_paths, pair_wires, seed_choice,
};
use crate::treelabel::{
    ahead_of, branch_along, branch_count, branch_here, branch_off, longest_runs, run_high, run_low,
    tree_branch, tree_labelled, Site,
};
use crate::units::{spec_apart, spec_max, spec_snap_to, Iu, Point, EPS};
use crate::warning::Warning;
use crate::wiring::{span, spec_cross, spec_on, spec_touch, Seg, Span};
use crate::writer::PortDirection;

verus! {

// ---------------------------------------------------------------- contact

/// Contact is mutual, and so is crossing.
pub proof fn law_contact_is_mutual(a: Span, c: Span)
    ensures
        spec_touch(a, c) == spec_touch(c, a),
        spec_cross(a, c) == spec_cross(c, a),
{
}

/// Wires that cross frankly make no contact.
pub proof fn law_crossing_is_no_contact(a: Span, c: Span)
    ensures
        spec_cross(a, c) ==> !spec_touch(a, c),
{
}

/// Two wires are of one net, or make no contact.
pub open spec fn wires_apart(s: Seg, o: Seg) -> bool {
    s.net@ == o.net@ || !spec_touch(s.span, o.span)
}

/// A wire and a pin are of one net, or the pin does not lie on the wire.
pub open spec fn pin_apart(s: Seg, p: RegPin) -> bool {
    s.net@ == p.net@ || !spec_on(p.at.x as int, p.at.y as int, s.span)
}

/// No wire makes contact with a wire or a pin of another net.
pub open spec fn nets_apart(reg: RegView) -> bool {
    &&& forall|i: int, j: int|
        0 <= i < reg.segs.len() && 0 <= j < reg.segs.len() ==> #[trigger] wires_apart(
            reg.segs[i],
            reg.segs[j],
        )
    &&& forall|i: int, k: int|
        0 <= i < reg.segs.len() && 0 <= k < reg.pins.len() ==> #[trigger] pin_apart(
            reg.segs[i],
            reg.pins[k],
        )
}

// ---------------------------------------------------------------- one wire

proof fn lemma_legs_clear(reg: RegView, path: Seq<Point>, net: Seq<char>, n: int)
    requires
        path_safe(reg, path, net),
    ensures
        forall|m: int|
            0 <= m < legs(path, n).len() ==> electrically_clear(
                reg,
                #[trigger] legs(path, n)[m],
                net,
            ),
    decreases n,
{
    if 0 < n < path.len() {
        lemma_legs_clear(reg, path, net, n - 1);
        let before = legs(path, n - 1);
        assert forall|m: int| 0 <= m < legs(path, n).len() implies electrically_clear(
            reg,
            #[trigger] legs(path, n)[m],
            net,
        ) by {
            if m < before.len() {
                assert(electrically_clear(reg, before[m], net));
            } else {
                assert(is_leg(path, n - 1));
            }
        }
    }
}

/// A wire that is clear of the other nets keeps the nets apart.
pub proof fn law_clear_wire_keeps_nets_apart(reg: RegView, path: Seq<Point>, net: String)
    requires
        nets_apart(reg),
        path_safe(reg, path, net@),
    ensures
        nets_apart(RegView { segs: with_path(reg.segs, path, net), ..reg }),
{
    let more = legs(path, path.len() - 1);
    let r = RegView { segs: with_path(reg.segs, path, net), ..reg };
    let n = reg.segs.len() as int;
    lemma_legs_clear(reg, path, net@, path.len() - 1);
    assert forall|i: int, j: int| 0 <= i < r.segs.len() && 0 <= j < r.segs.len() implies #[trigger] wires_apart(
        r.segs[i],
        r.segs[j],
    ) by {
        law_contact_is_mutual(r.segs[i].span, r.segs[j].span);
        if i < n && j < n {
            assert(wires_apart(reg.segs[i], reg.segs[j]));
        } else if i >= n && j < n {
            assert(electrically_clear(reg, more[i - n], net@));
            assert(r.segs[j] == reg.segs[j]);
        } else if i < n && j >= n {
            assert(electrically_clear(reg, more[j - n], net@));
            assert(r.segs[i] == reg.segs[i]);
        }
    }
    assert forall|i: int, k: int| 0 <= i < r.segs.len() && 0 <= k < r.pins.len() implies #[trigger] pin_apart(
        r.segs[i],
        r.pins[k],
    ) by {
        if i < n {
            assert(pin_apart(reg.segs[i], reg.pins[k]));
        } else {
            assert(electrically_clear(reg, more[i - n], net@));
        }
    }
}

/// What a later state of the sheet keeps of an earlier one: its wires, its remarks and its power
/// symbols come first, and the pins are the same.
pub open spec fn later(after: Drawing, before: Drawing) -> bool {
    &&& before.reg.segs.is_prefix_of(after.reg.segs)
    &&& before.warnings.is_prefix_of(after.warnings)
    &&& before.power_symbols.is_prefix_of(after.power_symbols)
    &&& after.reg.pins == before.reg.pins
}

/// What `ex` says of a wire stays true while the sheet grows.
pub open spec fn lasting(ex: spec_fn(Drawing, int) -> bool) -> bool {
    forall|a: Drawing, b: Drawing, j: int|
        #![trigger later(b, a), ex(a, j)]
        later(b, a) && 0 <= j < a.reg.segs.len() && ex(a, j) ==> ex(b, j)
}

/// Where a wire makes contact with a pin, or with a wire drawn before it, of another net, `ex`
/// excuses it.
pub open spec fn apart_but(d: Drawing, ex: spec_fn(Drawing, int) -> bool) -> bool {
    &&& forall|i: int, j: int|
        0 <= i < j < d.reg.segs.len() ==> #[trigger] wires_apart(d.reg.segs[i], d.reg.segs[j])
            || ex(d, j)
    &&& forall|i: int, k: int|
        0 <= i < d.reg.segs.len() && 0 <= k < d.reg.pins.len() ==> #[trigger] pin_apart(
            d.reg.segs[i],
            d.reg.pins[k],
        ) || ex(d, i)
}

/// Where no wire is excused, the nets are apart.
pub proof fn lemma_none_excused(d: Drawing, ex: spec_fn(Drawing, int) -> bool)
    requires
        forall|j: int| 0 <= j < d.reg.segs.len() ==> !#[trigger] ex(d, j),
    ensures
        apart_but(d, ex) == nets_apart(d.reg),
{
    if apart_but(d, ex) {
        let segs = d.reg.segs;
        assert forall|i: int, j: int| 0 <= i < segs.len() && 0 <= j < segs.len() implies #[trigger] wires_apart(
            segs[i],
            segs[j],
        ) by {
            law_contact_is_mutual(segs[i].span, segs[j].span);
            if i < j {
                assert(!ex(d, j));
            } else if j < i {
                assert(wires_apart(segs[j], segs[i]) || ex(d, i));
                assert(!ex(d, i));
            }
        }
        assert forall|i: int, k: int| 0 <= i < segs.len() && 0 <= k < d.reg.pins.len() implies #[trigger] pin_apart(
            segs[i],
            d.reg.pins[k],
        ) by {
            assert(!ex(d, i));
        }
    }
}

/// Nothing but the wires decides.
pub proof fn lemma_same(a: Drawing, b: Drawing, ex: spec_fn(Drawing, int) -> bool)
    requires
        lasting(ex),
        apart_but(a, ex),
        later(b, a),
        b.reg.segs == a.reg.segs,
    ensures
        apart_but(b, ex),
{
    assert forall|i: int, j: int| 0 <= i < j < b.reg.segs.len() implies #[trigger] wires_apart(
        b.reg.segs[i],
        b.reg.segs[j],
    ) || ex(b, j) by {
        assert(wires_apart(a.reg.segs[i], a.reg.segs[j]) || ex(a, j));
    }
    assert forall|i: int, k: int|
        0 <= i < b.reg.segs.len() && 0 <= k < b.reg.pins.len() implies #[trigger] pin_apart(
        b.reg.segs[i],
        b.reg.pins[k],
    ) || ex(b, i) by {
        assert(pin_apart(a.reg.segs[i], a.reg.pins[k]) || ex(a, i));
    }
}

/// A wire that is clear of the other nets, or that is excused.
pub proof fn lemma_added(d: Drawing, b: Drawing, path: Seq<Point>, net: String, ex: spec_fn(Drawing, int) -> bool)
    requires
        lasting(ex),
        apart_but(d, ex),
        later(b, d),
        b.reg.segs == with_path(d.reg.segs, path, net),
        path_safe(d.reg, path, net@) || forall|j: int|
            d.reg.segs.len() <= j < b.reg.segs.len() ==> #[trigger] ex(b, j),
    ensures
        apart_but(b, ex),
{
    let more = legs(path, path.len() - 1);
    let segs = d.reg.segs;
    let n = segs.len() as int;
    if path_safe(d.reg, path, net@) {
        lemma_legs_clear(d.reg, path, net@, path.len() - 1);
    }
    assert forall|i: int, j: int| 0 <= i < j < b.reg.segs.len() implies #[trigger] wires_apart(
        b.reg.segs[i],
        b.reg.segs[j],
    ) || ex(b, j) by {
        law_contact_is_mutual(b.reg.segs[i].span, b.reg.segs[j].span);
        if j < n {
            assert(wires_apart(segs[i], segs[j]) || ex(d, j));
        } else if i < n && !ex(b, j) {
            assert(electrically_clear(d.reg, more[j - n], net@));
            assert(b.reg.segs[i] == segs[i]);
        }
    }
    assert forall|i: int, k: int|
        0 <= i < b.reg.segs.len() && 0 <= k < b.reg.pins.len() implies #[trigger] pin_apart(
        b.reg.segs[i],
        b.reg.pins[k],
    ) || ex(b, i) by {
        if i < n {
            assert(pin_apart(segs[i], d.reg.pins[k]) || ex(d, i));
        } else if !ex(b, i) {
            assert(electrically_clear(d.reg, more[i - n], net@));
        }
    }
}

proof fn lemma_clear(d: Drawing, path: Seq<Point>, net: String, ex: spec_fn(Drawing, int) -> bool)
    requires
        lasting(ex),
        apart_but(d, ex),
        path_safe(d.reg, path, net@),
    ensures
        apart_but(d.wired(path, net), ex),
        apart_but(d.registered(path, net), ex),
{
    lemma_added(d, d.wired(path, net), path, net, ex);
    lemma_added(d, d.registered(path, net), path, net, ex);
}

pub proof fn lemma_fits_is_safe(
    sc: Scene<'_>,
    d: Drawing,
    path: Seq<Point>,
    net: Seq<char>,
    except: Seq<usize>,
)
    requires
        wire_fits(sc, d, path, net, except),
    ensures
        path_safe(d.reg, path, net),
{
    reveal(wire_fits);
}

pub proof fn lemma_fitting(sc: Scene<'_>, d: Drawing, path: Seq<Point>, net: String, except: Seq<usize>, ex: spec_fn(Drawing, int) -> bool)
    requires
        lasting(ex),
        apart_but(d, ex),
        wire_fits(sc, d, path, net@, except),
    ensures
        apart_but(d.wired(path, net), ex),
        apart_but(d.registered(path, net), ex),
{
    lemma_fits_is_safe(sc, d, path, net@, except);
    lemma_clear(d, path, net, ex);
}

// ---------------------------------------------------------------- trees

pub proof fn lemma_best_wire(
    sc: Scene<'_>,
    d: Drawing,
    ps: Seq<Seq<Point>>,
    net: Seq<char>,
    analog: bool,
    n: int,
)
    ensures
        best_wire(sc, d, ps, net, analog, n) matches Some(i) ==> 0 <= i < ps.len() && feasible(
            sc,
            d,
            ps[i],
            net,
            analog,
        ),
    decreases n,
{
    if 0 < n <= ps.len() {
        lemma_best_wire(sc, d, ps, net, analog, n - 1);
    }
}

pub proof fn lemma_feasible(sc: Scene<'_>, d: Drawing, path: Seq<Point>, net: String, analog: bool, ex: spec_fn(Drawing, int) -> bool)
    requires
        lasting(ex),
        apart_but(d, ex),
        feasible(sc, d, path, net@, analog),
    ensures
        apart_but(d.wired(path, net), ex),
{
    reveal(feasible);
    lemma_fitting(sc, d, path, net, Seq::empty(), ex);
}

proof fn lemma_seed(
    sc: Scene<'_>,
    d: Drawing,
    list: Seq<Endpoint>,
    pairs: Seq<(usize, usize)>,
    net: Seq<char>,
    analog: bool,
    k: int,
)
    ensures
        seed_choice(sc, d, list, pairs, net, analog, k) matches Some((_, p)) ==> feasible(
            sc,
            d,
            p,
            net,
            analog,
        ),
    decreases pairs.len() - k,
{
    if 0 <= k < pairs.len() {
        let ps = pair_wires(sc, list, pairs[k].0, pairs[k].1);
        lemma_best_wire(sc, d, ps, net, analog, ps.len() as int);
        lemma_seed(sc, d, list, pairs, net, analog, k + 1);
    }
}

proof fn lemma_next(
    sc: Scene<'_>,
    d: Drawing,
    list: Seq<Endpoint>,
    wired: Seq<usize>,
    order: Seq<usize>,
    from: int,
    net: Seq<char>,
    analog: bool,
    k: int,
)
    ensures
        next_join(sc, d, list, wired, order, from, net, analog, k) matches Some((_, j)) ==> feasible(
            sc,
            d,
            j.path,
            net,
            analog,
        ),
    decreases order.len() - k,
{
    if 0 <= k < order.len() {
        let runs = net_runs(d.reg.segs, net, from, d.reg.segs.len() as int);
        let js = all_joins(sc, list[order[k] as int], runs, list, wired);
        let ps = join_paths(js);
        lemma_best_wire(sc, d, ps, net, analog, ps.len() as int);
        lemma_next(sc, d, list, wired, order, from, net, analog, k + 1);
    }
}

proof fn lemma_grown(
    sc: Scene<'_>,
    g: Growth,
    list: Seq<Endpoint>,
    from: int,
    net: String,
    analog: bool,
    fuel: nat,
    ex: spec_fn(Drawing, int) -> bool,
)
    requires
        lasting(ex),
        apart_but(g.d, ex),
    ensures
        apart_but(grown(sc, g, list, from, net, analog, fuel).d, ex),
    decreases fuel,
{
    if fuel > 0 && g.rest.len() > 0 {
        let order = rest_order(sc, list, g.wired, g.rest);
        lemma_next(sc, g.d, list, g.wired, order, from, net@, analog, 0);
        match next_join(sc, g.d, list, g.wired, order, from, net@, analog, 0) {
            Some((k, j)) => {
                lemma_feasible(sc, g.d, j.path, net, analog, ex);
                let next = Growth {
                    d: g.d.with_join(j, net),
                    wired: g.wired.push(order[k]),
                    rest: order.remove(k),
                };
                lemma_same(g.d.wired(j.path, net), next.d, ex);
                lemma_grown(sc, next, list, from, net, analog, (fuel - 1) as nat, ex);
            },
            None => {},
        }
    }
}

pub proof fn lemma_tree(
    sc: Scene<'_>,
    d: Drawing,
    list: Seq<Endpoint>,
    pairs: Seq<(usize, usize)>,
    net: String,
    analog: bool,
    ex: spec_fn(Drawing, int) -> bool,
)
    requires
        lasting(ex),
        apart_but(d, ex),
    ensures
        apart_but(tree_grown(sc, d, list, pairs, net, analog).0, ex),
{
    reveal(tree_grown);
    lemma_seed(sc, d, list, pairs, net@, analog, 0);
    match seed_choice(sc, d, list, pairs, net@, analog, 0) {
        None => {},
        Some((k, path)) => {
            let wired = seq![pairs[k].0, pairs[k].1];
            let rest = others(list.len() as int, wired);
            let g0 = Growth { d: d.wired(path, net), wired, rest };
            lemma_feasible(sc, d, path, net, analog, ex);
            lemma_grown(sc, g0, list, d.reg.segs.len() as int, net, analog, rest.len(), ex);
        },
    }
}

// ---------------------------------------------------------------- nets with their trees

proof fn lemma_branch_here(
    sc: Scene<'_>,
    d: Drawing,
    net: Seq<char>,
    analog: bool,
    s: Span,
    v: int,
    w: int,
    i: int,
)
    ensures
        branch_here(sc, d, net, analog, s, v, w, i) matches Some(b) ==> feasible(
            sc,
            d,
            b.path,
            net,
            analog,
        ),
    decreases branch_count(s) - i,
{
    if i < branch_count(s) {
        lemma_branch_here(sc, d, net, analog, s, v, w, i + 1);
    }
}

proof fn lemma_branch_along(
    sc: Scene<'_>,
    d: Drawing,
    net: Seq<char>,
    analog: bool,
    s: Span,
    w: int,
    v: int,
    hi: int,
)
    ensures
        branch_along(sc, d, net, analog, s, w, v, hi) matches Some(b) ==> feasible(
            sc,
            d,
            b.path,
            net,
            analog,
        ),
    decreases ahead_of(v as int, hi - 25400 + EPS),
{
    if sc.cfg.grid_mm > 0 && v <= hi - 25400 + EPS {
        lemma_branch_here(sc, d, net, analog, s, v, w, 0);
        lemma_branch_along(sc, d, net, analog, s, w, v + sc.cfg.grid_mm, hi);
    }
}

proof fn lemma_branch_off(
    sc: Scene<'_>,
    d: Drawing,
    net: Seq<char>,
    analog: bool,
    runs: Seq<Span>,
    k: int,
)
    ensures
        branch_off(sc, d, net, analog, runs, k) matches Some(b) ==> feasible(
            sc,
            d,
            b.path,
            net,
            analog,
        ),
    decreases runs.len() - k,
{
    if 0 <= k < runs.len() {
        let w = spec_max(text_width(net.len() as int) as int, sc.cfg.label_elbow_mm as int);
        let start = spec_snap_to(run_low(runs[k]) + 25400, sc.cfg.grid_mm as int) as int;
        lemma_branch_along(sc, d, net, analog, runs[k], w, start, run_high(runs[k]));
        lemma_branch_off(sc, d, net, analog, runs, k + 1);
    }
}

pub proof fn lemma_tree_labelled(
    sc: Scene<'_>,
    d: Drawing,
    net: String,
    from: int,
    branch: bool,
    analog: bool,
    ex: spec_fn(Drawing, int) -> bool,
)
    requires
        lasting(ex),
        apart_but(d, ex),
    ensures
        tree_labelled(sc, d, net, from, branch, analog) matches Some(t) ==> apart_but(t, ex),
{
    reveal(tree_labelled);
    let runs = longest_runs(net_runs(d.reg.segs, net@, from, d.reg.segs.len() as int));
    lemma_branch_off(sc, d, net@, analog, runs, 0);
    match tree_branch(sc, d, net@, from, analog) {
        Some(b) => {
            lemma_feasible(sc, d, b.path, net, analog, ex);
            match tree_labelled(sc, d, net, from, branch, analog) {
                Some(t) => {
                    if t.reg.segs == d.wired(b.path, net).reg.segs {
                        lemma_same(d.wired(b.path, net), t, ex);
                    }
                },
                None => {},
            }
        },
        None => {},
    }
    match tree_labelled(sc, d, net, from, branch, analog) {
        Some(t) => {
            if t.reg.segs == d.reg.segs {
                lemma_same(d, t, ex);
            }
        },
        None => {},
    }
}

proof fn lemma_first_tree_port(sc: Scene<'_>, d: Drawing, net: Seq<char>, c: Seq<StubView>, k: int)
    ensures
        first_tree_port(sc, d, net, c, k) matches Some(s) ==> wire_fits(
            sc,
            d,
            s.path,
            net,
            seq![s.placed],
        ),
    decreases c.len() - k,
{
    if 0 <= k < c.len() {
        lemma_first_tree_port(sc, d, net, c, k + 1);
    }
}

proof fn lemma_tree_ported(
    sc: Scene<'_>,
    d: Drawing,
    net: String,
    direction: PortDirection,
    eps: Seq<Endpoint>,
    from: int,
    analog: bool,
    ex: spec_fn(Drawing, int) -> bool,
)
    requires
        lasting(ex),
        apart_but(d, ex),
    ensures
        tree_ported(sc, d, net, direction, eps, from, analog) matches Some(t) ==> apart_but(t, ex),
{
    let order = anchor_order(sc.model.placed@, direction, eps);
    let c = port_stubs(sc, net@.len() as int, eps, order, order.len() as int);
    lemma_first_tree_port(sc, d, net@, c, 0);
    match first_tree_port(sc, d, net@, c, 0) {
        Some(s) => {
            lemma_fitting(sc, d, s.path, net, seq![s.placed], ex);
            let at = Site { at: s.at, rotation: s.rotation };
            let w = d.wired(s.path, net);
            lemma_same(w, w.with_hier_label(net, direction, at), ex);
        },
        None => {
            let runs = longest_runs(net_runs(d.reg.segs, net@, from, d.reg.segs.len() as int));
            lemma_branch_off(sc, d, net@, analog, runs, 0);
            match tree_branch(sc, d, net@, from, analog) {
                Some(b) => {
                    lemma_feasible(sc, d, b.path, net, analog, ex);
                    let w = d.wired(b.path, net);
                    match tree_ported(sc, d, net, direction, eps, from, analog) {
                        Some(t) => {
                            lemma_same(w, t, ex);
                        },
                        None => {},
                    }
                },
                None => {},
            }
        },
    }
}

proof fn lemma_group_tree(sc: Scene<'_>, d: Drawing, sub: Seq<Endpoint>, net: String, analog: bool, ex: spec_fn(Drawing, int) -> bool)
    requires
        lasting(ex),
        apart_but(d, ex),
    ensures
        apart_but(group_tree(sc, d, sub, net, analog).0, ex),
{
    let list = listed(sc, sub);
    let pairs = seed_pairs(list);
    if !analog {
        lemma_tree(sc, d, list, pairs, net, false, ex);
    } else {
        match best_seed(sc, d, list, pairs, net, pairs.len() as int) {
            Some(b) => {
                lemma_tree(sc, d, list, seq![pairs[b]], net, true, ex);
            },
            None => {},
        }
    }
}

proof fn lemma_subset(
    sc: Scene<'_>,
    g: GroupState,
    net: SheetNet,
    eps: Seq<Endpoint>,
    subset: Seq<usize>,
    analog: bool,
    many: bool,
    ex: spec_fn(Drawing, int) -> bool,
)
    requires
        lasting(ex),
        apart_but(g.d, ex),
    ensures
        apart_but(subset_wired(sc, g, net, eps, subset, analog, many).d, ex),
{
    let from = g.d.reg.segs.len() as int;
    let sub = picked(eps, subset);
    lemma_group_tree(sc, g.d, sub, net.name, analog, ex);
    let t = group_tree(sc, g.d, sub, net.name, analog);
    let wired = picked(listed(sc, sub), t.1);
    let ported = port_step(sc, g.d, t.0, net, wired, analog);
    match net.port {
        Some(direction) => {
            lemma_tree_ported(sc, t.0, net.name, direction, wired, from, analog, ex);
        },
        None => {},
    }
    let d1 = match ported {
        Some(d) => d,
        None => t.0,
    };
    lemma_tree_labelled(sc, d1, net.name, from, !analog, analog, ex);
}

pub proof fn lemma_trees_of_net(
    sc: Scene<'_>,
    g: GroupState,
    net: SheetNet,
    eps: Seq<Endpoint>,
    sets: Seq<Seq<usize>>,
    analog: bool,
    n: int,
    ex: spec_fn(Drawing, int) -> bool,
)
    requires
        lasting(ex),
        apart_but(g.d, ex),
    ensures
        apart_but(subsets_wired(sc, g, net, eps, sets, analog, n).d, ex),
    decreases n,
{
    if 0 < n <= sets.len() {
        lemma_trees_of_net(sc, g, net, eps, sets, analog, n - 1, ex);
        lemma_subset(
            sc,
            subsets_wired(sc, g, net, eps, sets, analog, n - 1),
            net,
            eps,
            sets[n - 1],
            analog,
            sets.len() > 1,
            ex,
        );
    }
}

// ---------------------------------------------------------------- direct wires

proof fn lemma_first_direct(
    sc: Scene<'_>,
    d: Drawing,
    net: Seq<char>,
    except: Seq<usize>,
    ps: Seq<Seq<Point>>,
    k: int,
)
    ensures
        first_direct(sc, d, net, except, ps, k) matches Some(p) ==> wire_fits(
            sc,
            d,
            p,
            net,
            except,
        ) && crossings(d.reg.segs, p, None) == 0,
    decreases ps.len() - k,
{
    if 0 <= k < ps.len() {
        lemma_first_direct(sc, d, net, except, ps, k + 1);
    }
}

pub proof fn lemma_direct(sc: Scene<'_>, d: Drawing, net: SheetNet, eps: Seq<Endpoint>, ex: spec_fn(Drawing, int) -> bool)
    requires
        lasting(ex),
        apart_but(d, ex),
    ensures
        direct_wire(sc, d, net, eps) matches Some(p) ==> apart_but(d.wired(p, net.name), ex)
            && crossings(d.reg.segs, p, None) == 0,
{
    match direct_wire(sc, d, net, eps) {
        Some(p) => {
            let except = seq![eps[0].placed, eps[1].placed];
            let ps = direct_paths(sc.cfg.grid_mm as int, eps[0], eps[1]);
            lemma_first_direct(sc, d, net.name@, except, ps, 0);
            lemma_fitting(sc, d, p, net.name, except, ex);
        },
        None => {},
    }
}

// ---------------------------------------------------------------- label stubs

pub proof fn lemma_first_fit(
    sc: Scene<'_>,
    d: Drawing,
    c: Seq<StubView>,
    net: Seq<char>,
    kind: StubKind,
    fit: Fit,
    i: int,
)
    ensures
        first_fit(sc, d, c, net, kind, fit, i) matches Some(k) ==> 0 <= k < c.len() && wire_fits(
            sc,
            d,
            c[k].path,
            net,
            seq![c[k].placed],
        ),
    decreases c.len() - i,
{
    if 0 <= i < c.len() {
        lemma_first_fit(sc, d, c, net, kind, fit, i + 1);
    }
}

pub proof fn lemma_chosen(
    sc: Scene<'_>,
    d: Drawing,
    c: Seq<StubView>,
    net: String,
    kind: StubKind,
    ex: spec_fn(Drawing, int) -> bool,
)
    requires
        lasting(ex),
        apart_but(d, ex),
    ensures
        best_stub(sc, d, c, net@, kind) matches Some(i) ==> 0 <= i < c.len() && apart_but(d.wired(c[i].path, net), ex) && apart_but(d.registered(c[i].path, net), ex),
{
    lemma_first_fit(sc, d, c, net@, kind, Fit::Strict, 0);
    lemma_first_fit(sc, d, c, net@, kind, Fit::Relaxed, 0);
    lemma_first_fit(sc, d, c, net@, kind, Fit::Uncrossed, 0);
    lemma_first_fit(sc, d, c, net@, kind, Fit::Placeable, 0);
    match best_stub(sc, d, c, net@, kind) {
        Some(i) => {
            lemma_fitting(sc, d, c[i].path, net, seq![c[i].placed], ex);
        },
        None => {},
    }
}

// ---------------------------------------------------------------- power stubs

pub proof fn lemma_least_crossed(d: Drawing, cs: Seq<AttachmentView>, net: Seq<char>, n: int)
    ensures
        least_crossed(d, cs, net, n) matches Some(i) ==> 0 <= i < cs.len() && path_safe(
            d.reg,
            cs[i].path,
            net,
        ),
    decreases n,
{
    if 0 < n <= cs.len() {
        lemma_least_crossed(d, cs, net, n - 1);
    }
}

/// A power stub that is clear, or that is excused, with its symbol.
pub proof fn lemma_supplied(
    sc: Scene<'_>,
    d: Drawing,
    net: String,
    e: Endpoint,
    down: bool,
    row: Option<Iu>,
    ex: spec_fn(Drawing, int) -> bool,
)
    requires
        lasting(ex),
        apart_but(d, ex),
        path_safe(d.reg, supply_choice(sc, d, net, e, down, row).0.path, net@) || forall|j: int|
            d.reg.segs.len() <= j < d.supplied(sc, net, e, down, row).0.reg.segs.len()
                ==> #[trigger] ex(d.supplied(sc, net, e, down, row).0, j),
    ensures
        apart_but(d.supplied(sc, net, e, down, row).0, ex),
{
    let c = supply_choice(sc, d, net, e, down, row).0;
    let b = d.supplied(sc, net, e, down, row).0;
    if c.path.len() >= 2 && spec_apart(c.path[0], c.path.last()) {
        lemma_added(d, b, c.path, net, ex);
    } else {
        lemma_same(d, b, ex);
    }
}

pub proof fn lemma_supply(
    sc: Scene<'_>,
    d: Drawing,
    net: String,
    e: Endpoint,
    down: bool,
    row: Option<Iu>,
    ex: spec_fn(Drawing, int) -> bool,
)
    requires
        lasting(ex),
        apart_but(d, ex),
    ensures
        apart_but(d.supplied(sc, net, e, down, row).0, ex) || supply_choice(
            sc,
            d,
            net,
            e,
            down,
            row,
        ).1 matches Some(Warning::PowerStubContact { .. }),
{
    let cs = supply_stubs(*sc.cfg, e, down, row);
    law_best_supply_is_cheapest(sc, d, cs, net@, e, row, cs.len() as int);
    match best_supply(sc, d, cs, net@, e, row, cs.len() as int) {
        Some(i) => {
            lemma_fits_is_safe(sc, d, cs[i].path, net@, seq![e.placed]);
            lemma_supplied(sc, d, net, e, down, row, ex);
        },
        None => {
            let more = rescue_stubs(*sc.cfg, e, down) + cs;
            lemma_least_crossed(d, more, net@, more.len() as int);
            match least_crossed(d, more, net@, more.len() as int) {
                Some(i) => {
                    lemma_supplied(sc, d, net, e, down, row, ex);
                },
                None => {},
            }
        },
    }
}

// ---------------------------------------------------------------- buses

/// Wires of the net itself are no obstacle to its further wires.
proof fn lemma_own_wires(reg: RegView, more: RegView, path: Seq<Point>, net: Seq<char>)
    requires
        path_safe(reg, path, net),
        more.pins == reg.pins,
        reg.segs.is_prefix_of(more.segs),
        forall|k: int|
            reg.segs.len() <= k < more.segs.len() ==> (#[trigger] more.segs[k]).net@ == net,
    ensures
        path_safe(more, path, net),
{
    assert forall|i: int| #[trigger] is_leg(path, i) implies electrically_clear(
        more,
        span(path[i], path[i + 1]),
        net,
    ) by {
        let s = span(path[i], path[i + 1]);
        assert(electrically_clear(reg, s, net));
        assert forall|k: int| 0 <= k < more.segs.len() implies (#[trigger] more.segs[k]).net@ == net
            || !spec_touch(s, more.segs[k].span) by {
            if k < reg.segs.len() {
                assert(more.segs[k] == reg.segs[k]);
            }
        }
    }
}

/// Only wires of the net were added.
pub open spec fn adds_own(after: Drawing, before: Drawing, net: Seq<char>) -> bool {
    &&& after.reg.pins == before.reg.pins
    &&& before.reg.segs.is_prefix_of(after.reg.segs)
    &&& forall|k: int|
        before.reg.segs.len() <= k < after.reg.segs.len() ==> (#[trigger] after.reg.segs[k]).net@
            == net
}

proof fn lemma_tapped(
    sc: Scene<'_>,
    d: Drawing,
    eps: Seq<Endpoint>,
    run: Seq<usize>,
    x: Iu,
    net: String,
    n: int,
    ex: spec_fn(Drawing, int) -> bool,
)
    requires
        lasting(ex),
        apart_but(d, ex),
        taps_fit(sc, d, eps, run, x, net@),
    ensures
        apart_but(d.tapped(eps, run, x, net, n), ex),
        adds_own(d.tapped(eps, run, x, net, n), d, net@),
    decreases n,
{
    if 0 < n <= run.len() {
        lemma_tapped(sc, d, eps, run, x, net, n - 1, ex);
        let before = d.tapped(eps, run, x, net, n - 1);
        let path = tap(eps[run[n - 1] as int], x);
        lemma_fits_is_safe(sc, d, path, net@, members_placed(eps, run));
        lemma_own_wires(d.reg, before.reg, path, net@);
        lemma_clear(before, path, net, ex);
        let after = before.wired(path, net);
        assert forall|k: int| d.reg.segs.len() <= k < after.reg.segs.len() implies (
        #[trigger] after.reg.segs[k]).net@ == net@ by {
            if k < before.reg.segs.len() {
                assert(after.reg.segs[k] == before.reg.segs[k]);
            }
        }
    }
}

proof fn lemma_bus_joined(
    d: Drawing,
    eps: Seq<Endpoint>,
    run: Seq<usize>,
    x: Iu,
    net: Seq<char>,
    n: int,
)
    ensures
        d.bus_joined(eps, run, x, net, n).reg == d.reg,
        later(d.bus_joined(eps, run, x, net, n), d),
    decreases n,
{
    if 0 < n <= run.len() {
        lemma_bus_joined(d, eps, run, x, net, n - 1);
    }
}

pub proof fn lemma_bus(
    sc: Scene<'_>,
    d: Drawing,
    eps: Seq<Endpoint>,
    run: Seq<usize>,
    x: Iu,
    bus: Seq<Point>,
    net: String,
    ex: spec_fn(Drawing, int) -> bool,
)
    requires
        lasting(ex),
        apart_but(d, ex),
        taps_fit(sc, d, eps, run, x, net@),
        wire_fits(sc, d, bus, net@, members_placed(eps, run)),
    ensures
        apart_but(d.bussed(eps, run, x, bus, net), ex),
{
    let n = run.len() as int;
    lemma_tapped(sc, d, eps, run, x, net, n, ex);
    let tapped = d.tapped(eps, run, x, net, n);
    lemma_fits_is_safe(sc, d, bus, net@, members_placed(eps, run));
    lemma_own_wires(d.reg, tapped.reg, bus, net@);
    lemma_clear(tapped, bus, net, ex);
    lemma_bus_joined(tapped.wired(bus, net), eps, run, x, net@, n);
    lemma_same(tapped.wired(bus, net), d.bussed(eps, run, x, bus, net), ex);
}

proof fn lemma_stack_step(
    sc: Scene<'_>,
    d: Drawing,
    eps: Seq<Endpoint>,
    run: Seq<usize>,
    net: Seq<char>,
    down: bool,
    step: int,
)
    ensures
        stack_step(sc, d, eps, run, net, down, step) matches Some(s) ==> stack_fits(
            sc,
            d,
            eps,
            run,
            net,
            down,
            s,
        ),
    decreases 9 - step,
{
    if step <= 8 {
        lemma_stack_step(sc, d, eps, run, net, down, step + 1);
    }
}

pub proof fn lemma_stack(
    sc: Scene<'_>,
    d: Drawing,
    eps: Seq<Endpoint>,
    run: Seq<usize>,
    net: String,
    up: bool,
    ex: spec_fn(Drawing, int) -> bool,
)
    requires
        lasting(ex),
        apart_but(d, ex),
    ensures
        offset_stack(sc, d, eps, run, net, up) matches Some((after, _)) ==> apart_but(after, ex),
{
    lemma_stack_step(sc, d, eps, run, net@, !up, 0);
    match stack_step(sc, d, eps, run, net@, !up, 0) {
        Some(step) => {
            let x = stack_bus_x(sc, eps[run[0] as int], step);
            let bus = upright(x, eps[run[0] as int].pos.y, eps[run.last() as int].pos.y);
            lemma_bus(sc, d, eps, run, x, bus, net, ex);
        },
        None => {},
    }
}

pub proof fn lemma_flag(sc: Scene<'_>, d: Drawing, net: String, at: Point, left: bool, ex: spec_fn(Drawing, int) -> bool)
    requires
        lasting(ex),
        apart_but(d, ex),
        exists|i: int|
            0 <= i < 8 && #[trigger] flag_fits(
                sc,
                d,
                net@,
                at,
                flag_site(sc, net@.len() as int, at, left, i),
            ),
    ensures
        apart_but(d.flagged(sc, net, at, left), ex),
{
    let k = choose|i: int|
        0 <= i < 8 && #[trigger] flag_fits(
            sc,
            d,
            net@,
            at,
            flag_site(sc, net@.len() as int, at, left, i),
        );
    lemma_flag_choice(sc, d, net@, at, left, 0, k);
    let site = flag_choice(sc, d, net@, at, left, 0);
    lemma_fitting(sc, d, seq![at, site], net, Seq::empty(), ex);
    lemma_same(d.wired(seq![at, site], net), d.flagged(sc, net, at, left), ex);
}

proof fn lemma_flag_choice(
    sc: Scene<'_>,
    d: Drawing,
    net: Seq<char>,
    at: Point,
    left: bool,
    i: int,
    k: int,
)
    requires
        0 <= i <= k < 8,
        flag_fits(sc, d, net, at, flag_site(sc, net.len() as int, at, left, k)),
    ensures
        flag_fits(sc, d, net, at, flag_choice(sc, d, net, at, left, i)),
    decreases 8 - i,
{
    if !flag_fits(sc, d, net, at, flag_site(sc, net.len() as int, at, left, i)) {
        lemma_flag_choice(sc, d, net, at, left, i + 1, k);
    }
}

// ---------------------------------------------------------------- step by step

/// No wire is excused.
spec fn none_excused() -> spec_fn(Drawing, int) -> bool {
    |d: Drawing, j: int| false
}

/// The wires of a tree make no contact with other nets.
pub proof fn law_tree_keeps_nets_apart(
    sc: Scene<'_>,
    d: Drawing,
    list: Seq<Endpoint>,
    pairs: Seq<(usize, usize)>,
    net: String,
    analog: bool,
)
    requires
        nets_apart(d.reg),
    ensures
        nets_apart(tree_grown(sc, d, list, pairs, net, analog).0.reg),
{
    let ex = none_excused();
    lemma_none_excused(d, ex);
    lemma_tree(sc, d, list, pairs, net, analog, ex);
    lemma_none_excused(tree_grown(sc, d, list, pairs, net, analog).0, ex);
}

/// The trees of a net, with their labels and ports, make no contact with other nets.
pub proof fn law_trees_of_a_net_keep_nets_apart(
    sc: Scene<'_>,
    g: GroupState,
    net: SheetNet,
    eps: Seq<Endpoint>,
    sets: Seq<Seq<usize>>,
    analog: bool,
    n: int,
)
    requires
        nets_apart(g.d.reg),
    ensures
        nets_apart(subsets_wired(sc, g, net, eps, sets, analog, n).d.reg),
{
    let ex = none_excused();
    lemma_none_excused(g.d, ex);
    lemma_trees_of_net(sc, g, net, eps, sets, analog, n, ex);
    lemma_none_excused(subsets_wired(sc, g, net, eps, sets, analog, n).d, ex);
}

/// A direct wire makes no contact with other nets, and crosses nothing.
pub proof fn law_direct_wire_keeps_nets_apart(sc: Scene<'_>, d: Drawing, net: SheetNet, eps: Seq<Endpoint>)
    requires
        nets_apart(d.reg),
    ensures
        direct_wire(sc, d, net, eps) matches Some(p) ==> nets_apart(d.wired(p, net.name).reg)
            && crossings(d.reg.segs, p, None) == 0,
{
    let ex = none_excused();
    lemma_none_excused(d, ex);
    lemma_direct(sc, d, net, eps, ex);
    match direct_wire(sc, d, net, eps) {
        Some(p) => {
            lemma_none_excused(d.wired(p, net.name), ex);
        },
        None => {},
    }
}

/// The stub that is chosen for a label makes no contact with other nets.
pub proof fn law_chosen_stub_keeps_nets_apart(
    sc: Scene<'_>,
    d: Drawing,
    c: Seq<StubView>,
    net: String,
    kind: StubKind,
)
    requires
        nets_apart(d.reg),
    ensures
        best_stub(sc, d, c, net@, kind) matches Some(i) ==> 0 <= i < c.len() && nets_apart(
            d.wired(c[i].path, net).reg,
        ) && nets_apart(d.registered(c[i].path, net).reg),
{
    let ex = none_excused();
    lemma_none_excused(d, ex);
    lemma_chosen(sc, d, c, net, kind, ex);
    match best_stub(sc, d, c, net@, kind) {
        Some(i) => {
            lemma_none_excused(d.wired(c[i].path, net), ex);
            lemma_none_excused(d.registered(c[i].path, net), ex);
        },
        None => {},
    }
}

/// A power stub makes no contact with other nets, or a remark says that it does.
pub proof fn law_supply_keeps_nets_apart(
    sc: Scene<'_>,
    d: Drawing,
    net: String,
    e: Endpoint,
    down: bool,
    row: Option<Iu>,
)
    requires
        nets_apart(d.reg),
    ensures
        nets_apart(d.supplied(sc, net, e, down, row).0.reg) || supply_choice(
            sc,
            d,
            net,
            e,
            down,
            row,
        ).1 matches Some(Warning::PowerStubContact { .. }),
{
    let ex = none_excused();
    lemma_none_excused(d, ex);
    lemma_supply(sc, d, net, e, down, row, ex);
    lemma_none_excused(d.supplied(sc, net, e, down, row).0, ex);
}

/// A bus whose taps and trunk fit makes no contact with other nets.
pub proof fn law_bus_keeps_nets_apart(
    sc: Scene<'_>,
    d: Drawing,
    eps: Seq<Endpoint>,
    run: Seq<usize>,
    x: Iu,
    bus: Seq<Point>,
    net: String,
)
    requires
        nets_apart(d.reg),
        taps_fit(sc, d, eps, run, x, net@),
        wire_fits(sc, d, bus, net@, members_placed(eps, run)),
    ensures
        nets_apart(d.bussed(eps, run, x, bus, net).reg),
{
    let ex = none_excused();
    lemma_none_excused(d, ex);
    lemma_bus(sc, d, eps, run, x, bus, net, ex);
    lemma_none_excused(d.bussed(eps, run, x, bus, net), ex);
}

/// A stack of power pins on its own bus makes no contact with other nets.
pub proof fn law_stack_keeps_nets_apart(
    sc: Scene<'_>,
    d: Drawing,
    eps: Seq<Endpoint>,
    run: Seq<usize>,
    net: String,
    up: bool,
)
    requires
        nets_apart(d.reg),
    ensures
        offset_stack(sc, d, eps, run, net, up) matches Some((after, _)) ==> nets_apart(after.reg),
{
    let ex = none_excused();
    lemma_none_excused(d, ex);
    lemma_stack(sc, d, eps, run, net, up, ex);
    match offset_stack(sc, d, eps, run, net, up) {
        Some((after, _)) => {
            lemma_none_excused(after, ex);
        },
        None => {},
    }
}

/// A flag beside its symbol makes no contact with other nets, where any of its places is free.
pub proof fn law_flag_keeps_nets_apart(sc: Scene<'_>, d: Drawing, net: String, at: Point, left: bool)
    requires
        nets_apart(d.reg),
        exists|i: int|
            0 <= i < 8 && #[trigger] flag_fits(
                sc,
                d,
                net@,
                at,
                flag_site(sc, net@.len() as int, at, left, i),
            ),
    ensures
        nets_apart(d.flagged(sc, net, at, left).reg),
{
    let ex = none_excused();
    lemma_none_excused(d, ex);
    lemma_flag(sc, d, net, at, left, ex);
    lemma_none_excused(d.flagged(sc, net, at, left), ex);
}

} // verus!
