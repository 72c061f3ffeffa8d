//! No signal pin is left out: each is wired to its net, or carries the net's label on a stub, or
//! stands in a stack of pins with one that does.

use vstd::prelude::*;
use crate::apart::lemma_first_fit;
use crate::canvas::{
    elbow_at, elbow_stub, label_kind, label_stub, lists, short_stub, straight_stub, stub_candidates,
    Drawing, Endpoint, Fit, Scene, StubKind, StubView,
};
use crate::config::SchConfig;
use crate::contacts::{
    all_ends, all_signals, ends_kept, is_end, is_signal, is_stack_bus, lemma_anchors_below,
    lemma_carrier, lemma_collapse_len, lemma_few_collapsed, lemma_few_endpoints, lemma_left_ends,
    lemma_orders, lemma_pairs_sorted, lemma_stacks_below,
};
use crate::grow::{all_below, net_runs};
use crate::labels::{
    all_labelled, all_net_labelled, all_planned, annotated, any_cramped, any_on_hub, away_from,
    label_order, left_over, net_labelled, nets_below, pair_after, pair_order, pairs_sorted,
    port_labelled, rest_labelled, signal_nets, signals_routed, tops,
};
use crate::linked::{
    drawn_for, keeps, label_stands, labelled_off, lemma_join_choice, lemma_join_links,
    lemma_keeps_trans, lemma_linked_stays, lemma_pair_links, lemma_points_stay, lemma_stacked_stays,
    lemma_subsets_link, lemma_tree_label_keeps, lemma_group_sets, lemma_wired, linked,
    points_linked, served, stacked, stub_runs,
};
use crate::nets::{group_sets, is_analog, net_planned, on_root, subsets_wired, GroupState};
use crate::order::{flat, includes, law_runs_keep_items, law_sort_is_permutation, sorted_by, upto};
use crate::pins::{endpoints_of, is_pair_net, seen};
use crate::place::SheetNet;
use crate::power::{collapse_upto, collapsed, edge_after, edge_order, positions, stacks, stacks_on};
use crate::signals::{
    deduplicated, direct_paths, direct_wire, endpoints_for, first_direct, joined_upto,
    label_carrier, lane_kept, lanes_kept, law_anchor_order_complete, port_stub, port_stubs,
    Annotation, Joining, SignalState, SignalsView,
};
use crate::subsets::anchor_order;
use crate::tree::{all_joins, join_choice};
use crate::units::{spec_apart, Point};
use crate::wiring::{
    all_join_pins, facing, flip, joins_pins, lemma_facing, lemma_flip_paths, lemma_swap_pins,
};

verus! {

// ---------------------------------------------------------------- stubs with labels

/// The stub runs from the point to its label.
pub open spec fn stub_from(s: StubView, at: Point) -> bool {
    s.path.len() >= 2 && s.path[0] == at && s.path.last() == s.at
}

proof fn lemma_candidates(cfg: SchConfig, n: int, ep: Endpoint, from: usize, kind: StubKind, i: int)
    requires
        0 <= i < stub_candidates(cfg, n, ep, from, kind).len(),
    ensures
        stub_from(stub_candidates(cfg, n, ep, from, kind)[i], ep.pos),
        stub_candidates(cfg, n, ep, from, kind)[i].from == from,
{
    if ep.dir.y != 0 {
        assert(stub_candidates(cfg, n, ep, from, kind)[i] == elbow_stub(
            cfg,
            n,
            ep,
            from,
            kind,
            elbow_at(kind, i),
        ));
    } else {
        assert(stub_candidates(cfg, n, ep, from, kind)[i] == straight_stub(
            cfg,
            n,
            ep,
            from,
            kind,
            i,
        ));
    }
}

/// A label on a stub links its pin.
proof fn lemma_label_links(sc: Scene<'_>, d: Drawing, net: SheetNet, e: Endpoint, global: bool)
    ensures
        keeps(d.with_label(sc, net.name, e, global), d),
        linked(sc, d.with_label(sc, net.name, e, global), net, e.pos),
{
    let kind = label_kind(global);
    let n = net.name@.len() as int;
    let c = stub_candidates(*sc.cfg, n, e, 0, kind);
    let s = label_stub(sc, d, net.name@, e, global);
    let b = d.with_label(sc, net.name, e, global);
    lemma_first_fit(sc, d, c, net.name@, kind, Fit::Strict, 0);
    lemma_first_fit(sc, d, c, net.name@, kind, Fit::Relaxed, 0);
    lemma_first_fit(sc, d, c, net.name@, kind, Fit::Uncrossed, 0);
    lemma_first_fit(sc, d, c, net.name@, kind, Fit::Placeable, 0);
    if s != short_stub(e) {
        let i = choose|i: int| 0 <= i < c.len() && #[trigger] c[i] == s;
        lemma_candidates(*sc.cfg, n, e, 0, kind, i);
    }
    assert(stub_from(s, e.pos));
    lemma_wired(d, s.path, net.name);
    if global {
        assert(b.global_labels[d.global_labels.len() as int].at == s.at);
    } else {
        assert(b.net_labels[d.net_labels.len() as int].at == s.at);
    }
    assert(label_stands(b, net.name@, s.at));
    if spec_apart(s.path[0], s.path.last()) {
        let i = d.wires.len() as int;
        let p = d.reg.segs.len() as int;
        assert(drawn_for(b, net.name@, i, p));
        assert(stub_runs(b, net.name@, e.pos, s.at));
    }
    assert(labelled_off(b, net.name@, e.pos));
}

proof fn lemma_all_labelled_links(
    sc: Scene<'_>,
    d: Drawing,
    net: SheetNet,
    eps: Seq<Endpoint>,
    global: bool,
    n: int,
)
    requires
        0 <= n <= eps.len(),
    ensures
        keeps(all_labelled(sc, d, net.name, eps, global, n), d),
        forall|i: int|
            0 <= i < n ==> linked(
                sc,
                all_labelled(sc, d, net.name, eps, global, n),
                net,
                (#[trigger] eps[i]).pos,
            ),
    decreases n,
{
    if n > 0 {
        lemma_all_labelled_links(sc, d, net, eps, global, n - 1);
        let before = all_labelled(sc, d, net.name, eps, global, n - 1);
        let after = all_labelled(sc, d, net.name, eps, global, n);
        lemma_label_links(sc, before, net, eps[n - 1], global);
        lemma_keeps_trans(d, before, after);
        assert forall|i: int| 0 <= i < n implies linked(sc, after, net, (#[trigger] eps[i]).pos) by {
            if i < n - 1 {
                lemma_linked_stays(sc, before, after, net, eps[i].pos);
            }
        }
    }
}

/// Every endpoint of `eps` is linked, or is left over.
pub open spec fn linked_or_left(
    sc: Scene<'_>,
    d: Drawing,
    net: SheetNet,
    eps: Seq<Endpoint>,
    rest: Seq<Endpoint>,
) -> bool {
    forall|i: int|
        0 <= i < eps.len() ==> linked(sc, d, net, (#[trigger] eps[i]).pos) || rest.contains(eps[i])
}

proof fn lemma_away(eps: Seq<Endpoint>, p: Point, n: int, i: int)
    requires
        0 <= i < n <= eps.len(),
        eps[i].pos != p,
    ensures
        away_from(eps, p, n).contains(eps[i]),
    decreases n,
{
    let r = away_from(eps, p, n);
    if i < n - 1 {
        lemma_away(eps, p, n - 1, i);
        let before = away_from(eps, p, n - 1);
        let k = choose|k: int| 0 <= k < before.len() && before[k] == eps[i];
        assert(r[k] == eps[i]);
    } else {
        assert(r[r.len() - 1] == eps[i]);
    }
}

proof fn lemma_left(eps: Seq<Endpoint>, reached: Seq<Point>, n: int, i: int)
    requires
        0 <= i < n <= eps.len(),
        !seen(reached, eps[i].pos),
    ensures
        left_over(eps, reached, n).contains(eps[i]),
    decreases n,
{
    let r = left_over(eps, reached, n);
    if i < n - 1 {
        lemma_left(eps, reached, n - 1, i);
        let before = left_over(eps, reached, n - 1);
        let k = choose|k: int| 0 <= k < before.len() && before[k] == eps[i];
        assert(r[k] == eps[i]);
    } else {
        assert(r[r.len() - 1] == eps[i]);
    }
}

proof fn lemma_port_stubs(sc: Scene<'_>, n: int, eps: Seq<Endpoint>, order: Seq<usize>, k: int)
    requires
        all_below(order, eps.len() as int),
        0 <= k <= order.len(),
    ensures
        k > 0 ==> port_stubs(sc, n, eps, order, k).len() > 0,
        forall|i: int|
            0 <= i < port_stubs(sc, n, eps, order, k).len() ==> {
                let s = #[trigger] port_stubs(sc, n, eps, order, k)[i];
                s.from < eps.len() && stub_from(s, eps[s.from as int].pos)
            },
    decreases k,
{
    if k > 0 {
        lemma_port_stubs(sc, n, eps, order, k - 1);
        let before = port_stubs(sc, n, eps, order, k - 1);
        let all = port_stubs(sc, n, eps, order, k);
        let e = eps[order[k - 1] as int];
        let more = stub_candidates(*sc.cfg, n, e, order[k - 1], StubKind::Hier);
        assert forall|i: int| 0 <= i < all.len() implies {
            let s = #[trigger] all[i];
            s.from < eps.len() && stub_from(s, eps[s.from as int].pos)
        } by {
            if i < before.len() {
                assert(all[i] == before[i]);
            } else {
                assert(all[i] == more[i - before.len()]);
                lemma_candidates(*sc.cfg, n, e, order[k - 1], StubKind::Hier, i - before.len());
            }
        }
    }
}

/// The hierarchical label of a port links its endpoint; the others are left over.
proof fn lemma_port_links(sc: Scene<'_>, d: Drawing, net: SheetNet, eps: Seq<Endpoint>)
    requires
        0 < eps.len() <= usize::MAX,
    ensures
        keeps(port_labelled(sc, d, net, eps).0, d),
        linked_or_left(
            sc,
            port_labelled(sc, d, net, eps).0,
            net,
            eps,
            port_labelled(sc, d, net, eps).1,
        ),
        port_labelled(sc, d, net, eps).1.len() <= eps.len(),
{
    let (b, rest) = port_labelled(sc, d, net, eps);
    match net.port {
        Some(direction) => {
            if !on_root(sc) && !lists(d.anchored, net.name@) {
                let order = anchor_order(sc.model.placed@, direction, eps);
                let n = net.name@.len() as int;
                let c = port_stubs(sc, n, eps, order, order.len() as int);
                let s = port_stub(sc, d, net.name@, direction, eps);
                law_anchor_order_complete(sc.model.placed@, direction, eps);
                lemma_anchors_below(sc.model.placed@, direction, eps);
                lemma_port_stubs(sc, n, eps, order, order.len() as int);
                lemma_first_fit(sc, d, c, net.name@, StubKind::Hier, Fit::Strict, 0);
                lemma_first_fit(sc, d, c, net.name@, StubKind::Hier, Fit::Relaxed, 0);
                lemma_first_fit(sc, d, c, net.name@, StubKind::Hier, Fit::Uncrossed, 0);
                lemma_first_fit(sc, d, c, net.name@, StubKind::Hier, Fit::Placeable, 0);
                let at = eps[s.from as int].pos;
                assert(s.from < eps.len() && stub_from(s, at));
                lemma_wired(d, s.path, net.name);
                assert(b.hier_labels[d.hier_labels.len() as int].at == s.at);
                assert(label_stands(b, net.name@, s.at));
                assert(drawn_for(b, net.name@, d.wires.len() as int, d.reg.segs.len() as int));
                assert(stub_runs(b, net.name@, at, s.at));
                assert(labelled_off(b, net.name@, at));
                assert forall|i: int| 0 <= i < eps.len() implies linked(
                    sc,
                    b,
                    net,
                    (#[trigger] eps[i]).pos,
                ) || rest.contains(eps[i]) by {
                    if eps[i].pos != at {
                        lemma_away(eps, at, eps.len() as int, i);
                    }
                }
                lemma_away_len(eps, at, eps.len() as int);
            }
        },
        None => {},
    }
    if b == d && rest == eps {
        assert forall|i: int| 0 <= i < eps.len() implies linked(sc, b, net, (#[trigger] eps[i]).pos)
            || rest.contains(eps[i]) by {
            assert(rest[i] == eps[i]);
        }
    }
}

proof fn lemma_away_len(eps: Seq<Endpoint>, p: Point, n: int)
    requires
        0 <= n <= eps.len(),
    ensures
        away_from(eps, p, n).len() <= n,
    decreases n,
{
    if n > 0 {
        lemma_away_len(eps, p, n - 1);
    }
}

/// Of the first `n` endpoints, each is linked or is listed as left.
pub open spec fn joining_links(
    sc: Scene<'_>,
    j: Joining,
    net: SheetNet,
    eps: Seq<Endpoint>,
    rep: int,
    n: int,
) -> bool {
    &&& all_below(j.wired, eps.len() as int)
    &&& linked(sc, j.d, net, eps[rep].pos)
    &&& forall|i: int|
        0 <= i < n ==> linked(sc, j.d, net, (#[trigger] eps[i]).pos) || includes(j.left, i)
}

proof fn lemma_joined_links(
    sc: Scene<'_>,
    j: Joining,
    eps: Seq<Endpoint>,
    rep: int,
    from: int,
    net: SheetNet,
    n: int,
)
    requires
        all_ends(sc, net, eps),
        0 <= rep < eps.len() <= usize::MAX,
        0 <= n <= eps.len(),
        joining_links(sc, j, net, eps, rep, 0),
    ensures
        ({
            let r = joined_upto(sc, j, eps, rep, from, net.name, n);
            joining_links(sc, r, net, eps, rep, n) && keeps(r.d, j.d)
        }),
    decreases n,
{
    if n > 0 {
        lemma_joined_links(sc, j, eps, rep, from, net, n - 1);
        let before = joined_upto(sc, j, eps, rep, from, net.name, n - 1);
        let r = joined_upto(sc, j, eps, rep, from, net.name, n);
        if n - 1 != rep {
            let runs = net_runs(
                before.d.reg.segs,
                net.name@,
                from,
                before.d.reg.segs.len() as int,
            );
            let js = all_joins(sc, eps[n - 1], runs, eps, before.wired);
            lemma_join_choice(
                sc,
                before.d,
                eps[n - 1],
                runs,
                eps,
                before.wired,
                net.name@,
                true,
            );
            match join_choice(sc, before.d, js, net.name@, true) {
                Some(c) => {
                    lemma_join_links(
                        sc,
                        before.d,
                        net,
                        eps[n - 1],
                        runs,
                        eps,
                        before.wired,
                        c,
                        from,
                    );
                    lemma_keeps_trans(j.d, before.d, r.d);
                    lemma_linked_stays(sc, before.d, r.d, net, eps[rep].pos);
                    assert forall|i: int| 0 <= i < n implies linked(
                        sc,
                        r.d,
                        net,
                        (#[trigger] eps[i]).pos,
                    ) || includes(r.left, i) by {
                        if i < n - 1 && !includes(before.left, i) {
                            lemma_linked_stays(sc, before.d, r.d, net, eps[i].pos);
                        }
                    }
                },
                None => {
                    assert forall|i: int| 0 <= i < n implies linked(
                        sc,
                        r.d,
                        net,
                        (#[trigger] eps[i]).pos,
                    ) || includes(r.left, i) by {
                        if i < n - 1 && includes(before.left, i) {
                            let k = choose|k: int|
                                0 <= k < before.left.len() && #[trigger] before.left[k] == i;
                            assert(r.left[k] == i);
                        } else if i == n - 1 {
                            assert(r.left[before.left.len() as int] == i);
                        }
                    }
                },
            }
        }
    }
}

/// Where one label stands for the net, every endpoint is linked or left over.
proof fn lemma_dedup_links(sc: Scene<'_>, d: Drawing, net: SheetNet, eps: Seq<Endpoint>)
    requires
        all_ends(sc, net, eps),
        0 < eps.len() <= usize::MAX,
    ensures
        keeps(deduplicated(sc, d, net.name, eps).0, d),
        linked_or_left(
            sc,
            deduplicated(sc, d, net.name, eps).0,
            net,
            eps,
            deduplicated(sc, d, net.name, eps).1,
        ),
{
    let rep = label_carrier(sc, eps, eps.len() as int);
    lemma_carrier(sc, eps, eps.len() as int);
    let start = Joining {
        d: d.with_label(sc, net.name, eps[rep], true),
        wired: seq![rep as usize],
        left: Seq::empty(),
    };
    lemma_label_links(sc, d, net, eps[rep], true);
    let from = d.reg.segs.len() as int;
    lemma_joined_links(sc, start, eps, rep, from, net, eps.len() as int);
    let j = joined_upto(sc, start, eps, rep, from, net.name, eps.len() as int);
    let (b, rest) = deduplicated(sc, d, net.name, eps);
    lemma_keeps_trans(d, start.d, j.d);
    assert forall|i: int| 0 <= i < eps.len() implies linked(sc, b, net, (#[trigger] eps[i]).pos)
        || rest.contains(eps[i]) by {
        if j.wired.len() == 1 {
            assert(rest[i] == eps[i]);
        } else if includes(j.left, i) {
            let k = choose|k: int| 0 <= k < j.left.len() && #[trigger] j.left[k] == i;
            assert(rest[k] == eps[i]);
        }
    }
}

proof fn lemma_contains_linked(
    sc: Scene<'_>,
    a: Drawing,
    b: Drawing,
    net: SheetNet,
    eps: Seq<Endpoint>,
    rest: Seq<Endpoint>,
)
    requires
        keeps(b, a),
        linked_or_left(sc, a, net, eps, rest),
    ensures
        forall|i: int|
            0 <= i < eps.len() ==> linked(sc, b, net, (#[trigger] eps[i]).pos) || rest.contains(
                eps[i],
            ),
{
    assert forall|i: int| 0 <= i < eps.len() implies linked(sc, b, net, (#[trigger] eps[i]).pos)
        || rest.contains(eps[i]) by {
        if !rest.contains(eps[i]) {
            lemma_linked_stays(sc, a, b, net, eps[i].pos);
        }
    }
}

/// What is left of a net is linked once it is labelled.
proof fn lemma_rest_links(sc: Scene<'_>, d: Drawing, net: SheetNet, rest: Seq<Endpoint>)
    requires
        all_ends(sc, net, rest),
        0 < rest.len() <= usize::MAX,
    ensures
        keeps(rest_labelled(sc, d, net, rest), d),
        forall|i: int|
            0 <= i < rest.len() ==> linked(
                sc,
                rest_labelled(sc, d, net, rest),
                net,
                (#[trigger] rest[i]).pos,
            ),
{
    let global = net.design_endpoints <= 1 || (on_root(sc) && net.port is None
        && net.design_endpoints == 2 && any_cramped(sc, d, net.name@, rest));
    let (d1, rest1) = port_labelled(sc, d, net, rest);
    lemma_port_links(sc, d, net, rest);
    let dedup = sc.cfg.dedup_signal_labels && net.port is None && net.design_endpoints == 2
        && rest1.len() >= 2 && !any_on_hub(sc, rest1);
    let (d2, rest2) = if dedup {
        deduplicated(sc, d1, net.name, rest1)
    } else {
        (d1, rest1)
    };
    if dedup {
        lemma_dedup_links(sc, d1, net, rest1);
    } else {
        assert forall|i: int| 0 <= i < rest1.len() implies linked(
            sc,
            d2,
            net,
            (#[trigger] rest1[i]).pos,
        ) || rest2.contains(rest1[i]) by {
            assert(rest2[i] == rest1[i]);
        }
    }
    let r = all_labelled(sc, d2, net.name, rest2, global, rest2.len() as int);
    assert(r == rest_labelled(sc, d, net, rest));
    lemma_all_labelled_links(sc, d2, net, rest2, global, rest2.len() as int);
    lemma_keeps_trans(d1, d2, r);
    lemma_keeps_trans(d, d1, r);
    lemma_contains_linked(sc, d1, r, net, rest, rest1);
    lemma_contains_linked(sc, d2, r, net, rest1, rest2);
    assert forall|i: int| 0 <= i < rest.len() implies linked(sc, r, net, (#[trigger] rest[i]).pos) by {
        if rest1.contains(rest[i]) {
            let k = choose|k: int| 0 <= k < rest1.len() && rest1[k] == rest[i];
            assert(linked(sc, r, net, rest1[k].pos) || rest2.contains(rest1[k]));
            if rest2.contains(rest1[k]) {
                let m = choose|m: int| 0 <= m < rest2.len() && rest2[m] == rest1[k];
                assert(linked(sc, r, net, rest2[m].pos));
            }
        }
    }
}

// ---------------------------------------------------------------- stacks of pins

/// One of the endpoints is at the point, or stands for the stack with the pin at the point.
pub open spec fn represented(
    sc: Scene<'_>,
    d: Drawing,
    net: SheetNet,
    v: Seq<Endpoint>,
    at: Point,
) -> bool {
    exists|u: int|
        0 <= u < v.len() && ((#[trigger] v[u]).pos == at || stacked(sc, d, net, at, v[u].pos))
}

pub proof fn lemma_represented_stays(
    sc: Scene<'_>,
    a: Drawing,
    b: Drawing,
    net: SheetNet,
    v: Seq<Endpoint>,
    w: Seq<Endpoint>,
    at: Point,
)
    requires
        keeps(b, a),
        v.is_prefix_of(w),
        represented(sc, a, net, v, at),
    ensures
        represented(sc, b, net, w, at),
{
    let u = choose|u: int|
        0 <= u < v.len() && ((#[trigger] v[u]).pos == at || stacked(sc, a, net, at, v[u].pos));
    assert(w[u] == v[u]);
    if v[u].pos != at {
        lemma_stacked_stays(sc, a, b, net, at, v[u].pos);
    }
}

proof fn lemma_collapse_represents(sc: Scene<'_>, d: Drawing, net: SheetNet, n: int)
    requires
        0 <= n <= stacks(endpoints_of(sc, net), edge_order(endpoints_of(sc, net))).len(),
    ensures
        ({
            let eps = endpoints_of(sc, net);
            let runs = stacks(eps, edge_order(eps));
            let c = collapse_upto(sc, d, eps, runs, net.name, true, false, n);
            &&& keeps(c.0, d)
            &&& all_ends(sc, net, c.1)
            &&& forall|r: int, m: int|
                0 <= r < n && 0 <= m < runs[r].len() ==> represented(
                    sc,
                    c.0,
                    net,
                    c.1,
                    eps[#[trigger] runs[r][m] as int].pos,
                )
        }),
    decreases n,
{
    let eps = endpoints_of(sc, net);
    let runs = stacks(eps, edge_order(eps));
    let c = collapse_upto(sc, d, eps, runs, net.name, true, false, n);
    if n > 0 {
        lemma_collapse_represents(sc, d, net, n - 1);
        lemma_few_endpoints(sc, net, net.endpoints@.len() as int);
        lemma_stacks_below(eps);
        let before = collapse_upto(sc, d, eps, runs, net.name, true, false, n - 1);
        let run = runs[n - 1];
        assert(run.len() > 0);
        assert(run[0] < eps.len());
        assert(is_end(sc, net, eps[run[0] as int]));
        let path = positions(eps, run);
        lemma_wired(before.0, path, net.name);
        assert(keeps(c.0, before.0));
        lemma_keeps_trans(d, before.0, c.0);
        lemma_collapse_len(sc, d, eps, runs, net.name, true, false, n - 1);
        assert(c.1[n - 1] == eps[run[0] as int]);
        let at = eps[run[0] as int].pos;
        if run.len() >= 2 {
            assert(is_stack_bus(sc, net, path));
            assert(path[0] == at);
            assert(path.contains(at));
            assert(drawn_for(
                c.0,
                net.name@,
                before.0.wires.len() as int,
                before.0.reg.segs.len() as int,
            ));
        }
        assert(before.1.is_prefix_of(c.1));
        assert forall|r: int, m: int| 0 <= r < n && 0 <= m < runs[r].len() implies represented(
            sc,
            c.0,
            net,
            c.1,
            eps[#[trigger] runs[r][m] as int].pos,
        ) by {
            if r < n - 1 {
                lemma_represented_stays(
                    sc,
                    before.0,
                    c.0,
                    net,
                    before.1,
                    c.1,
                    eps[runs[r][m] as int].pos,
                );
            } else if run.len() >= 2 {
                let q = eps[run[m] as int].pos;
                assert(path[m] == q);
                assert(path.contains(q));
                assert(stacked(sc, c.0, net, q, at));
                assert(c.1[n - 1].pos == at);
            } else {
                assert(m == 0);
                assert(c.1[n - 1].pos == eps[runs[r][m] as int].pos);
            }
        }
    }
}

proof fn lemma_in_flat(runs: Seq<Seq<usize>>, n: int, k: int) -> (r: (int, int))
    requires
        0 <= n <= runs.len(),
        0 <= k < flat(runs, n).len(),
    ensures
        0 <= r.0 < n,
        0 <= r.1 < runs[r.0].len(),
        runs[r.0][r.1] == flat(runs, n)[k],
    decreases n,
{
    let before = flat(runs, n - 1);
    if k < before.len() {
        lemma_in_flat(runs, n - 1, k)
    } else {
        (n - 1, k - before.len())
    }
}

/// Every endpoint of a net is in one of its stacks.
pub proof fn lemma_in_a_stack(sc: Scene<'_>, net: SheetNet, i: int) -> (r: (int, int))
    requires
        0 <= i < endpoints_of(sc, net).len(),
    ensures
        ({
            let eps = endpoints_of(sc, net);
            let runs = stacks(eps, edge_order(eps));
            0 <= r.0 < runs.len() && 0 <= r.1 < runs[r.0].len() && runs[r.0][r.1] == i
        }),
{
    broadcast use vstd::seq_lib::group_to_multiset_ensures;

    let eps = endpoints_of(sc, net);
    let order = edge_order(eps);
    let joins = |a: usize, b: usize| stacks_on(eps, a, b);
    let runs = stacks(eps, order);
    let all = upto(eps.len() as int);
    lemma_few_endpoints(sc, net, net.endpoints@.len() as int);
    law_sort_is_permutation(
        all,
        |a: usize, b: usize| edge_after(eps[a as int], eps[b as int]),
    );
    law_runs_keep_items(order, joins, order.len() as int);
    assert(order.take(order.len() as int) =~= order);
    assert(all[i] == i);
    assert(all.contains(i as usize));
    assert(all.to_multiset().count(i as usize) > 0);
    assert(order.contains(i as usize));
    let k = choose|k: int| 0 <= k < order.len() && order[k] == i as usize;
    lemma_in_flat(runs, runs.len() as int, k)
}

/// Every endpoint of the net is represented.
pub open spec fn all_represented(sc: Scene<'_>, d: Drawing, net: SheetNet, v: Seq<Endpoint>) -> bool {
    forall|i: int|
        0 <= i < endpoints_of(sc, net).len() ==> represented(
            sc,
            d,
            net,
            v,
            (#[trigger] endpoints_of(sc, net)[i]).pos,
        )
}

proof fn lemma_collapsed_represents(sc: Scene<'_>, d: Drawing, net: SheetNet)
    ensures
        ({
            let c = collapsed(sc, d, endpoints_of(sc, net), net.name, true, false);
            keeps(c.0, d) && all_ends(sc, net, c.1) && all_represented(sc, c.0, net, c.1)
                && c.1.len() <= usize::MAX
        }),
{
    let eps = endpoints_of(sc, net);
    let runs = stacks(eps, edge_order(eps));
    lemma_collapse_represents(sc, d, net, runs.len() as int);
    lemma_few_collapsed(sc, d, net, true, false);
    let c = collapsed(sc, d, eps, net.name, true, false);
    assert forall|i: int| 0 <= i < eps.len() implies represented(
        sc,
        c.0,
        net,
        c.1,
        (#[trigger] eps[i]).pos,
    ) by {
        let r = lemma_in_a_stack(sc, net, i);
        assert(runs[r.0][r.1] == i);
    }
}

// ---------------------------------------------------------------- the signal pass

/// What is remembered of the nets is true of the sheet: the endpoints that are kept of a net stand
/// for all of them, and what counts as reached is linked.
pub open spec fn pass_ok(sc: Scene<'_>, st: SignalState) -> bool {
    &&& ends_kept(sc, st.s)
    &&& st.s.reached.len() == sc.model.nets@.len()
    &&& forall|sn: int|
        0 <= sn < sc.model.nets@.len() ==> match #[trigger] st.s.cache[sn] {
            Some(v) => all_represented(sc, st.d, sc.model.nets@[sn], v),
            None => true,
        }
    &&& forall|sn: int|
        0 <= sn < sc.model.nets@.len() ==> points_linked(
            sc,
            st.d,
            sc.model.nets@[sn],
            #[trigger] st.s.reached[sn],
        )
}

/// Nothing drawn is lost, and the endpoints that are kept of a net stay the same.
pub open spec fn goes_on(after: SignalState, before: SignalState) -> bool {
    &&& keeps(after.d, before.d)
    &&& after.s.cache.len() == before.s.cache.len()
    &&& forall|sn: int|
        0 <= sn < before.s.cache.len() && (#[trigger] before.s.cache[sn]) is Some
            ==> after.s.cache[sn] == before.s.cache[sn]
}

proof fn lemma_goes_on_trans(a: SignalState, b: SignalState, c: SignalState)
    requires
        goes_on(b, a),
        goes_on(c, b),
    ensures
        goes_on(c, a),
{
    lemma_keeps_trans(a.d, b.d, c.d);
    assert forall|sn: int| 0 <= sn < a.s.cache.len() && (#[trigger] a.s.cache[sn]) is Some implies c.s.cache[sn]
        == a.s.cache[sn] by {
        assert(b.s.cache[sn] == a.s.cache[sn]);
    }
}

proof fn lemma_pass_stays(sc: Scene<'_>, st: SignalState, d: Drawing)
    requires
        pass_ok(sc, st),
        keeps(d, st.d),
    ensures
        pass_ok(sc, SignalState { d, s: st.s }),
{
    assert forall|sn: int| 0 <= sn < sc.model.nets@.len() implies match #[trigger] st.s.cache[sn] {
        Some(v) => all_represented(sc, d, sc.model.nets@[sn], v),
        None => true,
    } by {
        let net = sc.model.nets@[sn];
        match st.s.cache[sn] {
            Some(v) => {
                assert(all_represented(sc, st.d, net, v));
                assert forall|i: int| 0 <= i < endpoints_of(sc, net).len() implies represented(
                    sc,
                    d,
                    net,
                    v,
                    (#[trigger] endpoints_of(sc, net)[i]).pos,
                ) by {
                    lemma_represented_stays(
                        sc,
                        st.d,
                        d,
                        net,
                        v,
                        v,
                        endpoints_of(sc, net)[i].pos,
                    );
                }
            },
            None => {},
        }
    }
    assert forall|sn: int| 0 <= sn < sc.model.nets@.len() implies points_linked(
        sc,
        d,
        sc.model.nets@[sn],
        #[trigger] st.s.reached[sn],
    ) by {
        lemma_points_stay(sc, st.d, d, sc.model.nets@[sn], st.s.reached[sn]);
    }
}

proof fn lemma_endpoints_represent(sc: Scene<'_>, st: SignalState, sn: int)
    requires
        pass_ok(sc, st),
        0 <= sn < sc.model.nets@.len(),
    ensures
        ({
            let (st1, eps) = endpoints_for(sc, st, sn);
            &&& pass_ok(sc, st1)
            &&& goes_on(st1, st)
            &&& st1.s.cache[sn] == Some(eps)
            &&& st1.s.reached == st.s.reached
            &&& all_ends(sc, sc.model.nets@[sn], eps)
            &&& eps.len() <= usize::MAX
        }),
{
    let net = sc.model.nets@[sn];
    let (st1, eps) = endpoints_for(sc, st, sn);
    match st.s.cache[sn] {
        Some(v) => {},
        None => {
            lemma_collapsed_represents(sc, st.d, net);
            lemma_pass_stays(sc, st, st1.d);
            let mid = SignalState { d: st1.d, s: st.s };
            assert forall|k: int| 0 <= k < st1.s.cache.len() implies match #[trigger] st1.s.cache[k] {
                Some(v) => all_ends(sc, sc.model.nets@[k], v) && v.len() <= usize::MAX,
                None => true,
            } by {
                if k != sn {
                    assert(st1.s.cache[k] == mid.s.cache[k]);
                }
            }
            assert forall|k: int| 0 <= k < sc.model.nets@.len() implies match #[trigger] st1.s.cache[k] {
                Some(v) => all_represented(sc, st1.d, sc.model.nets@[k], v),
                None => true,
            } by {
                if k != sn {
                    assert(st1.s.cache[k] == mid.s.cache[k]);
                }
            }
        },
    }
}

proof fn lemma_lanes_pass(sc: Scene<'_>, st: SignalState, n: int)
    requires
        pass_ok(sc, st),
    ensures
        pass_ok(sc, lanes_kept(sc, st, n)),
        goes_on(lanes_kept(sc, st, n), st),
    decreases n,
{
    if 0 < n <= sc.model.nets@.len() {
        lemma_lanes_pass(sc, st, n - 1);
        reveal(lane_kept);
        let before = lanes_kept(sc, st, n - 1);
        let after = lanes_kept(sc, st, n);
        lemma_endpoints_represent(sc, before, n - 1);
        let st1 = endpoints_for(sc, before, n - 1).0;
        if after != before {
            assert(keeps(after.d, st1.d));
            lemma_pass_stays(sc, st1, after.d);
            lemma_goes_on_trans(before, st1, after);
        }
        lemma_goes_on_trans(st, before, after);
    }
}

proof fn lemma_planned_pass(sc: Scene<'_>, st: SignalState, sn: int)
    requires
        pass_ok(sc, st),
        0 <= sn < sc.model.nets@.len(),
    ensures
        pass_ok(sc, net_planned(sc, st, sn)),
        goes_on(net_planned(sc, st, sn), st),
{
    reveal(net_planned);
    let net = sc.model.nets@[sn];
    let analog = is_analog(sc, net);
    let (st1, eps) = endpoints_for(sc, st, sn);
    let sets = group_sets(sc, eps, analog);
    lemma_endpoints_represent(sc, st, sn);
    if sets.len() > 0 {
        let g0 = GroupState {
            d: st1.d,
            pending: st1.s.pending,
            reached: Seq::empty(),
            count: 0,
        };
        lemma_group_sets(sc, eps, analog);
        lemma_subsets_link(sc, g0, net, eps, sets, analog, sets.len() as int);
        let g = subsets_wired(sc, g0, net, eps, sets, analog, sets.len() as int);
        let after = net_planned(sc, st, sn);
        assert(keeps(after.d, g.d));
        lemma_keeps_trans(st1.d, g.d, after.d);
        lemma_pass_stays(sc, st1, after.d);
        lemma_points_stay(sc, g.d, after.d, net, g.reached);
        let mid = SignalState { d: after.d, s: st1.s };
        assert forall|k: int| 0 <= k < sc.model.nets@.len() implies points_linked(
            sc,
            after.d,
            sc.model.nets@[k],
            #[trigger] after.s.reached[k],
        ) by {
            if k != sn {
                assert(after.s.reached[k] == mid.s.reached[k]);
            }
        }
        lemma_goes_on_trans(st, st1, after);
    }
}

proof fn lemma_all_planned_pass(sc: Scene<'_>, st: SignalState, order: Seq<usize>, n: int)
    requires
        pass_ok(sc, st),
        nets_below(sc, order),
    ensures
        pass_ok(sc, all_planned(sc, st, order, n)),
        goes_on(all_planned(sc, st, order, n), st),
    decreases n,
{
    if 0 < n <= order.len() {
        lemma_all_planned_pass(sc, st, order, n - 1);
        let before = all_planned(sc, st, order, n - 1);
        assert(order[n - 1] < sc.model.nets@.len());
        lemma_planned_pass(sc, before, order[n - 1] as int);
        lemma_goes_on_trans(st, before, all_planned(sc, st, order, n));
    }
}

proof fn lemma_annotated_keeps(sc: Scene<'_>, d: Drawing, pending: Seq<Annotation>, n: int)
    ensures
        keeps(annotated(sc, d, pending, n), d),
    decreases n,
{
    if 0 < n <= pending.len() {
        lemma_annotated_keeps(sc, d, pending, n - 1);
        let before = annotated(sc, d, pending, n - 1);
        let a = pending[n - 1];
        lemma_tree_label_keeps(sc, before, a.net, a.from as int, false, false);
        lemma_keeps_trans(d, before, annotated(sc, d, pending, n));
    }
}

/// The endpoints that are kept of the net are linked.
pub open spec fn net_done(sc: Scene<'_>, st: SignalState, sn: int) -> bool {
    match st.s.cache[sn] {
        Some(v) => forall|u: int|
            0 <= u < v.len() ==> linked(sc, st.d, sc.model.nets@[sn], (#[trigger] v[u]).pos),
        None => false,
    }
}

proof fn lemma_done_stays(sc: Scene<'_>, a: SignalState, b: SignalState, sn: int)
    requires
        goes_on(b, a),
        0 <= sn < a.s.cache.len(),
        net_done(sc, a, sn),
    ensures
        net_done(sc, b, sn),
{
    let net = sc.model.nets@[sn];
    assert(a.s.cache[sn] is Some);
    let v = a.s.cache[sn]->0;
    assert(b.s.cache[sn] == a.s.cache[sn]);
    assert forall|u: int| 0 <= u < v.len() implies linked(sc, b.d, net, (#[trigger] v[u]).pos) by {
        lemma_linked_stays(sc, a.d, b.d, net, v[u].pos);
    }
}

proof fn lemma_direct_paths(g: int, a: Endpoint, b: Endpoint)
    ensures
        all_join_pins(direct_paths(g, a, b), a.pos, b.pos),
{
    let fa = flip(a.pos);
    let fb = flip(b.pos);
    lemma_facing(g, a.pos, b.pos);
    lemma_facing(g, b.pos, a.pos);
    lemma_swap_pins(facing(g, b.pos, a.pos), b.pos, a.pos);
    lemma_facing(g, fa, fb);
    lemma_flip_paths(facing(g, fa, fb), a.pos, b.pos);
    lemma_facing(g, fb, fa);
    lemma_swap_pins(facing(g, fb, fa), fb, fa);
    lemma_flip_paths(facing(g, fb, fa), a.pos, b.pos);
}

proof fn lemma_first_direct_joins(
    sc: Scene<'_>,
    d: Drawing,
    net: Seq<char>,
    except: Seq<usize>,
    ps: Seq<Seq<Point>>,
    k: int,
    a: Point,
    b: Point,
)
    requires
        all_join_pins(ps, a, b),
    ensures
        first_direct(sc, d, net, except, ps, k) matches Some(p) ==> joins_pins(p, a, b),
    decreases ps.len() - k,
{
    if 0 <= k < ps.len() {
        assert(joins_pins(ps[k], a, b));
        lemma_first_direct_joins(sc, d, net, except, ps, k + 1, a, b);
    }
}

/// Once a net is wired or labelled, its endpoints are linked.
proof fn lemma_net_labelled_pass(sc: Scene<'_>, st: SignalState, sn: int)
    requires
        pass_ok(sc, st),
        0 <= sn < sc.model.nets@.len(),
    ensures
        pass_ok(sc, net_labelled(sc, st, sn)),
        goes_on(net_labelled(sc, st, sn), st),
        net_done(sc, net_labelled(sc, st, sn), sn),
{
    reveal(net_labelled);
    let net = sc.model.nets@[sn];
    let (st1, eps) = endpoints_for(sc, st, sn);
    let after = net_labelled(sc, st, sn);
    lemma_endpoints_represent(sc, st, sn);
    let reached = st1.s.reached[sn];
    let rest = left_over(eps, reached, eps.len() as int);
    lemma_left_ends(sc, net, eps, reached, eps.len() as int);
    let direct = direct_wire(sc, st1.d, net, eps);
    if eps.len() == 0 {
    } else if is_pair_net(*sc.cfg, *sc.design, sc.model.placed@, net) && direct is Some {
        let a = eps[0];
        let b = eps[1];
        let path = direct->0;
        let ps = direct_paths(sc.cfg.grid_mm as int, a, b);
        lemma_direct_paths(sc.cfg.grid_mm as int, a, b);
        lemma_first_direct_joins(
            sc,
            st1.d,
            net.name@,
            seq![a.placed, b.placed],
            ps,
            0,
            a.pos,
            b.pos,
        );
        assert(is_end(sc, net, a) && is_end(sc, net, b));
        lemma_pair_links(sc, st1.d, net, a, b, path);
        lemma_wired(st1.d, path, net.name);
        lemma_pass_stays(sc, st1, after.d);
        assert forall|u: int| 0 <= u < eps.len() implies linked(
            sc,
            after.d,
            net,
            (#[trigger] eps[u]).pos,
        ) by {
            assert(u == 0 || u == 1);
        }
    } else {
        if rest.len() > 0 {
            lemma_rest_links(sc, st1.d, net, rest);
            lemma_pass_stays(sc, st1, after.d);
        }
        assert(points_linked(sc, after.d, net, after.s.reached[sn]));
        assert forall|u: int| 0 <= u < eps.len() implies linked(
            sc,
            after.d,
            net,
            (#[trigger] eps[u]).pos,
        ) by {
            if seen(reached, eps[u].pos) {
                let i = choose|i: int|
                    0 <= i < reached.len() && #[trigger] reached[i] == eps[u].pos;
                assert(linked(sc, after.d, net, reached[i]));
            } else {
                lemma_left(eps, reached, eps.len() as int, u);
                let k = choose|k: int| 0 <= k < rest.len() && rest[k] == eps[u];
                assert(linked(sc, after.d, net, rest[k].pos));
            }
        }
    }
    lemma_goes_on_trans(st, st1, after);
}

proof fn lemma_all_net_labelled_pass(sc: Scene<'_>, st: SignalState, order: Seq<usize>, n: int)
    requires
        pass_ok(sc, st),
        all_signals(sc, order),
        0 <= n <= order.len(),
    ensures
        pass_ok(sc, all_net_labelled(sc, st, order, n)),
        goes_on(all_net_labelled(sc, st, order, n), st),
        forall|i: int|
            0 <= i < n ==> net_done(
                sc,
                all_net_labelled(sc, st, order, n),
                #[trigger] order[i] as int,
            ),
    decreases n,
{
    if n > 0 {
        lemma_all_net_labelled_pass(sc, st, order, n - 1);
        let before = all_net_labelled(sc, st, order, n - 1);
        let after = all_net_labelled(sc, st, order, n);
        assert(is_signal(sc, order[n - 1]));
        lemma_net_labelled_pass(sc, before, order[n - 1] as int);
        lemma_goes_on_trans(st, before, after);
        assert forall|i: int| 0 <= i < n implies net_done(sc, after, #[trigger] order[i] as int) by {
            if i < n - 1 {
                assert(is_signal(sc, order[i]));
                lemma_done_stays(sc, before, after, order[i] as int);
            }
        }
    }
}

proof fn lemma_tops_pass(sc: Scene<'_>, st: SignalState, order: Seq<usize>, n: int)
    requires
        pass_ok(sc, st),
        all_signals(sc, order),
    ensures
        pass_ok(sc, tops(sc, st, order, n).0),
        goes_on(tops(sc, st, order, n).0, st),
    decreases n,
{
    if 0 < n <= order.len() {
        lemma_tops_pass(sc, st, order, n - 1);
        let before = tops(sc, st, order, n - 1).0;
        assert(is_signal(sc, order[n - 1]));
        lemma_endpoints_represent(sc, before, order[n - 1] as int);
        lemma_goes_on_trans(st, before, tops(sc, st, order, n).0);
    }
}

/// A signal net is among those of its kind.
proof fn lemma_net_selected(sc: Scene<'_>, ported: bool, paired: bool, n: int, sn: usize) -> (i: int)
    requires
        sn < n <= sc.model.nets@.len(),
        is_signal(sc, sn),
        (sc.model.nets@[sn as int].port is Some) == ported,
        is_pair_net(*sc.cfg, *sc.design, sc.model.placed@, sc.model.nets@[sn as int]) == paired,
    ensures
        0 <= i < signal_nets(sc, ported, paired, n).len(),
        signal_nets(sc, ported, paired, n)[i] == sn,
    decreases n,
{
    assert(sc.model.nets.len() == sc.model.nets@.len());
    if sn < n - 1 {
        lemma_net_selected(sc, ported, paired, n - 1, sn)
    } else {
        signal_nets(sc, ported, paired, n).len() - 1
    }
}

/// Sorting keeps every net that joins facing pins.
proof fn lemma_pair_kept(sc: Scene<'_>, order: Seq<usize>, top: Seq<i64>, i: int) -> (k: int)
    requires
        0 <= i < order.len() <= usize::MAX,
    ensures
        0 <= k < pairs_sorted(sc, order, top).len(),
        pairs_sorted(sc, order, top)[k] == order[i],
{
    broadcast use vstd::seq_lib::group_to_multiset_ensures;

    reveal(pairs_sorted);
    let gt = |a: usize, b: usize| pair_after(sc, order, top, a, b);
    let all = upto(order.len() as int);
    let r = sorted_by(all, gt);
    law_sort_is_permutation(all, gt);
    assert(all[i] == i);
    assert(all.contains(i as usize));
    assert(all.to_multiset().count(i as usize) > 0);
    assert(r.contains(i as usize));
    choose|k: int| 0 <= k < r.len() && r[k] == i as usize
}

/// The signal pass loses nothing that was drawn, and adds no block.
pub proof fn lemma_signals_keep(sc: Scene<'_>, d: Drawing)
    ensures
        keeps(signals_routed(sc, d), d),
{
    let n = sc.model.nets@.len() as int;
    let fresh = SignalState { d, s: SignalsView::fresh(n) };
    assert(pass_ok(sc, fresh));
    lemma_orders(sc);
    lemma_lanes_pass(sc, fresh, n);
    let st0 = lanes_kept(sc, fresh, n);
    let lo = label_order(sc);
    let po = pair_order(sc);
    lemma_all_planned_pass(sc, st0, lo, lo.len() as int);
    let st1 = all_planned(sc, st0, lo, lo.len() as int);
    lemma_annotated_keeps(sc, st1.d, st1.s.pending, st1.s.pending.len() as int);
    let st2 = SignalState {
        d: annotated(sc, st1.d, st1.s.pending, st1.s.pending.len() as int),
        s: SignalsView { pending: Seq::empty(), ..st1.s },
    };
    lemma_pass_stays(sc, st1, st2.d);
    lemma_all_net_labelled_pass(sc, st2, lo, lo.len() as int);
    let st3 = all_net_labelled(sc, st2, lo, lo.len() as int);
    lemma_tops_pass(sc, st3, po, po.len() as int);
    let (st4, top) = tops(sc, st3, po, po.len() as int);
    lemma_pairs_sorted(sc, po, top);
    let ps = pairs_sorted(sc, po, top);
    lemma_all_net_labelled_pass(sc, st4, ps, ps.len() as int);
    let st5 = all_net_labelled(sc, st4, ps, ps.len() as int);
    lemma_keeps_trans(d, st0.d, st1.d);
    lemma_keeps_trans(d, st1.d, st2.d);
    lemma_keeps_trans(d, st2.d, st3.d);
    lemma_keeps_trans(d, st3.d, st4.d);
    lemma_keeps_trans(d, st4.d, st5.d);
}

/// Once the signal pass is over, every pin of a signal net is wired to its net, or has a stub with
/// the net's label, or stands in a stack of pins with one that does. A wire that ends in the middle
/// of a run, off every pin, has a junction there.
pub proof fn law_every_signal_pin_is_served(sc: Scene<'_>, d: Drawing, sn: usize, e: Endpoint)
    requires
        is_signal(sc, sn),
        is_end(sc, sc.model.nets@[sn as int], e),
    ensures
        served(sc, signals_routed(sc, d), sc.model.nets@[sn as int], e.pos),
{
    let n = sc.model.nets@.len() as int;
    let net = sc.model.nets@[sn as int];
    let fresh = SignalState { d, s: SignalsView::fresh(n) };
    assert(pass_ok(sc, fresh));
    lemma_orders(sc);
    lemma_lanes_pass(sc, fresh, n);
    let st0 = lanes_kept(sc, fresh, n);
    let lo = label_order(sc);
    let po = pair_order(sc);
    lemma_all_planned_pass(sc, st0, lo, lo.len() as int);
    let st1 = all_planned(sc, st0, lo, lo.len() as int);
    lemma_annotated_keeps(sc, st1.d, st1.s.pending, st1.s.pending.len() as int);
    let st2 = SignalState {
        d: annotated(sc, st1.d, st1.s.pending, st1.s.pending.len() as int),
        s: SignalsView { pending: Seq::empty(), ..st1.s },
    };
    lemma_pass_stays(sc, st1, st2.d);
    assert(pass_ok(sc, st2));
    lemma_all_net_labelled_pass(sc, st2, lo, lo.len() as int);
    let st3 = all_net_labelled(sc, st2, lo, lo.len() as int);
    lemma_tops_pass(sc, st3, po, po.len() as int);
    let (st4, top) = tops(sc, st3, po, po.len() as int);
    lemma_pairs_sorted(sc, po, top);
    let ps = pairs_sorted(sc, po, top);
    lemma_all_net_labelled_pass(sc, st4, ps, ps.len() as int);
    let st5 = all_net_labelled(sc, st4, ps, ps.len() as int);
    let ported = net.port is Some;
    let paired = is_pair_net(*sc.cfg, *sc.design, sc.model.placed@, net);
    let i = lemma_net_selected(sc, ported, paired, n, sn);
    if paired {
        let k = lemma_pair_kept(sc, po, top, i);
        assert(ps[k] == sn);
    } else {
        if ported {
            let at = signal_nets(sc, false, false, n).len() + i;
            assert(lo[at] == sn);
        } else {
            assert(lo[i] == sn);
        }
        lemma_done_stays(sc, st3, st4, sn as int);
        lemma_done_stays(sc, st4, st5, sn as int);
    }
    assert(net_done(sc, st5, sn as int));
    let v = st5.s.cache[sn as int]->0;
    assert(all_represented(sc, st5.d, net, v));
    let k = choose|k: int|
        0 <= k < endpoints_of(sc, net).len() && #[trigger] endpoints_of(sc, net)[k] == e;
    assert(represented(sc, st5.d, net, v, endpoints_of(sc, net)[k].pos));
    let u = choose|u: int|
        0 <= u < v.len() && ((#[trigger] v[u]).pos == e.pos || stacked(
            sc,
            st5.d,
            net,
            e.pos,
            v[u].pos,
        ));
    assert(linked(sc, st5.d, net, v[u].pos));
}

} // verus!
