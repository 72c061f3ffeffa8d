//! When a pin counts as linked to its net, and the trees that link pins.

use vstd::prelude::*;
use crate::canvas::{has_junction, Drawing, Endpoint, Scene};
use crate::contacts::{all_ends, is_end, is_stack_bus};
use crate::apart::lemma_best_wire;
use crate::grow::{
    all_below, ascending, best_seed, farther, group_tree, grown, joins_after, law_tree_only_adds,
    list_order, listed, listed_after, net_runs, next_join, others, pairs_before, pairs_below,
    pairs_of, rest_order, seed_pairs, tree_grown, Growth,
};
use crate::nets::{
    group_sets, hub_list, lemma_port_adds, placed_list, port_step, refdes_list, root_list,
    subset_wired, subsets_wired, GroupState,
};
use crate::order::{lemma_sorted_items, upto};
use crate::place::SheetNet;
use crate::power::{ends_at, needs_junction, passes_through, pin_at};
use crate::registry::legs;
use crate::signals::picked;
use crate::subsets::{clusters, off_hubs, root_order, rooted_at};
use crate::tree::{
    all_joins, best_wire, flip_joins, flip_span, join_after, join_choice, join_order, join_paths,
    joins_to, joins_to_pins, joins_to_runs, meet_level, meet_upright, pair_wires, seed_choice,
    JoinView,
};
use crate::treelabel::tree_labelled;
use crate::units::{spec_apart, Iu, Point};
use crate::wiring::{
    flip, flip_path, joins_pins, law_pair_paths_join, pair_paths, spec_on, spec_within, Seg, Span,
};

verus! {

// ---------------------------------------------------------------- pins and their wires

/// The runs of the path are registered for the net from place `p` on.
pub open spec fn runs_at(segs: Seq<Seg>, path: Seq<Point>, net: Seq<char>, p: int) -> bool {
    let runs = legs(path, path.len() - 1);
    &&& 0 <= p
    &&& p + runs.len() <= segs.len()
    &&& forall|j: int|
        p <= j < p + runs.len() ==> (#[trigger] segs[j]).net@ == net && segs[j].span == runs[j - p]
}

/// Wire `i` of the sheet is drawn for the net, and its runs are registered from place `p` on.
pub open spec fn drawn_for(d: Drawing, net: Seq<char>, i: int, p: int) -> bool {
    0 <= i < d.wires.len() && runs_at(d.reg.segs, d.wires[i], net, p)
}

/// The point lies on the run.
pub open spec fn on_run(at: Point, s: Span) -> bool {
    spec_within(at.x as int, s.x1 as int, s.x2 as int) && spec_within(
        at.y as int,
        s.y1 as int,
        s.y2 as int,
    )
}

/// The point is a pin of the net, or lies on a run of the net that was there before place `p` and
/// is joined to it.
pub open spec fn arrives(sc: Scene<'_>, d: Drawing, net: SheetNet, p: int, at: Point) -> bool {
    ||| exists|e: Endpoint| #[trigger] is_end(sc, net, e) && e.pos == at
    ||| exists|j: int|
        0 <= j < p && j < d.reg.segs.len() && (#[trigger] d.reg.segs[j]).net@ == net.name@ && on_run(
            at,
            d.reg.segs[j].span,
        ) && bonded(d, net.name@, at, d.reg.segs[j])
}

/// A wire that ends at the point is joined to the run: by a junction, at a pin of the net, or
/// because the run ends there too.
pub open spec fn bonded(d: Drawing, net: Seq<char>, at: Point, s: Seg) -> bool {
    spec_on(at.x as int, at.y as int, s.span) ==> has_junction(d.junctions, at) || pin_at(
        d.reg.pins,
        at,
        net,
    ) || ends_at(s, at)
}

/// The wire leads from the point to a pin or a run of the net.
pub open spec fn leads(
    sc: Scene<'_>,
    d: Drawing,
    net: SheetNet,
    w: Seq<Point>,
    p: int,
    at: Point,
) -> bool {
    w.len() >= 2 && ((w[0] == at && arrives(sc, d, net, p, w.last())) || (w.last() == at && arrives(
        sc,
        d,
        net,
        p,
        w[0],
    )))
}

/// A wire of the net leads from the point to another place of the net.
pub open spec fn wired_to_net(sc: Scene<'_>, d: Drawing, net: SheetNet, at: Point) -> bool {
    exists|i: int, p: int| #[trigger]
        drawn_for(d, net.name@, i, p) && leads(sc, d, net, d.wires[i], p, at)
}

/// A label of the net stands at the point.
pub open spec fn label_stands(d: Drawing, net: Seq<char>, at: Point) -> bool {
    ||| exists|i: int|
        0 <= i < d.net_labels.len() && (#[trigger] d.net_labels[i]).net@ == net
            && d.net_labels[i].at == at
    ||| exists|i: int|
        0 <= i < d.global_labels.len() && (#[trigger] d.global_labels[i]).net@ == net
            && d.global_labels[i].at == at
    ||| exists|i: int|
        0 <= i < d.hier_labels.len() && (#[trigger] d.hier_labels[i]).net@ == net
            && d.hier_labels[i].at == at
}

/// A wire of the net runs from one point to the other.
pub open spec fn stub_runs(d: Drawing, net: Seq<char>, from: Point, to: Point) -> bool {
    exists|i: int, p: int| #[trigger]
        drawn_for(d, net, i, p) && d.wires[i].len() >= 2 && d.wires[i][0] == from
            && d.wires[i].last() == to
}

/// A label of the net stands at the end of a stub off the point; a stub of no length is no wire.
pub open spec fn labelled_off(d: Drawing, net: Seq<char>, at: Point) -> bool {
    exists|end: Point| #[trigger]
        label_stands(d, net, end) && (stub_runs(d, net, at, end) || !spec_apart(at, end))
}

/// The pin at the point is wired to its net, or has a stub with the net's label.
pub open spec fn linked(sc: Scene<'_>, d: Drawing, net: SheetNet, at: Point) -> bool {
    wired_to_net(sc, d, net, at) || labelled_off(d, net.name@, at)
}

/// A bus of the net joins a stack of pins, the ones at the two points among them.
pub open spec fn stacked(sc: Scene<'_>, d: Drawing, net: SheetNet, a: Point, b: Point) -> bool {
    exists|i: int, p: int| #[trigger]
        drawn_for(d, net.name@, i, p) && is_stack_bus(sc, net, d.wires[i]) && d.wires[i].contains(a)
            && d.wires[i].contains(b)
}

/// The pin at the point is linked, or stands in a stack with one that is.
pub open spec fn served(sc: Scene<'_>, d: Drawing, net: SheetNet, at: Point) -> bool {
    linked(sc, d, net, at) || exists|b: Point| #[trigger]
        stacked(sc, d, net, at, b) && linked(sc, d, net, b)
}

// ---------------------------------------------------------------- what is drawn stays drawn

/// Nothing drawn is lost.
pub open spec fn keeps(after: Drawing, before: Drawing) -> bool {
    &&& before.wires.is_prefix_of(after.wires)
    &&& before.reg.segs.is_prefix_of(after.reg.segs)
    &&& before.net_labels.is_prefix_of(after.net_labels)
    &&& before.global_labels.is_prefix_of(after.global_labels)
    &&& before.hier_labels.is_prefix_of(after.hier_labels)
    &&& before.junctions.is_prefix_of(after.junctions)
    &&& after.reg.pins == before.reg.pins
    &&& after.blocks == before.blocks
    &&& ports_noted(before) ==> ports_noted(after)
}

/// The anchored ports are those with a hierarchical label, in order.
pub open spec fn ports_noted(d: Drawing) -> bool {
    &&& d.anchored.len() == d.hier_labels.len()
    &&& forall|i: int|
        0 <= i < d.anchored.len() ==> (#[trigger] d.anchored[i])@ == d.hier_labels[i].net@
}

pub proof fn lemma_keeps_trans(a: Drawing, b: Drawing, c: Drawing)
    requires
        keeps(b, a),
        keeps(c, b),
    ensures
        keeps(c, a),
{
}

pub proof fn lemma_drawn_stays(a: Drawing, b: Drawing, net: Seq<char>, i: int, p: int)
    requires
        keeps(b, a),
        drawn_for(a, net, i, p),
    ensures
        drawn_for(b, net, i, p),
        b.wires[i] == a.wires[i],
{
    assert(b.wires[i] == a.wires[i]);
    let w = a.wires[i];
    let runs = legs(w, w.len() - 1);
    assert forall|j: int| p <= j < p + runs.len() implies (#[trigger] b.reg.segs[j]).net@ == net
        && b.reg.segs[j].span == runs[j - p] by {
        assert(b.reg.segs[j] == a.reg.segs[j]);
    }
}

proof fn lemma_arrives_stays(sc: Scene<'_>, a: Drawing, b: Drawing, net: SheetNet, p: int, at: Point)
    requires
        keeps(b, a),
        arrives(sc, a, net, p, at),
    ensures
        arrives(sc, b, net, p, at),
{
    if !(exists|e: Endpoint| #[trigger] is_end(sc, net, e) && e.pos == at) {
        let j = choose|j: int|
            0 <= j < p && j < a.reg.segs.len() && (#[trigger] a.reg.segs[j]).net@ == net.name@
                && on_run(at, a.reg.segs[j].span) && bonded(a, net.name@, at, a.reg.segs[j]);
        assert(b.reg.segs[j] == a.reg.segs[j]);
        if has_junction(a.junctions, at) {
            let k = choose|k: int| 0 <= k < a.junctions.len() && #[trigger] a.junctions[k] == at;
            assert(b.junctions[k] == at);
        }
    }
}

proof fn lemma_label_stays(a: Drawing, b: Drawing, net: Seq<char>, at: Point)
    requires
        keeps(b, a),
        label_stands(a, net, at),
    ensures
        label_stands(b, net, at),
{
    if exists|i: int|
        0 <= i < a.net_labels.len() && (#[trigger] a.net_labels[i]).net@ == net
            && a.net_labels[i].at == at {
        let i = choose|i: int|
            0 <= i < a.net_labels.len() && (#[trigger] a.net_labels[i]).net@ == net
                && a.net_labels[i].at == at;
        assert(b.net_labels[i] == a.net_labels[i]);
    } else if exists|i: int|
        0 <= i < a.global_labels.len() && (#[trigger] a.global_labels[i]).net@ == net
            && a.global_labels[i].at == at {
        let i = choose|i: int|
            0 <= i < a.global_labels.len() && (#[trigger] a.global_labels[i]).net@ == net
                && a.global_labels[i].at == at;
        assert(b.global_labels[i] == a.global_labels[i]);
    } else {
        let i = choose|i: int|
            0 <= i < a.hier_labels.len() && (#[trigger] a.hier_labels[i]).net@ == net
                && a.hier_labels[i].at == at;
        assert(b.hier_labels[i] == a.hier_labels[i]);
    }
}

/// A pin that is linked stays so while the sheet grows.
pub proof fn lemma_linked_stays(sc: Scene<'_>, a: Drawing, b: Drawing, net: SheetNet, at: Point)
    requires
        keeps(b, a),
        linked(sc, a, net, at),
    ensures
        linked(sc, b, net, at),
{
    if wired_to_net(sc, a, net, at) {
        let (i, p) = choose|i: int, p: int| #[trigger]
            drawn_for(a, net.name@, i, p) && leads(sc, a, net, a.wires[i], p, at);
        lemma_drawn_stays(a, b, net.name@, i, p);
        let w = a.wires[i];
        if w[0] == at && arrives(sc, a, net, p, w.last()) {
            lemma_arrives_stays(sc, a, b, net, p, w.last());
        } else {
            lemma_arrives_stays(sc, a, b, net, p, w[0]);
        }
        assert(leads(sc, b, net, b.wires[i], p, at));
    } else {
        let end = choose|end: Point| #[trigger]
            label_stands(a, net.name@, end) && (stub_runs(a, net.name@, at, end) || !spec_apart(
                at,
                end,
            ));
        lemma_label_stays(a, b, net.name@, end);
        if stub_runs(a, net.name@, at, end) {
            let (i, p) = choose|i: int, p: int| #[trigger]
                drawn_for(a, net.name@, i, p) && a.wires[i].len() >= 2 && a.wires[i][0] == at
                    && a.wires[i].last() == end;
            lemma_drawn_stays(a, b, net.name@, i, p);
            assert(stub_runs(b, net.name@, at, end));
        }
    }
}

pub proof fn lemma_stacked_stays(sc: Scene<'_>, a: Drawing, b: Drawing, net: SheetNet, u: Point, v: Point)
    requires
        keeps(b, a),
        stacked(sc, a, net, u, v),
    ensures
        stacked(sc, b, net, u, v),
{
    let (i, p) = choose|i: int, p: int| #[trigger]
        drawn_for(a, net.name@, i, p) && is_stack_bus(sc, net, a.wires[i]) && a.wires[i].contains(u)
            && a.wires[i].contains(v);
    lemma_drawn_stays(a, b, net.name@, i, p);
}

/// A path that is wired is drawn for its net.
pub proof fn lemma_wired(d: Drawing, path: Seq<Point>, net: String)
    ensures
        drawn_for(d.wired(path, net), net@, d.wires.len() as int, d.reg.segs.len() as int),
        d.wired(path, net).wires[d.wires.len() as int] == path,
        keeps(d.wired(path, net), d),
        keeps(d.registered(path, net), d),
{
}

// ---------------------------------------------------------------- trees

/// The join leads from the pin to one of the runs, or to the pin of one of the wired endpoints.
pub open spec fn join_leads(
    e: Endpoint,
    runs: Seq<Span>,
    list: Seq<Endpoint>,
    wired: Seq<usize>,
    j: JoinView,
) -> bool {
    j.at == j.path.last() && path_leads(e, runs, list, wired, j.path)
}

/// The path leads from the pin to one of the runs, or to the pin of one of the wired endpoints.
pub open spec fn path_leads(
    e: Endpoint,
    runs: Seq<Span>,
    list: Seq<Endpoint>,
    wired: Seq<usize>,
    path: Seq<Point>,
) -> bool {
    ||| path.len() >= 2 && path[0] == e.pos && exists|r: int|
        0 <= r < runs.len() && on_run(path.last(), #[trigger] runs[r])
    ||| exists|u: int|
        0 <= u < wired.len() && joins_pins(path, e.pos, list[#[trigger] wired[u] as int].pos)
}

/// The join starts at the point and ends on the run.
pub open spec fn meets(j: JoinView, at: Point, s: Span) -> bool {
    j.path.len() >= 2 && j.path[0] == at && on_run(j.path.last(), s) && j.at == j.path.last()
}

pub open spec fn all_meet(js: Seq<JoinView>, at: Point, s: Span) -> bool {
    forall|i: int| 0 <= i < js.len() ==> meets(#[trigger] js[i], at, s)
}

proof fn lemma_meet_upright(p: Point, d: Iu, s: Span, n: int)
    ensures
        all_meet(meet_upright(p, d, s, n), p, s),
    decreases n,
{
    if n > 0 {
        lemma_meet_upright(p, d, s, n - 1);
    }
}

/// A run that meets a turned one meets the run once it is turned back.
proof fn lemma_flip_meet(js: Seq<JoinView>, at: Point, s: Span)
    requires
        all_meet(js, flip(at), flip_span(s)),
    ensures
        all_meet(flip_joins(js), at, s),
{
    let fs = flip_joins(js);
    assert forall|i: int| 0 <= i < fs.len() implies meets(#[trigger] fs[i], at, s) by {
        assert(meets(js[i], flip(at), flip_span(s)));
        let p = js[i].path;
        assert(fs[i].path == flip_path(p));
        assert(fs[i].path.last() == flip(p.last()));
    }
}

proof fn lemma_meet_level(p: Point, d: Iu, s: Span)
    ensures
        all_meet(meet_level(p, d, s), p, Span { y2: s.y1, ..s }),
{
}

proof fn lemma_joins_to(e: Endpoint, s: Span)
    ensures
        all_meet(joins_to(e, s), e.pos, s),
{
    let a = meet_level(e.pos, e.dir.y, s);
    let b0 = meet_level(flip(e.pos), e.dir.x, flip_span(s));
    let c = meet_upright(e.pos, e.dir.y, s, 4);
    let e0 = meet_upright(flip(e.pos), e.dir.x, flip_span(s), 4);
    let f = flip_span(s);
    lemma_meet_level(e.pos, e.dir.y, s);
    lemma_meet_level(flip(e.pos), e.dir.x, f);
    lemma_meet_upright(e.pos, e.dir.y, s, 4);
    lemma_meet_upright(flip(e.pos), e.dir.x, f, 4);
    assert forall|i: int| 0 <= i < a.len() implies meets(#[trigger] a[i], e.pos, s) by {
        assert(meets(a[i], e.pos, Span { y2: s.y1, ..s }));
    }
    assert forall|i: int| 0 <= i < b0.len() implies meets(#[trigger] b0[i], flip(e.pos), f) by {
        assert(meets(b0[i], flip(e.pos), Span { y2: f.y1, ..f }));
    }
    lemma_flip_meet(b0, e.pos, s);
    lemma_flip_meet(e0, e.pos, s);
}

proof fn lemma_all_joins(
    sc: Scene<'_>,
    e: Endpoint,
    runs: Seq<Span>,
    list: Seq<Endpoint>,
    wired: Seq<usize>,
)
    ensures
        forall|i: int|
            0 <= i < all_joins(sc, e, runs, list, wired).len() ==> join_leads(
                e,
                runs,
                list,
                wired,
                #[trigger] all_joins(sc, e, runs, list, wired)[i],
            ),
{
    lemma_joins_to_runs(e, runs, list, wired, runs.len() as int);
    lemma_joins_to_pins(sc, e, runs, list, wired, wired.len() as int);
}

proof fn lemma_joins_to_runs(
    e: Endpoint,
    runs: Seq<Span>,
    list: Seq<Endpoint>,
    wired: Seq<usize>,
    n: int,
)
    ensures
        forall|i: int|
            0 <= i < joins_to_runs(e, runs, n).len() ==> join_leads(
                e,
                runs,
                list,
                wired,
                #[trigger] joins_to_runs(e, runs, n)[i],
            ),
    decreases n,
{
    if 0 < n <= runs.len() {
        lemma_joins_to_runs(e, runs, list, wired, n - 1);
        lemma_joins_to(e, runs[n - 1]);
        let before = joins_to_runs(e, runs, n - 1);
        let more = joins_to(e, runs[n - 1]);
        let all = joins_to_runs(e, runs, n);
        assert forall|i: int| 0 <= i < all.len() implies join_leads(
            e,
            runs,
            list,
            wired,
            #[trigger] all[i],
        ) by {
            if i < before.len() {
                assert(all[i] == before[i]);
            } else {
                assert(all[i] == more[i - before.len()]);
                assert(meets(more[i - before.len()], e.pos, runs[n - 1]));
            }
        }
    }
}

proof fn lemma_joins_to_pins(
    sc: Scene<'_>,
    e: Endpoint,
    runs: Seq<Span>,
    list: Seq<Endpoint>,
    wired: Seq<usize>,
    n: int,
)
    ensures
        forall|i: int|
            0 <= i < joins_to_pins(sc, e, list, wired, n).len() ==> join_leads(
                e,
                runs,
                list,
                wired,
                #[trigger] joins_to_pins(sc, e, list, wired, n)[i],
            ),
    decreases n,
{
    if 0 < n <= wired.len() {
        lemma_joins_to_pins(sc, e, runs, list, wired, n - 1);
        let w = list[wired[n - 1] as int];
        let g = sc.cfg.grid_mm as int;
        law_pair_paths_join(g, (e.pos, e.dir), (w.pos, w.dir));
        let ps = pair_paths(g, (e.pos, e.dir), (w.pos, w.dir));
        let before = joins_to_pins(sc, e, list, wired, n - 1);
        let all = joins_to_pins(sc, e, list, wired, n);
        assert forall|i: int| 0 <= i < all.len() implies join_leads(
            e,
            runs,
            list,
            wired,
            #[trigger] all[i],
        ) by {
            if i < before.len() {
                assert(all[i] == before[i]);
            } else {
                assert(all[i].path == ps[i - before.len()]);
                assert(joins_pins(ps[i - before.len()], e.pos, w.pos));
            }
        }
    }
}

/// Is there such a run of the net?
pub open spec fn has_run(segs: Seq<Seg>, net: Seq<char>, s: Span) -> bool {
    exists|j: int| 0 <= j < segs.len() && (#[trigger] segs[j]).net@ == net && segs[j].span == s
}

proof fn lemma_net_runs(segs: Seq<Seg>, net: Seq<char>, from: int, n: int)
    ensures
        forall|r: int|
            0 <= r < net_runs(segs, net, from, n).len() ==> has_run(
                segs,
                net,
                #[trigger] net_runs(segs, net, from, n)[r],
            ),
    decreases n,
{
    if from < n && 0 < n <= segs.len() {
        lemma_net_runs(segs, net, from, n - 1);
        let before = net_runs(segs, net, from, n - 1);
        let all = net_runs(segs, net, from, n);
        assert forall|r: int| 0 <= r < all.len() implies has_run(segs, net, #[trigger] all[r]) by {
            if r < before.len() {
                assert(all[r] == before[r]);
            } else {
                assert(segs[n - 1].span == all[r]);
            }
        }
    }
}

/// Drawing a join that leads to the net links its pin.
pub proof fn lemma_join_links(
    sc: Scene<'_>,
    d: Drawing,
    net: SheetNet,
    e: Endpoint,
    runs: Seq<Span>,
    list: Seq<Endpoint>,
    wired: Seq<usize>,
    join: JoinView,
    from: int,
)
    requires
        runs == net_runs(d.reg.segs, net.name@, from, d.reg.segs.len() as int),
        join_leads(e, runs, list, wired, join),
        all_ends(sc, net, list),
        all_below(wired, list.len() as int),
    ensures
        wired_to_net(sc, d.with_join(join, net.name), net, e.pos),
        keeps(d.with_join(join, net.name), d),
{
    let path = join.path;
    let w = d.wired(path, net.name);
    let b = d.with_join(join, net.name);
    let i = d.wires.len() as int;
    let p = d.reg.segs.len() as int;
    lemma_wired(d, path, net.name);
    assert(keeps(b, w));
    lemma_keeps_trans(d, w, b);
    lemma_drawn_stays(w, b, net.name@, i, p);
    if path.len() >= 2 && path[0] == e.pos && exists|r: int|
        0 <= r < runs.len() && on_run(path.last(), #[trigger] runs[r]) {
        let r = choose|r: int| 0 <= r < runs.len() && on_run(path.last(), #[trigger] runs[r]);
        lemma_net_runs(d.reg.segs, net.name@, from, p);
        assert(has_run(d.reg.segs, net.name@, runs[r]));
        let j = choose|j: int|
            0 <= j < d.reg.segs.len() && (#[trigger] d.reg.segs[j]).net@ == net.name@
                && d.reg.segs[j].span == runs[r];
        assert(b.reg.segs[j] == d.reg.segs[j]);
        lemma_join_bonds(d, join, net.name, j);
        assert(arrives(sc, b, net, p, path.last()));
    } else {
        let u = choose|u: int|
            0 <= u < wired.len() && joins_pins(path, e.pos, list[#[trigger] wired[u] as int].pos);
        let w = list[wired[u] as int];
        assert(is_end(sc, net, w));
        assert(arrives(sc, b, net, p, w.pos));
    }
    assert(leads(sc, b, net, b.wires[i], p, e.pos));
}

/// A join is bonded to every run of the net that it ends on.
proof fn lemma_join_bonds(d: Drawing, join: JoinView, net: String, j: int)
    requires
        0 <= j < d.reg.segs.len(),
        d.reg.segs[j].net@ == net@,
    ensures
        bonded(d.with_join(join, net), net@, join.at, d.reg.segs[j]),
{
    reveal(needs_junction);
    let w = d.wired(join.path, net);
    let b = d.with_join(join, net);
    if needs_junction(d.reg, join.at, net@) {
        if !has_junction(w.junctions, join.at) {
            assert(b.junctions[w.junctions.len() as int] == join.at);
        }
    } else if !pin_at(d.reg.pins, join.at, net@) {
        assert(!passes_through(d.reg.segs, join.at, net@));
    }
}

/// Drawing a wire between two pins of the net links both.
pub proof fn lemma_pair_links(
    sc: Scene<'_>,
    d: Drawing,
    net: SheetNet,
    a: Endpoint,
    c: Endpoint,
    path: Seq<Point>,
)
    requires
        is_end(sc, net, a),
        is_end(sc, net, c),
        joins_pins(path, a.pos, c.pos),
    ensures
        wired_to_net(sc, d.wired(path, net.name), net, a.pos),
        wired_to_net(sc, d.wired(path, net.name), net, c.pos),
{
    let b = d.wired(path, net.name);
    let i = d.wires.len() as int;
    let p = d.reg.segs.len() as int;
    lemma_wired(d, path, net.name);
    assert(arrives(sc, b, net, p, a.pos));
    assert(arrives(sc, b, net, p, c.pos));
    assert(leads(sc, b, net, b.wires[i], p, a.pos));
    assert(leads(sc, b, net, b.wires[i], p, c.pos));
}

/// The wired endpoints of the list are linked.
pub open spec fn tree_linked(
    sc: Scene<'_>,
    d: Drawing,
    net: SheetNet,
    list: Seq<Endpoint>,
    wired: Seq<usize>,
) -> bool {
    all_below(wired, list.len() as int) && forall|u: int|
        0 <= u < wired.len() ==> linked(sc, d, net, list[#[trigger] wired[u] as int].pos)
}

proof fn lemma_tree_linked_stays(
    sc: Scene<'_>,
    a: Drawing,
    b: Drawing,
    net: SheetNet,
    list: Seq<Endpoint>,
    wired: Seq<usize>,
)
    requires
        keeps(b, a),
        tree_linked(sc, a, net, list, wired),
    ensures
        tree_linked(sc, b, net, list, wired),
{
    assert forall|u: int| 0 <= u < wired.len() implies linked(
        sc,
        b,
        net,
        list[#[trigger] wired[u] as int].pos,
    ) by {
        lemma_linked_stays(sc, a, b, net, list[wired[u] as int].pos);
    }
}

proof fn lemma_join_order(js: Seq<JoinView>, i: int)
    requires
        0 <= i < join_order(js).len(),
    ensures
        join_order(js)[i] < js.len(),
{
    lemma_sorted_items(
        upto(js.len() as int),
        |a: usize, b: usize| join_after(js, a, b),
        |i: usize| i < js.len(),
    );
}

/// The join that is chosen leads to the tree.
pub proof fn lemma_join_choice(
    sc: Scene<'_>,
    d: Drawing,
    e: Endpoint,
    runs: Seq<Span>,
    list: Seq<Endpoint>,
    wired: Seq<usize>,
    net: Seq<char>,
    analog: bool,
)
    ensures
        join_choice(sc, d, all_joins(sc, e, runs, list, wired), net, analog) matches Some(j)
            ==> join_leads(e, runs, list, wired, j),
{
    let js = all_joins(sc, e, runs, list, wired);
    let ps = join_paths(js);
    lemma_all_joins(sc, e, runs, list, wired);
    lemma_best_wire(sc, d, ps, net, analog, ps.len() as int);
    match best_wire(sc, d, ps, net, analog, ps.len() as int) {
        Some(i) => {
            lemma_join_order(js, i);
            assert(join_leads(e, runs, list, wired, js[join_order(js)[i] as int]));
        },
        None => {},
    }
}

proof fn lemma_next_leads(
    sc: Scene<'_>,
    d: Drawing,
    list: Seq<Endpoint>,
    wired: Seq<usize>,
    order: Seq<usize>,
    from: int,
    net: Seq<char>,
    analog: bool,
    k: int,
)
    requires
        0 <= k,
    ensures
        next_join(sc, d, list, wired, order, from, net, analog, k) matches Some((i, j)) ==> 0 <= i
            < order.len() && join_leads(
            list[order[i] as int],
            net_runs(d.reg.segs, net, from, d.reg.segs.len() as int),
            list,
            wired,
            j,
        ),
    decreases order.len() - k,
{
    if k < order.len() {
        let runs = net_runs(d.reg.segs, net, from, d.reg.segs.len() as int);
        lemma_join_choice(sc, d, list[order[k] as int], runs, list, wired, net, analog);
        lemma_next_leads(sc, d, list, wired, order, from, net, analog, k + 1);
    }
}

proof fn lemma_rest_order(sc: Scene<'_>, list: Seq<Endpoint>, wired: Seq<usize>, rest: Seq<usize>)
    requires
        all_below(rest, list.len() as int),
    ensures
        all_below(rest_order(sc, list, wired, rest), list.len() as int),
{
    lemma_sorted_items(
        rest,
        |a: usize, b: usize| joins_after(sc, list, wired, a, b),
        |i: usize| i < list.len(),
    );
}

proof fn lemma_grown_links(
    sc: Scene<'_>,
    g: Growth,
    list: Seq<Endpoint>,
    from: int,
    net: SheetNet,
    analog: bool,
    fuel: nat,
)
    requires
        all_ends(sc, net, list),
        tree_linked(sc, g.d, net, list, g.wired),
        all_below(g.rest, list.len() as int),
    ensures
        ({
            let r = grown(sc, g, list, from, net.name, analog, fuel);
            tree_linked(sc, r.d, net, list, r.wired) && keeps(r.d, g.d)
        }),
    decreases fuel,
{
    if fuel > 0 && g.rest.len() > 0 {
        let order = rest_order(sc, list, g.wired, g.rest);
        lemma_rest_order(sc, list, g.wired, g.rest);
        lemma_next_leads(sc, g.d, list, g.wired, order, from, net.name@, analog, 0);
        match next_join(sc, g.d, list, g.wired, order, from, net.name@, analog, 0) {
            Some((k, j)) => {
                let e = list[order[k] as int];
                let runs = net_runs(g.d.reg.segs, net.name@, from, g.d.reg.segs.len() as int);
                lemma_join_links(sc, g.d, net, e, runs, list, g.wired, j, from);
                let next = Growth {
                    d: g.d.with_join(j, net.name),
                    wired: g.wired.push(order[k]),
                    rest: order.remove(k),
                };
                lemma_tree_linked_stays(sc, g.d, next.d, net, list, g.wired);
                assert forall|u: int| 0 <= u < next.wired.len() implies linked(
                    sc,
                    next.d,
                    net,
                    list[#[trigger] next.wired[u] as int].pos,
                ) by {
                    if u < g.wired.len() {
                        assert(next.wired[u] == g.wired[u]);
                    }
                }
                lemma_grown_links(sc, next, list, from, net, analog, (fuel - 1) as nat);
                let r = grown(sc, next, list, from, net.name, analog, (fuel - 1) as nat);
                lemma_keeps_trans(g.d, next.d, r.d);
            },
            None => {},
        }
    }
}

proof fn lemma_others(n: int, listed: Seq<usize>, top: int)
    requires
        n <= top,
    ensures
        all_below(others(n, listed), top),
    decreases n,
{
    if n > 0 {
        lemma_others(n - 1, listed, top);
    }
}

proof fn lemma_seed_joins(
    sc: Scene<'_>,
    d: Drawing,
    list: Seq<Endpoint>,
    pairs: Seq<(usize, usize)>,
    net: Seq<char>,
    analog: bool,
    k: int,
)
    requires
        0 <= k,
    ensures
        seed_choice(sc, d, list, pairs, net, analog, k) matches Some((i, path)) ==> 0 <= i
            < pairs.len() && joins_pins(
            path,
            list[pairs[i].0 as int].pos,
            list[pairs[i].1 as int].pos,
        ),
    decreases pairs.len() - k,
{
    if k < pairs.len() {
        let a = list[pairs[k].0 as int];
        let b = list[pairs[k].1 as int];
        let ps = pair_wires(sc, list, pairs[k].0, pairs[k].1);
        law_pair_paths_join(sc.cfg.grid_mm as int, (a.pos, a.dir), (b.pos, b.dir));
        lemma_best_wire(sc, d, ps, net, analog, ps.len() as int);
        match best_wire(sc, d, ps, net, analog, ps.len() as int) {
            Some(i) => {
                assert(joins_pins(ps[i], a.pos, b.pos));
            },
            None => {},
        }
        lemma_seed_joins(sc, d, list, pairs, net, analog, k + 1);
    }
}

/// A tree links every endpoint that it reaches.
pub proof fn law_tree_links_what_it_reaches(
    sc: Scene<'_>,
    d: Drawing,
    list: Seq<Endpoint>,
    pairs: Seq<(usize, usize)>,
    net: SheetNet,
    analog: bool,
)
    requires
        all_ends(sc, net, list),
        pairs_below(pairs, list.len() as int),
    ensures
        ({
            let t = tree_grown(sc, d, list, pairs, net.name, analog);
            tree_linked(sc, t.0, net, list, t.1) && keeps(t.0, d)
        }),
{
    reveal(tree_grown);
    law_tree_only_adds(sc, d, list, pairs, net.name, analog);
    lemma_seed_joins(sc, d, list, pairs, net.name@, analog, 0);
    match seed_choice(sc, d, list, pairs, net.name@, analog, 0) {
        None => {},
        Some((k, path)) => {
            let a = list[pairs[k].0 as int];
            let b = list[pairs[k].1 as int];
            let wired = seq![pairs[k].0, pairs[k].1];
            let rest = others(list.len() as int, wired);
            let w = d.wired(path, net.name);
            let g0 = Growth { d: w, wired, rest };
            assert(pairs[k].0 < list.len() && pairs[k].1 < list.len());
            lemma_pair_links(sc, d, net, a, b, path);
            lemma_others(list.len() as int, wired, list.len() as int);
            assert(tree_linked(sc, w, net, list, wired));
            let from = d.reg.segs.len() as int;
            lemma_grown_links(sc, g0, list, from, net, analog, rest.len());
            let g = grown(sc, g0, list, from, net.name, analog, rest.len());
            let good = |i: usize| i < list.len() && linked(sc, g.d, net, list[i as int].pos);
            lemma_sorted_items(g.wired, |a: usize, b: usize| a > b, good);
            let r = ascending(g.wired);
            lemma_keeps_trans(d, w, g.d);
            assert forall|u: int| 0 <= u < r.len() implies #[trigger] r[u] < list.len() by {
                assert(good(r[u]));
            }
            assert forall|u: int| 0 <= u < r.len() implies linked(
                sc,
                g.d,
                net,
                list[#[trigger] r[u] as int].pos,
            ) by {
                assert(good(r[u]));
            }
        },
    }
}

// ---------------------------------------------------------------- the trees of a net

proof fn lemma_pairs_of(i: int, n: int, top: int)
    requires
        0 <= i < top,
        n <= top,
    ensures
        pairs_below(pairs_of(i, n), top),
    decreases n - i,
{
    if n > i + 1 {
        lemma_pairs_of(i, n - 1, top);
    }
}

proof fn lemma_pairs_before(i: int, n: int)
    requires
        i <= n,
    ensures
        pairs_below(pairs_before(i, n), n),
    decreases i,
{
    if i > 0 {
        lemma_pairs_before(i - 1, n);
        lemma_pairs_of(i - 1, n, n);
    }
}

proof fn lemma_seed_pairs(list: Seq<Endpoint>)
    ensures
        pairs_below(seed_pairs(list), list.len() as int),
{
    let n = list.len() as int;
    lemma_pairs_before(n, n);
    let good = |p: (usize, usize)| p.0 < n && p.1 < n;
    lemma_sorted_items(
        pairs_before(n, n),
        |p: (usize, usize), q: (usize, usize)| farther(list, p, q),
        good,
    );
    let r = seed_pairs(list);
    assert forall|i: int| 0 <= i < r.len() implies (#[trigger] r[i]).0 < n && r[i].1 < n by {
        assert(good(r[i]));
    }
}

proof fn lemma_best_seed(
    sc: Scene<'_>,
    d: Drawing,
    list: Seq<Endpoint>,
    pairs: Seq<(usize, usize)>,
    net: String,
    n: int,
)
    ensures
        best_seed(sc, d, list, pairs, net, n) matches Some(b) ==> 0 <= b < pairs.len(),
    decreases n,
{
    if 0 < n <= pairs.len() {
        lemma_best_seed(sc, d, list, pairs, net, n - 1);
    }
}

proof fn lemma_listed(sc: Scene<'_>, net: SheetNet, sub: Seq<Endpoint>)
    requires
        all_ends(sc, net, sub),
    ensures
        all_ends(sc, net, listed(sc, sub)),
{
    let good = |i: usize| i < sub.len();
    lemma_sorted_items(
        upto(sub.len() as int),
        |a: usize, b: usize| listed_after(sc, sub[a as int], sub[b as int]),
        good,
    );
    let r = listed(sc, sub);
    assert forall|i: int| 0 <= i < r.len() implies is_end(sc, net, #[trigger] r[i]) by {
        assert(good(list_order(sc, sub)[i]));
        assert(is_end(sc, net, sub[list_order(sc, sub)[i] as int]));
    }
}

proof fn lemma_group_tree_links(
    sc: Scene<'_>,
    d: Drawing,
    sub: Seq<Endpoint>,
    net: SheetNet,
    analog: bool,
)
    requires
        all_ends(sc, net, sub),
    ensures
        ({
            let t = group_tree(sc, d, sub, net.name, analog);
            tree_linked(sc, t.0, net, listed(sc, sub), t.1) && keeps(t.0, d)
        }),
{
    let list = listed(sc, sub);
    let pairs = seed_pairs(list);
    lemma_listed(sc, net, sub);
    lemma_seed_pairs(list);
    if !analog {
        law_tree_links_what_it_reaches(sc, d, list, pairs, net, false);
    } else {
        lemma_best_seed(sc, d, list, pairs, net.name, pairs.len() as int);
        match best_seed(sc, d, list, pairs, net.name, pairs.len() as int) {
            Some(b) => {
                law_tree_links_what_it_reaches(sc, d, list, seq![pairs[b]], net, true);
            },
            None => {},
        }
    }
}

proof fn lemma_off_hubs(placed: Seq<usize>, hub: Seq<bool>, n: int)
    ensures
        all_below(off_hubs(placed, hub, n), placed.len() as int),
    decreases n,
{
    if 0 < n <= placed.len() {
        lemma_off_hubs(placed, hub, n - 1);
    }
}

proof fn lemma_rooted_at(placed: Seq<usize>, root: Seq<usize>, r: usize, n: int)
    ensures
        all_below(rooted_at(placed, root, r, n), placed.len() as int),
    decreases n,
{
    if 0 < n <= placed.len() {
        lemma_rooted_at(placed, root, r, n - 1);
    }
}

/// Every set names endpoints.
pub open spec fn sets_below(sets: Seq<Seq<usize>>, n: int) -> bool {
    forall|i: int| 0 <= i < sets.len() ==> all_below(#[trigger] sets[i], n)
}

proof fn lemma_clusters(placed: Seq<usize>, root: Seq<usize>, roots: Seq<usize>, n: int)
    ensures
        sets_below(clusters(placed, root, roots, n), placed.len() as int),
    decreases n,
{
    if 0 < n <= roots.len() {
        lemma_clusters(placed, root, roots, n - 1);
        lemma_rooted_at(placed, root, roots[n - 1], placed.len() as int);
    }
}

pub proof fn lemma_group_sets(sc: Scene<'_>, eps: Seq<Endpoint>, analog: bool)
    ensures
        sets_below(group_sets(sc, eps, analog), eps.len() as int),
{
    let placed = placed_list(eps);
    let order = root_order(placed, root_list(sc), refdes_list(sc));
    lemma_off_hubs(placed, hub_list(sc), placed.len() as int);
    lemma_clusters(placed, root_list(sc), order, order.len() as int);
}

/// Every point that counts as reached is linked.
pub open spec fn points_linked(sc: Scene<'_>, d: Drawing, net: SheetNet, points: Seq<Point>) -> bool {
    forall|i: int| 0 <= i < points.len() ==> linked(sc, d, net, #[trigger] points[i])
}

pub proof fn lemma_points_stay(sc: Scene<'_>, a: Drawing, b: Drawing, net: SheetNet, points: Seq<Point>)
    requires
        keeps(b, a),
        points_linked(sc, a, net, points),
    ensures
        points_linked(sc, b, net, points),
{
    assert forall|i: int| 0 <= i < points.len() implies linked(sc, b, net, #[trigger] points[i]) by {
        lemma_linked_stays(sc, a, b, net, points[i]);
    }
}

pub proof fn lemma_tree_label_keeps(
    sc: Scene<'_>,
    d: Drawing,
    net: String,
    from: int,
    branch: bool,
    analog: bool,
)
    ensures
        tree_labelled(sc, d, net, from, branch, analog) matches Some(t) ==> keeps(t, d),
{
    reveal(tree_labelled);
}

proof fn lemma_subset_links(
    sc: Scene<'_>,
    g: GroupState,
    net: SheetNet,
    eps: Seq<Endpoint>,
    subset: Seq<usize>,
    analog: bool,
    many: bool,
)
    requires
        all_ends(sc, net, eps),
        all_below(subset, eps.len() as int),
        points_linked(sc, g.d, net, g.reached),
    ensures
        ({
            let r = subset_wired(sc, g, net, eps, subset, analog, many);
            points_linked(sc, r.d, net, r.reached) && keeps(r.d, g.d)
        }),
{
    let sub = picked(eps, subset);
    assert forall|i: int| 0 <= i < sub.len() implies is_end(sc, net, #[trigger] sub[i]) by {
        assert(subset[i] < eps.len());
        assert(is_end(sc, net, eps[subset[i] as int]));
    }
    lemma_group_tree_links(sc, g.d, sub, net, analog);
    let t = group_tree(sc, g.d, sub, net.name, analog);
    let list = listed(sc, sub);
    let wired = picked(list, t.1);
    let from = g.d.reg.segs.len() as int;
    let ported = port_step(sc, g.d, t.0, net, wired, analog);
    match net.port {
        Some(direction) => {
            lemma_port_adds(sc, t.0, net.name, direction, wired, from, analog, t.0);
        },
        None => {},
    }
    let d1 = match ported {
        Some(d) => d,
        None => t.0,
    };
    assert(keeps(d1, t.0));
    lemma_tree_label_keeps(sc, d1, net.name, from, !analog, analog);
    let r = subset_wired(sc, g, net, eps, subset, analog, many);
    if r.reached != g.reached {
        assert(keeps(r.d, d1));
        lemma_keeps_trans(t.0, d1, r.d);
        lemma_keeps_trans(g.d, t.0, r.d);
        lemma_points_stay(sc, g.d, r.d, net, g.reached);
        assert forall|i: int| 0 <= i < r.reached.len() implies linked(
            sc,
            r.d,
            net,
            #[trigger] r.reached[i],
        ) by {
            if i < g.reached.len() {
                assert(r.reached[i] == g.reached[i]);
            } else {
                let u = i - g.reached.len();
                assert(r.reached[i] == wired[u].pos);
                assert(wired[u] == list[t.1[u] as int]);
                lemma_linked_stays(sc, t.0, r.d, net, wired[u].pos);
            }
        }
    } else {
        assert(r.reached.len() == g.reached.len());
        assert(r == g);
    }
}

pub proof fn lemma_subsets_link(
    sc: Scene<'_>,
    g: GroupState,
    net: SheetNet,
    eps: Seq<Endpoint>,
    sets: Seq<Seq<usize>>,
    analog: bool,
    n: int,
)
    requires
        all_ends(sc, net, eps),
        sets_below(sets, eps.len() as int),
        points_linked(sc, g.d, net, g.reached),
    ensures
        ({
            let r = subsets_wired(sc, g, net, eps, sets, analog, n);
            points_linked(sc, r.d, net, r.reached) && keeps(r.d, g.d)
        }),
    decreases n,
{
    if 0 < n <= sets.len() {
        lemma_subsets_link(sc, g, net, eps, sets, analog, n - 1);
        let before = subsets_wired(sc, g, net, eps, sets, analog, n - 1);
        lemma_subset_links(sc, before, net, eps, sets[n - 1], analog, sets.len() > 1);
        lemma_keeps_trans(g.d, before.d, subsets_wired(sc, g, net, eps, sets, analog, n).d);
    }
}

} // verus!
