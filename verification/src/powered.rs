//! No power or ground pin is left out: each has a stub with the symbol of its rail, or a tap to a
//! bus that ends at one, or stands in a stack of pins with one that does.

use vstd::prelude::*;
use crate::apart::lemma_least_crossed;
use crate::canvas::{Drawing, Endpoint, Scene};
use crate::contacts::{
    is_end, is_stack_bus, lemma_collapse_len, lemma_few_endpoints, lemma_stacks_below, pins_wired,
};
use crate::glyphs::{negative_rail, potential_rank, AttachmentView};
use crate::labels::signals_routed;
use crate::linked::{
    drawn_for, keeps, lemma_drawn_stays, lemma_keeps_trans, lemma_linked_stays, lemma_stacked_stays,
    lemma_wired, linked, served, stacked, stub_runs,
};
use crate::model::NetClass;
use crate::order::includes;
use crate::pins::endpoints_of;
use crate::place::SheetNet;
use crate::power::{
    collapse_upto, collapsed, edge_order, offset_stack, positions, stack_bus_x, stack_step, stacks,
    tap, upright,
};
use crate::rails::{
    align_targets, bank_bus, bank_step, bank_symbol_y, bank_x, banks, banks_upto, flag_once,
    BankState,
};
use crate::served::{law_every_signal_pin_is_served, lemma_in_a_stack};
use crate::supply::{
    jog, law_best_supply_is_cheapest, nets_supplied, rescue_stubs, supplied_upto, supply_choice,
    supply_stubs,
};
use crate::units::{spec_apart, Iu, Point};

verus! {

// ---------------------------------------------------------------- pins and their symbols

/// A symbol of the rail stands at the point, and hangs down or not.
pub open spec fn symbol_stands(d: Drawing, net: Seq<char>, at: Point, down: bool) -> bool {
    exists|i: int|
        0 <= i < d.power_symbols.len() && (#[trigger] d.power_symbols[i]).net@ == net
            && d.power_symbols[i].at == at && d.power_symbols[i].down == down
}

/// A symbol of the rail stands at the end of a stub off the point; a stub of no length is no wire.
pub open spec fn symbol_off(d: Drawing, net: Seq<char>, at: Point, down: bool) -> bool {
    exists|end: Point| #[trigger]
        symbol_stands(d, net, end, down) && (stub_runs(d, net, at, end) || !spec_apart(at, end))
}

/// Wire `i` is a level tap from the point into column `x`.
pub open spec fn is_tap(d: Drawing, i: int, at: Point, x: Iu) -> bool {
    d.wires[i] == seq![at, Point { x, y: at.y }]
}

/// A tap of the net runs from the point into column `x`.
pub open spec fn tap_runs(d: Drawing, net: Seq<char>, at: Point, x: Iu) -> bool {
    exists|i: int, p: int| #[trigger] drawn_for(d, net, i, p) && is_tap(d, i, at, x)
}

/// A bus of the net stands in column `x` and ends at the point.
pub open spec fn bus_ends(d: Drawing, net: Seq<char>, at: Point, x: Iu) -> bool {
    at.x == x && exists|i: int, p: int| #[trigger]
        drawn_for(d, net, i, p) && d.wires[i].len() == 2 && d.wires[i][0].x == x && d.wires[i][1].x
            == x && (d.wires[i][0] == at || d.wires[i][1] == at)
}

/// The pin at the first point has a tap into the column of a bus that ends at the second.
pub open spec fn bussed_to(d: Drawing, net: Seq<char>, at: Point, end: Point) -> bool {
    tap_runs(d, net, at, end.x) && bus_ends(d, net, end, end.x)
}

/// The pin at the point has a stub with a symbol, or a tap to a bus that ends at one.
pub open spec fn fed(d: Drawing, net: Seq<char>, at: Point, down: bool) -> bool {
    symbol_off(d, net, at, down) || exists|end: Point| #[trigger]
        bussed_to(d, net, at, end) && symbol_stands(d, net, end, down)
}

/// The symbols of grounds and of negative rails hang down, those of other rails stand up.
#[verifier::opaque]
pub open spec fn hangs(net: SheetNet) -> bool {
    net.class == NetClass::Ground || negative_rail(net.name@)
}

/// The pin at the point is fed, or stands in a stack, on the bus of the stack, with one that is.
pub open spec fn powered(sc: Scene<'_>, d: Drawing, net: SheetNet, at: Point) -> bool {
    fed(d, net.name@, at, hangs(net)) || exists|b: Point| #[trigger]
        stands_for(sc, d, net, at, b) && fed(d, net.name@, b, hangs(net))
}

/// The second point stands for a stack that the pin at the first one is in.
pub open spec fn stands_for(sc: Scene<'_>, d: Drawing, net: SheetNet, at: Point, b: Point) -> bool {
    stacked(sc, d, net, at, b) || bussed_to(d, net.name@, at, b)
}

// ---------------------------------------------------------------- what is drawn stays drawn

/// Nothing drawn is lost, power symbols included.
pub open spec fn keeps_all(after: Drawing, before: Drawing) -> bool {
    keeps(after, before) && before.power_symbols.is_prefix_of(after.power_symbols)
}

proof fn lemma_all_trans(a: Drawing, b: Drawing, c: Drawing)
    requires
        keeps_all(b, a),
        keeps_all(c, b),
    ensures
        keeps_all(c, a),
{
    lemma_keeps_trans(a, b, c);
}

proof fn lemma_symbol_stays(a: Drawing, b: Drawing, net: Seq<char>, at: Point, down: bool)
    requires
        keeps_all(b, a),
        symbol_stands(a, net, at, down),
    ensures
        symbol_stands(b, net, at, down),
{
    let i = choose|i: int|
        0 <= i < a.power_symbols.len() && (#[trigger] a.power_symbols[i]).net@ == net
            && a.power_symbols[i].at == at && a.power_symbols[i].down == down;
    assert(b.power_symbols[i] == a.power_symbols[i]);
}

proof fn lemma_bussed_stays(a: Drawing, b: Drawing, net: Seq<char>, at: Point, end: Point)
    requires
        keeps_all(b, a),
        bussed_to(a, net, at, end),
    ensures
        bussed_to(b, net, at, end),
{
    let (i, p) = choose|i: int, p: int| #[trigger]
        drawn_for(a, net, i, p) && is_tap(a, i, at, end.x);
    lemma_drawn_stays(a, b, net, i, p);
    assert(is_tap(b, i, at, end.x));
    let (k, q) = choose|k: int, q: int| #[trigger]
        drawn_for(a, net, k, q) && a.wires[k].len() == 2 && a.wires[k][0].x == end.x
            && a.wires[k][1].x == end.x && (a.wires[k][0] == end || a.wires[k][1] == end);
    lemma_drawn_stays(a, b, net, k, q);
}

proof fn lemma_fed_stays(a: Drawing, b: Drawing, net: Seq<char>, at: Point, down: bool)
    requires
        keeps_all(b, a),
        fed(a, net, at, down),
    ensures
        fed(b, net, at, down),
{
    if symbol_off(a, net, at, down) {
        let end = choose|end: Point| #[trigger]
            symbol_stands(a, net, end, down) && (stub_runs(a, net, at, end) || !spec_apart(at, end));
        lemma_symbol_stays(a, b, net, end, down);
        if stub_runs(a, net, at, end) {
            let (i, p) = choose|i: int, p: int| #[trigger]
                drawn_for(a, net, i, p) && a.wires[i].len() >= 2 && a.wires[i][0] == at
                    && a.wires[i].last() == end;
            lemma_drawn_stays(a, b, net, i, p);
            assert(stub_runs(b, net, at, end));
        }
    } else {
        let end = choose|end: Point| #[trigger]
            bussed_to(a, net, at, end) && symbol_stands(a, net, end, down);
        lemma_bussed_stays(a, b, net, at, end);
        lemma_symbol_stays(a, b, net, end, down);
    }
}

proof fn lemma_powered_stays(sc: Scene<'_>, a: Drawing, b: Drawing, net: SheetNet, at: Point)
    requires
        keeps_all(b, a),
        powered(sc, a, net, at),
    ensures
        powered(sc, b, net, at),
{
    if fed(a, net.name@, at, hangs(net)) {
        lemma_fed_stays(a, b, net.name@, at, hangs(net));
    } else {
        let c = choose|c: Point| #[trigger]
            stands_for(sc, a, net, at, c) && fed(a, net.name@, c, hangs(net));
        lemma_stands_stays(sc, a, b, net, at, c);
        lemma_fed_stays(a, b, net.name@, c, hangs(net));
    }
}

proof fn lemma_stands_stays(sc: Scene<'_>, a: Drawing, b: Drawing, net: SheetNet, at: Point, c: Point)
    requires
        keeps_all(b, a),
        stands_for(sc, a, net, at, c),
    ensures
        stands_for(sc, b, net, at, c),
{
    if stacked(sc, a, net, at, c) {
        lemma_stacked_stays(sc, a, b, net, at, c);
    } else {
        lemma_bussed_stays(a, b, net.name@, at, c);
    }
}

// ---------------------------------------------------------------- buses

proof fn lemma_taps(d: Drawing, eps: Seq<Endpoint>, run: Seq<usize>, x: Iu, net: String, n: int)
    requires
        0 <= n <= run.len(),
    ensures
        keeps_all(d.tapped(eps, run, x, net, n), d),
        forall|m: int|
            0 <= m < n ==> tap_runs(
                d.tapped(eps, run, x, net, n),
                net@,
                eps[#[trigger] run[m] as int].pos,
                x,
            ),
    decreases n,
{
    if n > 0 {
        lemma_taps(d, eps, run, x, net, n - 1);
        let before = d.tapped(eps, run, x, net, n - 1);
        let after = d.tapped(eps, run, x, net, n);
        let path = tap(eps[run[n - 1] as int], x);
        lemma_wired(before, path, net);
        lemma_all_trans(d, before, after);
        assert forall|m: int| 0 <= m < n implies tap_runs(
            after,
            net@,
            eps[#[trigger] run[m] as int].pos,
            x,
        ) by {
            let at = eps[run[m] as int].pos;
            if m < n - 1 {
                let (i, p) = choose|i: int, p: int| #[trigger]
                    drawn_for(before, net@, i, p) && is_tap(before, i, at, x);
                lemma_drawn_stays(before, after, net@, i, p);
                assert(is_tap(after, i, at, x));
            } else {
                let i = before.wires.len() as int;
                assert(drawn_for(after, net@, i, before.reg.segs.len() as int));
                assert(is_tap(after, i, at, x));
            }
        }
    }
}

proof fn lemma_junctions_keep(
    d: Drawing,
    eps: Seq<Endpoint>,
    run: Seq<usize>,
    x: Iu,
    net: Seq<char>,
    n: int,
)
    ensures
        keeps_all(d.bus_joined(eps, run, x, net, n), d),
    decreases n,
{
    if 0 < n <= run.len() {
        lemma_junctions_keep(d, eps, run, x, net, n - 1);
        let before = d.bus_joined(eps, run, x, net, n - 1);
        lemma_all_trans(d, before, d.bus_joined(eps, run, x, net, n));
    }
}

/// The members of a bus are joined to both its ends.
proof fn lemma_bussed(
    d: Drawing,
    eps: Seq<Endpoint>,
    run: Seq<usize>,
    x: Iu,
    a: Iu,
    b: Iu,
    net: String,
)
    ensures
        ({
            let r = d.bussed(eps, run, x, upright(x, a, b), net);
            &&& keeps_all(r, d)
            &&& forall|m: int|
                0 <= m < run.len() ==> bussed_to(
                    r,
                    net@,
                    eps[#[trigger] run[m] as int].pos,
                    Point { x, y: a },
                ) && bussed_to(r, net@, eps[run[m] as int].pos, Point { x, y: b })
        }),
{
    let n = run.len() as int;
    let bus = upright(x, a, b);
    lemma_taps(d, eps, run, x, net, n);
    let t = d.tapped(eps, run, x, net, n);
    let w = t.wired(bus, net);
    lemma_wired(t, bus, net);
    lemma_junctions_keep(w, eps, run, x, net@, n);
    let r = d.bussed(eps, run, x, bus, net);
    lemma_all_trans(d, t, w);
    lemma_all_trans(d, w, r);
    lemma_all_trans(t, w, r);
    let k = t.wires.len() as int;
    let q = t.reg.segs.len() as int;
    assert(drawn_for(w, net@, k, q));
    lemma_drawn_stays(w, r, net@, k, q);
    assert(bus_ends(r, net@, Point { x, y: a }, x));
    assert(bus_ends(r, net@, Point { x, y: b }, x));
    assert forall|m: int| 0 <= m < run.len() implies bussed_to(
        r,
        net@,
        eps[#[trigger] run[m] as int].pos,
        Point { x, y: a },
    ) && bussed_to(r, net@, eps[run[m] as int].pos, Point { x, y: b }) by {
        let at = eps[run[m] as int].pos;
        let (i, p) = choose|i: int, p: int| #[trigger]
            drawn_for(t, net@, i, p) && is_tap(t, i, at, x);
        lemma_drawn_stays(t, r, net@, i, p);
        assert(is_tap(r, i, at, x));
        assert(tap_runs(r, net@, at, x));
    }
}

// ---------------------------------------------------------------- stacks of pins

/// One of the endpoints is at the point, or stands for the stack with the pin at the point.
pub open spec fn stood_for(
    sc: Scene<'_>,
    d: Drawing,
    net: SheetNet,
    v: Seq<Endpoint>,
    at: Point,
) -> bool {
    exists|u: int|
        0 <= u < v.len() && ((#[trigger] v[u]).pos == at || stands_for(sc, d, net, at, v[u].pos))
}

proof fn lemma_collapse_stands(sc: Scene<'_>, d: Drawing, net: SheetNet, up: bool, n: int)
    requires
        0 <= n <= stacks(endpoints_of(sc, net), edge_order(endpoints_of(sc, net))).len(),
    ensures
        ({
            let eps = endpoints_of(sc, net);
            let runs = stacks(eps, edge_order(eps));
            let c = collapse_upto(sc, d, eps, runs, net.name, up, true, n);
            &&& keeps_all(c.0, d)
            &&& forall|r: int, m: int|
                0 <= r < n && 0 <= m < runs[r].len() ==> stood_for(
                    sc,
                    c.0,
                    net,
                    c.1,
                    eps[#[trigger] runs[r][m] as int].pos,
                )
        }),
    decreases n,
{
    let eps = endpoints_of(sc, net);
    let runs = stacks(eps, edge_order(eps));
    let c = collapse_upto(sc, d, eps, runs, net.name, up, true, n);
    if n > 0 {
        lemma_collapse_stands(sc, d, net, up, n - 1);
        lemma_few_endpoints(sc, net, net.endpoints@.len() as int);
        lemma_stacks_below(eps);
        lemma_collapse_len(sc, d, eps, runs, net.name, up, true, n - 1);
        let before = collapse_upto(sc, d, eps, runs, net.name, up, true, n - 1);
        let run = runs[n - 1];
        assert(run.len() > 0);
        let first = eps[run[0] as int];
        let last = eps[run.last() as int];
        let offset = offset_stack(sc, before.0, eps, run, net.name, up);
        let on_bus = run.len() >= 2 && first.dir.x != 0 && offset is Some;
        let path = positions(eps, run);
        let rep = c.1[n - 1];
        lemma_wired(before.0, path, net.name);
        if on_bus {
            let step = stack_step(sc, before.0, eps, run, net.name@, !up, 0)->0;
            let x = stack_bus_x(sc, first, step);
            lemma_bussed(before.0, eps, run, x, first.pos.y, last.pos.y, net.name);
        } else if run.len() >= 2 {
            assert(is_stack_bus(sc, net, path));
            assert(path[0] == first.pos && path[run.len() - 1] == last.pos);
            assert(path.contains(rep.pos));
            assert(drawn_for(
                c.0,
                net.name@,
                before.0.wires.len() as int,
                before.0.reg.segs.len() as int,
            ));
        }
        assert(keeps_all(c.0, before.0));
        lemma_all_trans(d, before.0, c.0);
        assert forall|r: int, m: int| 0 <= r < n && 0 <= m < runs[r].len() implies stood_for(
            sc,
            c.0,
            net,
            c.1,
            eps[#[trigger] runs[r][m] as int].pos,
        ) by {
            let at = eps[runs[r][m] as int].pos;
            if r < n - 1 {
                let u = choose|u: int|
                    0 <= u < before.1.len() && ((#[trigger] before.1[u]).pos == at || stands_for(
                        sc,
                        before.0,
                        net,
                        at,
                        before.1[u].pos,
                    ));
                assert(c.1[u] == before.1[u]);
                if before.1[u].pos != at {
                    lemma_stands_stays(sc, before.0, c.0, net, at, before.1[u].pos);
                }
            } else if on_bus {
                assert(eps[run[m] as int].pos == at);
                assert(bussed_to(c.0, net.name@, at, rep.pos));
                assert(stands_for(sc, c.0, net, at, rep.pos));
                assert(c.1[n - 1].pos == rep.pos);
            } else if run.len() >= 2 {
                assert(path[m] == at);
                assert(path.contains(at));
                assert(stacked(sc, c.0, net, at, rep.pos));
                assert(stands_for(sc, c.0, net, at, rep.pos));
            } else {
                assert(m == 0);
                assert(rep.pos == at);
            }
        }
    }
}

// ---------------------------------------------------------------- banks and stubs

proof fn lemma_flag_keeps(
    sc: Scene<'_>,
    d: Drawing,
    noted: Seq<String>,
    undriven: Seq<String>,
    net: String,
    at: Point,
    left: bool,
)
    ensures
        keeps_all(flag_once(sc, d, noted, undriven, net, at, left).0, d),
{
}

/// Every listed endpoint is fed.
pub open spec fn served_fed(
    d: Drawing,
    net: Seq<char>,
    eps: Seq<Endpoint>,
    served: Seq<usize>,
    down: bool,
) -> bool {
    forall|i: int|
        0 <= i < served.len() ==> fed(d, net, eps[#[trigger] served[i] as int].pos, down)
}

proof fn lemma_banks_feed(
    sc: Scene<'_>,
    st: BankState,
    eps: Seq<Endpoint>,
    runs: Seq<Seq<usize>>,
    net: String,
    down: bool,
    undriven: Seq<String>,
    n: int,
)
    requires
        served_fed(st.d, net@, eps, st.served, down),
    ensures
        ({
            let r = banks_upto(sc, st, eps, runs, net, down, undriven, n);
            keeps_all(r.d, st.d) && served_fed(r.d, net@, eps, r.served, down)
        }),
    decreases n,
{
    if 0 < n <= runs.len() {
        lemma_banks_feed(sc, st, eps, runs, net, down, undriven, n - 1);
        let before = banks_upto(sc, st, eps, runs, net, down, undriven, n - 1);
        let r = banks_upto(sc, st, eps, runs, net, down, undriven, n);
        let run = runs[n - 1];
        match bank_step(sc, before.d, eps, run, net@, down, 0) {
            Some(step) => {
                if run.len() >= 2 {
                    let first = eps[run[0] as int];
                    let last = eps[run.last() as int];
                    let x = bank_x(sc, first, step);
                    let y = bank_symbol_y(sc, first.pos.y, last.pos.y, down);
                    let at = Point { x, y };
                    let (a, b) = if down {
                        (first.pos.y, y)
                    } else {
                        (y, last.pos.y)
                    };
                    let bus = bank_bus(x, first.pos.y, last.pos.y, y, down);
                    assert(bus == upright(x, a, b));
                    lemma_bussed(before.d, eps, run, x, a, b, net);
                    let bussed = before.d.bussed(eps, run, x, bus, net);
                    let marked = bussed.with_symbol(net, at, down);
                    assert(keeps_all(marked, bussed));
                    lemma_flag_keeps(
                        sc,
                        marked,
                        before.noted,
                        undriven,
                        net,
                        at,
                        first.dir.x < 0,
                    );
                    lemma_all_trans(bussed, marked, r.d);
                    lemma_all_trans(before.d, bussed, r.d);
                    lemma_all_trans(st.d, before.d, r.d);
                    assert(marked.power_symbols[bussed.power_symbols.len() as int].net@ == net@);
                    assert(symbol_stands(marked, net@, at, down));
                    lemma_symbol_stays(marked, r.d, net@, at, down);
                    assert forall|i: int| 0 <= i < r.served.len() implies fed(
                        r.d,
                        net@,
                        eps[#[trigger] r.served[i] as int].pos,
                        down,
                    ) by {
                        if i < before.served.len() {
                            assert(r.served[i] == before.served[i]);
                            lemma_fed_stays(
                                before.d,
                                r.d,
                                net@,
                                eps[before.served[i] as int].pos,
                                down,
                            );
                        } else {
                            let m = i - before.served.len();
                            assert(r.served[i] == run[m]);
                            let pos = eps[run[m] as int].pos;
                            assert(bussed_to(bussed, net@, pos, at));
                            lemma_bussed_stays(bussed, r.d, net@, pos, at);
                        }
                    }
                }
            },
            None => {},
        }
    }
}

/// The stub runs from the pin to its symbol.
pub open spec fn leads_to_symbol(c: AttachmentView, at: Point, down: bool) -> bool {
    c.path.len() >= 2 && c.path[0] == at && c.path.last() == c.symbol_at && c.down == down
}

proof fn lemma_choice_leads(
    sc: Scene<'_>,
    d: Drawing,
    net: String,
    e: Endpoint,
    down: bool,
    row: Option<Iu>,
)
    ensures
        leads_to_symbol(supply_choice(sc, d, net, e, down, row).0, e.pos, down),
{
    let cs = supply_stubs(*sc.cfg, e, down, row);
    let more = rescue_stubs(*sc.cfg, e, down) + cs;
    assert forall|i: int| 0 <= i < cs.len() implies leads_to_symbol(
        #[trigger] cs[i],
        e.pos,
        down,
    ) by {
        let n = cs.len();
        let jogs = Seq::new(144, |i: int| jog(e, down, i));
        if e.dir.y != 0 && i >= n - 144 {
            assert(cs[i] == jogs[i - (n - 144)]);
        }
    }
    assert forall|i: int| 0 <= i < more.len() implies leads_to_symbol(
        #[trigger] more[i],
        e.pos,
        down,
    ) by {
        let k = rescue_stubs(*sc.cfg, e, down).len();
        if i >= k {
            assert(more[i] == cs[i - k]);
        }
    }
    law_best_supply_is_cheapest(sc, d, cs, net@, e, row, cs.len() as int);
    lemma_least_crossed(d, more, net@, more.len() as int);
}

proof fn lemma_supplied_feeds(
    sc: Scene<'_>,
    d: Drawing,
    net: String,
    e: Endpoint,
    down: bool,
    row: Option<Iu>,
)
    ensures
        keeps_all(d.supplied(sc, net, e, down, row).0, d),
        fed(d.supplied(sc, net, e, down, row).0, net@, e.pos, down),
{
    let c = supply_choice(sc, d, net, e, down, row).0;
    let b = d.supplied(sc, net, e, down, row).0;
    lemma_choice_leads(sc, d, net, e, down, row);
    lemma_wired(d, c.path, net);
    assert(b.power_symbols[d.power_symbols.len() as int].at == c.symbol_at);
    assert(symbol_stands(b, net@, c.symbol_at, down));
    if spec_apart(c.path[0], c.path.last()) {
        assert(drawn_for(b, net@, d.wires.len() as int, d.reg.segs.len() as int));
        assert(stub_runs(b, net@, e.pos, c.symbol_at));
    }
    assert(symbol_off(b, net@, e.pos, down));
}

proof fn lemma_all_supplied(
    sc: Scene<'_>,
    st: BankState,
    eps: Seq<Endpoint>,
    rows: Seq<Option<Iu>>,
    net: String,
    down: bool,
    undriven: Seq<String>,
    n: int,
)
    requires
        served_fed(st.d, net@, eps, st.served, down),
        0 <= n <= eps.len(),
    ensures
        ({
            let r = supplied_upto(sc, st, eps, rows, net, down, undriven, n);
            keeps_all(r.0, st.d) && forall|i: int|
                0 <= i < n ==> fed(r.0, net@, (#[trigger] eps[i]).pos, down)
        }),
    decreases n,
{
    if n > 0 {
        lemma_all_supplied(sc, st, eps, rows, net, down, undriven, n - 1);
        let before = supplied_upto(sc, st, eps, rows, net, down, undriven, n - 1);
        let r = supplied_upto(sc, st, eps, rows, net, down, undriven, n);
        let e = eps[n - 1];
        if includes(st.served, n - 1) {
            let k = choose|k: int| 0 <= k < st.served.len() && #[trigger] st.served[k] == n - 1;
            assert(fed(st.d, net@, eps[st.served[k] as int].pos, down));
            lemma_fed_stays(st.d, r.0, net@, e.pos, down);
        } else {
            lemma_supplied_feeds(sc, before.0, net, e, down, rows[n - 1]);
            let (d, at) = before.0.supplied(sc, net, e, down, rows[n - 1]);
            lemma_flag_keeps(sc, d, before.1, undriven, net, at, e.dir.x < 0);
            lemma_fed_stays(d, r.0, net@, e.pos, down);
            lemma_all_trans(before.0, d, r.0);
            lemma_all_trans(st.d, before.0, r.0);
            assert forall|i: int| 0 <= i < n implies fed(r.0, net@, (#[trigger] eps[i]).pos, down) by {
                if i < n - 1 {
                    lemma_fed_stays(before.0, r.0, net@, eps[i].pos, down);
                }
            }
        }
    }
}

// ---------------------------------------------------------------- the power pass

proof fn lemma_hangs(net: SheetNet)
    requires
        net.class != NetClass::Signal,
    ensures
        hangs(net) == (potential_rank(net.name@, net.class) <= 0),
{
    reveal(hangs);
}

/// Once a net is supplied, its pins are powered.
proof fn lemma_net_powered(sc: Scene<'_>, d: Drawing, undriven: Seq<String>, n: int)
    requires
        0 < n <= sc.model.nets@.len(),
    ensures
        ({
            let before = nets_supplied(sc, d, undriven, n - 1).0;
            let after = nets_supplied(sc, d, undriven, n).0;
            let net = sc.model.nets@[n - 1];
            &&& keeps_all(after, before)
            &&& net.class != NetClass::Signal ==> forall|i: int|
                0 <= i < endpoints_of(sc, net).len() ==> powered(
                    sc,
                    after,
                    net,
                    (#[trigger] endpoints_of(sc, net)[i]).pos,
                )
        }),
{
    let (d0, noted) = nets_supplied(sc, d, undriven, n - 1);
    let after = nets_supplied(sc, d, undriven, n).0;
    let net = sc.model.nets@[n - 1];
    if net.class != NetClass::Signal {
        let down = potential_rank(net.name@, net.class) <= 0;
        lemma_hangs(net);
        let raw = endpoints_of(sc, net);
        let runs = stacks(raw, edge_order(raw));
        lemma_collapse_stands(sc, d0, net, !down, runs.len() as int);
        let (d1, eps) = collapsed(sc, d0, raw, net.name, !down, true);
        let bs = banks(eps);
        let st0 = BankState { d: d1, noted, served: Seq::empty() };
        lemma_banks_feed(sc, st0, eps, bs, net.name, down, undriven, bs.len() as int);
        let st = banks_upto(sc, st0, eps, bs, net.name, down, undriven, bs.len() as int);
        let rows = align_targets(sc, eps, down);
        lemma_all_supplied(sc, st, eps, rows, net.name, down, undriven, eps.len() as int);
        lemma_all_trans(d1, st.d, after);
        lemma_all_trans(d0, d1, after);
        assert forall|i: int| 0 <= i < raw.len() implies powered(
            sc,
            after,
            net,
            (#[trigger] raw[i]).pos,
        ) by {
            let r = lemma_in_a_stack(sc, net, i);
            assert(runs[r.0][r.1] == i);
            let at = raw[runs[r.0][r.1] as int].pos;
            assert(stood_for(sc, d1, net, eps, at));
            let u = choose|u: int|
                0 <= u < eps.len() && ((#[trigger] eps[u]).pos == at || stands_for(
                    sc,
                    d1,
                    net,
                    at,
                    eps[u].pos,
                ));
            assert(fed(after, net.name@, eps[u].pos, hangs(net)));
            if eps[u].pos != at {
                lemma_stands_stays(sc, d1, after, net, at, eps[u].pos);
            }
        }
    }
}

/// Once the power pass is over, every power and ground pin has a stub with the symbol of its rail,
/// or a tap to a bus that ends at one, or stands in a stack of pins with one that does.
pub proof fn law_every_power_pin_is_supplied(
    sc: Scene<'_>,
    d: Drawing,
    undriven: Seq<String>,
    k: int,
    e: Endpoint,
    n: int,
)
    requires
        0 <= k < n <= sc.model.nets@.len(),
        sc.model.nets@[k].class != NetClass::Signal,
        is_end(sc, sc.model.nets@[k], e),
    ensures
        powered(sc, nets_supplied(sc, d, undriven, n).0, sc.model.nets@[k], e.pos),
    decreases n,
{
    let net = sc.model.nets@[k];
    lemma_net_powered(sc, d, undriven, n);
    if k < n - 1 {
        law_every_power_pin_is_supplied(sc, d, undriven, k, e, n - 1);
        lemma_powered_stays(
            sc,
            nets_supplied(sc, d, undriven, n - 1).0,
            nets_supplied(sc, d, undriven, n).0,
            net,
            e.pos,
        );
    } else {
        let i = choose|i: int|
            0 <= i < endpoints_of(sc, net).len() && #[trigger] endpoints_of(sc, net)[i] == e;
        assert(powered(sc, nets_supplied(sc, d, undriven, n).0, net, endpoints_of(sc, net)[i].pos));
    }
}

// ---------------------------------------------------------------- all pins

pub proof fn lemma_supply_keeps(sc: Scene<'_>, d: Drawing, undriven: Seq<String>, n: int)
    ensures
        keeps_all(nets_supplied(sc, d, undriven, n).0, d),
    decreases n,
{
    if 0 < n <= sc.model.nets@.len() {
        lemma_supply_keeps(sc, d, undriven, n - 1);
        lemma_net_powered(sc, d, undriven, n);
        lemma_all_trans(
            d,
            nets_supplied(sc, d, undriven, n - 1).0,
            nets_supplied(sc, d, undriven, n).0,
        );
    }
}

/// Once the pins of a sheet are wired, none is left out: signal pins are served, and power and
/// ground pins are supplied.
pub proof fn law_no_pin_is_left_out(
    sc: Scene<'_>,
    d: Drawing,
    undriven: Seq<String>,
    k: int,
    e: Endpoint,
)
    requires
        0 <= k < sc.model.nets@.len(),
        is_end(sc, sc.model.nets@[k], e),
    ensures
        sc.model.nets@[k].class == NetClass::Signal ==> served(
            sc,
            pins_wired(sc, d, undriven),
            sc.model.nets@[k],
            e.pos,
        ),
        sc.model.nets@[k].class != NetClass::Signal ==> powered(
            sc,
            pins_wired(sc, d, undriven),
            sc.model.nets@[k],
            e.pos,
        ),
{
    let n = sc.model.nets@.len() as int;
    let net = sc.model.nets@[k];
    let d1 = signals_routed(sc, d);
    let w = pins_wired(sc, d, undriven);
    assert(sc.model.nets.len() == sc.model.nets@.len());
    if net.class == NetClass::Signal {
        law_every_signal_pin_is_served(sc, d, k as usize, e);
        lemma_supply_keeps(sc, d1, undriven, n);
        if linked(sc, d1, net, e.pos) {
            lemma_linked_stays(sc, d1, w, net, e.pos);
        } else {
            let b = choose|b: Point| #[trigger]
                stacked(sc, d1, net, e.pos, b) && linked(sc, d1, net, b);
            lemma_stacked_stays(sc, d1, w, net, e.pos, b);
            lemma_linked_stays(sc, d1, w, net, b);
        }
    } else {
        law_every_power_pin_is_supplied(sc, d1, undriven, k, e, n);
    }
}

} // verus!
