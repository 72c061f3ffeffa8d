//! Power and ground pins: shared buses, rows of symbols, and flags on undriven rails.

use vstd::prelude::*;
use crate::canvas::{copy_endpoint, wire_fits, Canvas, Drawing, Endpoint, Scene};
use crate::geometry::BBox;
use crate::glyphs::{power_box, power_symbol_graphic_box};
use crate::order::{
    cut_runs, indices, lemma_sorted_items, rows, rows_wf, runs_by, sort_by, sorted_by, upto,
};
use crate::pins::endpoints_wf;
use crate::registry::{graphic_clear, RegPin, RegView};
use crate::units::{
    near, near_coord, sat, shift, spec_near, spec_near_point, spec_shift, to_iu, Iu, Point, EPS,
};
use crate::wiring::{point_on_seg, spec_on, Seg};

verus! {

// ---------------------------------------------------------------- junctions

/// Does an end of the wire lie at the point?
pub open spec fn ends_at(s: Seg, p: Point) -> bool {
    spec_near_point(Point { x: s.span.x1, y: s.span.y1 }, p) || spec_near_point(
        Point { x: s.span.x2, y: s.span.y2 },
        p,
    )
}

/// Number of the first `n` wires of the net that end at the point.
pub open spec fn end_count(segs: Seq<Seg>, p: Point, net: Seq<char>, n: int) -> nat
    decreases n,
{
    if n <= 0 || n > segs.len() {
        0
    } else {
        end_count(segs, p, net, n - 1) + (if segs[n - 1].net@ == net && ends_at(segs[n - 1], p) {
            1nat
        } else {
            0
        })
    }
}

/// Does some wire of the net pass through the point without ending there?
pub open spec fn passes_through(segs: Seq<Seg>, p: Point, net: Seq<char>) -> bool {
    exists|i: int|
        0 <= i < segs.len() && (#[trigger] segs[i]).net@ == net && !ends_at(segs[i], p) && spec_on(
            p.x as int,
            p.y as int,
            segs[i].span,
        )
}

/// Is there a pin of the net at the point?
pub open spec fn pin_at(pins: Seq<RegPin>, p: Point, net: Seq<char>) -> bool {
    exists|i: int|
        0 <= i < pins.len() && (#[trigger] pins[i]).net@ == net && spec_near_point(pins[i].at, p)
}

/// Does a wire that ends at the point need a junction to join the net? Not on a pin, but on the
/// middle of a wire, or where two wires end already.
#[verifier::opaque]
pub open spec fn needs_junction(reg: RegView, p: Point, net: Seq<char>) -> bool {
    !pin_at(reg.pins, p, net) && (passes_through(reg.segs, p, net) || end_count(
        reg.segs,
        p,
        net,
        reg.segs.len() as int,
    ) >= 2)
}

impl Canvas {
    fn has_pin_at(&self, p: Point, net: &String) -> (r: bool)
        ensures
            r == pin_at(self@.reg.pins, p, net@),
    {
        let mut i: usize = 0;
        while i < self.reg.pins.len()
            invariant
                i <= self.reg.pins.len(),
                forall|k: int|
                    0 <= k < i ==> !((#[trigger] self.reg.pins@[k]).net@ == net@
                        && spec_near_point(self.reg.pins@[k].at, p)),
            decreases self.reg.pins.len() - i,
        {
            if self.reg.pins[i].net.is(net.as_str()) && near(self.reg.pins[i].at, p) {
                return true;
            }
            i = i + 1;
        }
        false
    }

    pub fn junction_needed_at(&self, p: Point, net: &String) -> (r: bool)
        ensures
            r == needs_junction(self@.reg, p, net@),
    {
        proof {
            reveal(needs_junction);
        }
        if self.has_pin_at(p, net) {
            return false;
        }
        let mut ends: usize = 0;
        let mut inner: bool = false;
        let mut i: usize = 0;
        while i < self.reg.segs.len()
            invariant
                i <= self.reg.segs.len(),
                ends == end_count(self.reg.segs@, p, net@, i as int),
                ends <= i,
                inner == exists|k: int|
                    0 <= k < i && (#[trigger] self.reg.segs@[k]).net@ == net@ && !ends_at(
                        self.reg.segs@[k],
                        p,
                    ) && spec_on(p.x as int, p.y as int, self.reg.segs@[k].span),
            decreases self.reg.segs.len() - i,
        {
            if self.reg.segs[i].net == *net {
                let a: Point = Point { x: self.reg.segs[i].span.x1, y: self.reg.segs[i].span.y1 };
                let b: Point = Point { x: self.reg.segs[i].span.x2, y: self.reg.segs[i].span.y2 };
                if near(a, p) || near(b, p) {
                    ends = ends + 1;
                } else if point_on_seg(p.x, p.y, &self.reg.segs[i].span) {
                    inner = true;
                }
            }
            i = i + 1;
        }
        inner || ends >= 2
    }
}

// ---------------------------------------------------------------- stacks of pins

pub open spec fn sign(v: int) -> int {
    if v > 0 {
        1
    } else if v < 0 {
        -1
    } else {
        0
    }
}

pub(crate) fn sign_of(v: Iu) -> (r: Iu)
    ensures
        r == sign(v as int),
{
    if v > 0 {
        1
    } else if v < 0 {
        -1
    } else {
        0
    }
}

/// Coordinate along which the pins of one edge follow each other.
pub open spec fn along(e: Endpoint) -> Iu {
    if e.dir.x != 0 {
        e.pos.y
    } else {
        e.pos.x
    }
}

/// Coordinate that the pins of one edge share.
pub open spec fn across(e: Endpoint) -> Iu {
    if e.dir.x != 0 {
        e.pos.x
    } else {
        e.pos.y
    }
}

/// Two endpoints on one edge of one component.
pub open spec fn same_edge(a: Endpoint, b: Endpoint) -> bool {
    a.placed == b.placed && sign(a.dir.x as int) == sign(b.dir.x as int) && sign(a.dir.y as int)
        == sign(b.dir.y as int) && across(a) == across(b)
}

/// Order of endpoints: by component, side, edge and place on the edge.
pub open spec fn edge_after(a: Endpoint, b: Endpoint) -> bool {
    if a.placed != b.placed {
        a.placed > b.placed
    } else if sign(a.dir.x as int) != sign(b.dir.x as int) {
        sign(a.dir.x as int) > sign(b.dir.x as int)
    } else if sign(a.dir.y as int) != sign(b.dir.y as int) {
        sign(a.dir.y as int) > sign(b.dir.y as int)
    } else if across(a) != across(b) {
        across(a) > across(b)
    } else {
        along(a) > along(b)
    }
}

fn along_of(e: &Endpoint) -> (r: Iu)
    ensures
        r == along(*e),
{
    if e.dir.x != 0 {
        e.pos.y
    } else {
        e.pos.x
    }
}

fn across_of(e: &Endpoint) -> (r: Iu)
    ensures
        r == across(*e),
{
    if e.dir.x != 0 {
        e.pos.x
    } else {
        e.pos.y
    }
}

fn is_edge_after(a: &Endpoint, b: &Endpoint) -> (r: bool)
    ensures
        r == edge_after(*a, *b),
{
    if a.placed != b.placed {
        a.placed > b.placed
    } else if sign_of(a.dir.x) != sign_of(b.dir.x) {
        sign_of(a.dir.x) > sign_of(b.dir.x)
    } else if sign_of(a.dir.y) != sign_of(b.dir.y) {
        sign_of(a.dir.y) > sign_of(b.dir.y)
    } else if across_of(a) != across_of(b) {
        across_of(a) > across_of(b)
    } else {
        along_of(a) > along_of(b)
    }
}

/// The endpoints in the order of their edges.
pub open spec fn edge_order(eps: Seq<Endpoint>) -> Seq<usize> {
    sorted_by(
        upto(eps.len() as int),
        |a: usize, b: usize| edge_after(eps[a as int], eps[b as int]),
    )
}

fn order_by_edge(eps: &Vec<Endpoint>) -> (r: Vec<usize>)
    ensures
        r@ == edge_order(eps@),
        r@.len() == eps@.len(),
        forall|i: int| 0 <= i < r@.len() ==> #[trigger] r@[i] < eps@.len(),
{
    let all: Vec<usize> = indices(eps.len());
    let ghost gt = |a: usize, b: usize| edge_after(eps@[a as int], eps@[b as int]);
    let after = |a: usize, b: usize| -> (r: bool)
        requires
            a < eps@.len(),
            b < eps@.len(),
        ensures
            r == edge_after(eps@[a as int], eps@[b as int]),
        { is_edge_after(&eps[a], &eps[b]) };
    let out: Vec<usize> = sort_by(&all, after, Ghost(gt));
    proof {
        lemma_sorted_items(all@, gt, |i: usize| i < eps@.len());
    }
    out
}

/// Does endpoint `b` continue the stack that ends with endpoint `a`?
pub open spec fn stacks_on(eps: Seq<Endpoint>, a: usize, b: usize) -> bool {
    same_edge(eps[a as int], eps[b as int]) && along(eps[b as int]) - along(eps[a as int]) <= 50810
}

/// The endpoints of `order` cut into stacks of neighbours.
pub open spec fn stacks(eps: Seq<Endpoint>, order: Seq<usize>) -> Seq<Seq<usize>> {
    runs_by(order, |a: usize, b: usize| stacks_on(eps, a, b), order.len() as int)
}

fn cut_stacks(eps: &Vec<Endpoint>, order: &Vec<usize>) -> (r: Vec<Vec<usize>>)
    requires
        forall|i: int| 0 <= i < order@.len() ==> #[trigger] order@[i] < eps@.len(),
    ensures
        rows(r@) == stacks(eps@, order@),
        rows_wf(rows(r@), eps@.len() as int),
{
    let ghost same = |a: usize, b: usize| stacks_on(eps@, a, b);
    let joins = |p: usize, q: usize| -> (r: bool)
        requires
            p < eps@.len(),
            q < eps@.len(),
        ensures
            r == stacks_on(eps@, p, q),
        {
            let a: &Endpoint = &eps[p];
            let b: &Endpoint = &eps[q];
            a.placed == b.placed && sign_of(a.dir.x) == sign_of(b.dir.x) && sign_of(a.dir.y)
                == sign_of(b.dir.y) && across_of(a) == across_of(b) && along_of(b) as i64
                - along_of(a) as i64 <= 50810
        };
    cut_runs(order, joins, Ghost(same), Ghost(eps@.len() as int))
}

// ---------------------------------------------------------------- an offset bus along a stack

/// The connection of one pin to a vertical bus.
pub open spec fn tap(e: Endpoint, bus_x: Iu) -> Seq<Point> {
    seq![e.pos, Point { x: bus_x, y: e.pos.y }]
}

/// The placed components of the members.
pub open spec fn members_placed(eps: Seq<Endpoint>, run: Seq<usize>) -> Seq<usize> {
    Seq::new(run.len(), |i: int| eps[run[i] as int].placed)
}

pub fn placed_of(eps: &Vec<Endpoint>, run: &Vec<usize>) -> (r: Vec<usize>)
    requires
        forall|i: int| 0 <= i < run@.len() ==> #[trigger] run@[i] < eps@.len(),
    ensures
        r@ == members_placed(eps@, run@),
{
    let mut r: Vec<usize> = Vec::new();
    let mut i: usize = 0;
    while i < run.len()
        invariant
            i <= run.len(),
            forall|i: int| 0 <= i < run@.len() ==> #[trigger] run@[i] < eps@.len(),
            r@ =~= members_placed(eps@, run@).take(i as int),
        decreases run.len() - i,
    {
        r.push(eps[run[i]].placed);
        i = i + 1;
    }
    proof {
        assert(r@ =~= members_placed(eps@, run@));
    }
    r
}

/// Every member can be joined to the bus.
pub open spec fn taps_fit(
    sc: Scene<'_>,
    d: Drawing,
    eps: Seq<Endpoint>,
    run: Seq<usize>,
    bus_x: Iu,
    net: Seq<char>,
) -> bool {
    forall|i: int|
        0 <= i < run.len() ==> wire_fits(
            sc,
            d,
            tap(eps[#[trigger] run[i] as int], bus_x),
            net,
            members_placed(eps, run),
        )
}

pub fn tap_of(e: &Endpoint, bus_x: Iu) -> (r: Vec<Point>)
    ensures
        r@ == tap(*e, bus_x),
{
    let r: Vec<Point> = vec![e.pos, Point { x: bus_x, y: e.pos.y }];
    proof {
        assert(r@ =~= tap(*e, bus_x));
    }
    r
}

impl Drawing {
    /// With the first `n` members joined to the bus.
    pub open spec fn tapped(
        self,
        eps: Seq<Endpoint>,
        run: Seq<usize>,
        bus_x: Iu,
        net: String,
        n: int,
    ) -> Drawing
        decreases n,
    {
        if n <= 0 || n > run.len() {
            self
        } else {
            self.tapped(eps, run, bus_x, net, n - 1).wired(tap(eps[run[n - 1] as int], bus_x), net)
        }
    }

    /// With junctions where the first `n` members meet the bus.
    pub open spec fn bus_joined(
        self,
        eps: Seq<Endpoint>,
        run: Seq<usize>,
        bus_x: Iu,
        net: Seq<char>,
        n: int,
    ) -> Drawing
        decreases n,
    {
        if n <= 0 || n > run.len() {
            self
        } else {
            let d = self.bus_joined(eps, run, bus_x, net, n - 1);
            let j = Point { x: bus_x, y: eps[run[n - 1] as int].pos.y };
            if needs_junction(d.reg, j, net) {
                d.joined(j)
            } else {
                d
            }
        }
    }

    /// With the members on a bus.
    pub open spec fn bussed(
        self,
        eps: Seq<Endpoint>,
        run: Seq<usize>,
        bus_x: Iu,
        bus: Seq<Point>,
        net: String,
    ) -> Drawing {
        self.tapped(eps, run, bus_x, net, run.len() as int).wired(bus, net).bus_joined(
            eps,
            run,
            bus_x,
            net@,
            run.len() as int,
        )
    }
}

impl Canvas {
    pub fn taps_ok(
        &self,
        sc: &Scene,
        eps: &Vec<Endpoint>,
        run: &Vec<usize>,
        bus_x: Iu,
        net: &String,
        except: &Vec<usize>,
    ) -> (r: bool)
        requires
            sc.wf(),
            forall|i: int| 0 <= i < run@.len() ==> #[trigger] run@[i] < eps@.len(),
            except@ == members_placed(eps@, run@),
        ensures
            r == taps_fit(*sc, self@, eps@, run@, bus_x, net@),
    {
        let mut i: usize = 0;
        while i < run.len()
            invariant
                i <= run.len(),
                sc.wf(),
                forall|i: int| 0 <= i < run@.len() ==> #[trigger] run@[i] < eps@.len(),
                except@ == members_placed(eps@, run@),
                forall|k: int|
                    0 <= k < i ==> wire_fits(
                        *sc,
                        self@,
                        tap(eps@[#[trigger] run@[k] as int], bus_x),
                        net@,
                        except@,
                    ),
            decreases run.len() - i,
        {
            let t: Vec<Point> = tap_of(&eps[run[i]], bus_x);
            if !self.wire_ok(sc, &t, net, except) {
                return false;
            }
            i = i + 1;
        }
        true
    }

    pub fn draw_bus(
        &mut self,
        eps: &Vec<Endpoint>,
        run: &Vec<usize>,
        bus_x: Iu,
        bus: Vec<Point>,
        net: &String,
    )
        requires
            forall|i: int| 0 <= i < run@.len() ==> #[trigger] run@[i] < eps@.len(),
        ensures
            final(self)@ == old(self)@.bussed(eps@, run@, bus_x, bus@, *net),
    {
        let ghost d0 = self@;
        let mut i: usize = 0;
        while i < run.len()
            invariant
                i <= run.len(),
                forall|i: int| 0 <= i < run@.len() ==> #[trigger] run@[i] < eps@.len(),
                self@ == d0.tapped(eps@, run@, bus_x, *net, i as int),
            decreases run.len() - i,
        {
            let t: Vec<Point> = tap_of(&eps[run[i]], bus_x);
            self.wire(t, net);
            i = i + 1;
        }
        self.wire(bus, net);
        let ghost d1 = self@;
        let mut i: usize = 0;
        while i < run.len()
            invariant
                i <= run.len(),
                forall|i: int| 0 <= i < run@.len() ==> #[trigger] run@[i] < eps@.len(),
                self@ == d1.bus_joined(eps@, run@, bus_x, net@, i as int),
            decreases run.len() - i,
        {
            let j: Point = Point { x: bus_x, y: eps[run[i]].pos.y };
            if self.junction_needed_at(j, net) {
                self.push_junction(j);
            }
            i = i + 1;
        }
    }
}

/// A pin of another net on the edge of the stack, where the bus and its symbol would grow.
pub open spec fn stack_blocked(
    pins: Seq<RegPin>,
    net: Seq<char>,
    x: Iu,
    low: int,
    high: int,
) -> bool {
    exists|k: int|
        0 <= k < pins.len() && (#[trigger] pins[k]).net@ != net && spec_near(
            pins[k].at.x as int,
            x as int,
        ) && low < pins[k].at.y < high
}

/// The offset bus at a given step: its column, and the place of the symbol that caps it.
pub open spec fn stack_bus_x(sc: Scene<'_>, first: Endpoint, step: int) -> Iu {
    spec_shift(
        first.pos.x as int,
        sign(first.dir.x as int),
        sc.cfg.spec_min_pin_exit() + step * sc.cfg.grid_mm,
    )
}

pub open spec fn stack_symbol_y(sc: Scene<'_>, top: Iu, bottom: Iu, down: bool) -> Iu {
    sat(
        if down {
            bottom + sc.cfg.power_stub_mm
        } else {
            top - sc.cfg.power_stub_mm
        },
    )
}

pub open spec fn upright(x: Iu, top: Iu, bottom: Iu) -> Seq<Point> {
    seq![Point { x, y: top }, Point { x, y: bottom }]
}

pub fn upright_of(x: Iu, top: Iu, bottom: Iu) -> (r: Vec<Point>)
    ensures
        r@ == upright(x, top, bottom),
{
    let r: Vec<Point> = vec![Point { x, y: top }, Point { x, y: bottom }];
    proof {
        assert(r@ =~= upright(x, top, bottom));
    }
    r
}

/// Can the stack be drawn on the bus of this step?
pub open spec fn stack_fits(
    sc: Scene<'_>,
    d: Drawing,
    eps: Seq<Endpoint>,
    run: Seq<usize>,
    net: Seq<char>,
    down: bool,
    step: int,
) -> bool {
    let top = eps[run[0] as int].pos.y;
    let bottom = eps[run.last() as int].pos.y;
    let x = stack_bus_x(sc, eps[run[0] as int], step);
    let symbol = Point { x, y: stack_symbol_y(sc, top, bottom, down) };
    taps_fit(sc, d, eps, run, x, net) && wire_fits(
        sc,
        d,
        upright(x, top, bottom),
        net,
        members_placed(eps, run),
    ) && graphic_clear(d.reg, power_box(net.len() as int, symbol, down), net)
}

/// The first step, at or after `step`, whose bus fits.
pub open spec fn stack_step(
    sc: Scene<'_>,
    d: Drawing,
    eps: Seq<Endpoint>,
    run: Seq<usize>,
    net: Seq<char>,
    down: bool,
    step: int,
) -> Option<int>
    decreases 9 - step,
{
    if step > 8 {
        None
    } else if stack_fits(sc, d, eps, run, net, down, step) {
        Some(step)
    } else {
        stack_step(sc, d, eps, run, net, down, step + 1)
    }
}

/// The stack on an offset bus, with the endpoint that stands for it; none where another rail
/// is interleaved or no column is free.
pub open spec fn offset_stack(
    sc: Scene<'_>,
    d: Drawing,
    eps: Seq<Endpoint>,
    run: Seq<usize>,
    net: String,
    up: bool,
) -> Option<(Drawing, Endpoint)> {
    let down = !up;
    let first = eps[run[0] as int];
    let last = eps[run.last() as int];
    let stub = sc.cfg.power_stub_mm;
    let low = if down {
        first.pos.y - EPS
    } else {
        first.pos.y - stub - EPS
    };
    let high = if down {
        last.pos.y + stub + EPS
    } else {
        last.pos.y + EPS
    };
    let end = if up {
        first
    } else {
        last
    };
    if stack_blocked(d.reg.pins, net@, first.pos.x, low, high) {
        None
    } else {
        match stack_step(sc, d, eps, run, net@, down, 0) {
            Some(step) => {
                let x = stack_bus_x(sc, first, step);
                Some(
                    (
                        d.bussed(eps, run, x, upright(x, first.pos.y, last.pos.y), net),
                        Endpoint {
                            placed: end.placed,
                            pad: end.pad,
                            pos: Point { x, y: end.pos.y },
                            dir: Point {
                                x: 0,
                                y: if down {
                                    1
                                } else {
                                    sat(-1)
                                },
                            },
                        },
                    ),
                )
            },
            None => None,
        }
    }
}

/// `n` grid steps beyond `base`, for the few steps that a search tries.
pub fn reach(base: i64, n: i64, g: Iu) -> (r: i64)
    requires
        -0x1_0000_0000 <= base <= 0x1_0000_0000,
        0 <= n <= 64,
    ensures
        r == base + n * g,
        -0x40_0000_0000 <= r <= 0x40_0000_0000,
{
    proof {
        assert(-0x20_0000_0000 <= n * g <= 0x20_0000_0000) by (nonlinear_arith)
            requires
                0 <= n <= 64,
                -0x8000_0000 <= g <= 0x7fff_ffff,
        ;
    }
    base + n * g as i64
}

impl Canvas {
    fn edge_blocked(&self, net: &String, x: Iu, low: i64, high: i64) -> (r: bool)
        ensures
            r == stack_blocked(self@.reg.pins, net@, x, low as int, high as int),
    {
        let mut k: usize = 0;
        while k < self.reg.pins.len()
            invariant
                k <= self.reg.pins.len(),
                forall|m: int|
                    0 <= m < k ==> !((#[trigger] self.reg.pins@[m]).net@ != net@ && spec_near(
                        self.reg.pins@[m].at.x as int,
                        x as int,
                    ) && low < self.reg.pins@[m].at.y < high),
            decreases self.reg.pins.len() - k,
        {
            let y: i64 = self.reg.pins[k].at.y as i64;
            if !self.reg.pins[k].net.is(net.as_str()) && near_coord(self.reg.pins[k].at.x, x) && low < y && y
                < high {
                return true;
            }
            k = k + 1;
        }
        false
    }

    /// Draw a stack of horizontal power pins on an offset bus, so that every pin leaves straight.
    pub fn try_offset_power_stack(
        &mut self,
        sc: &Scene,
        eps: &Vec<Endpoint>,
        run: &Vec<usize>,
        net: &String,
        up: bool,
    ) -> (r: Option<Endpoint>)
        requires
            sc.wf(),
            run@.len() > 0,
            forall|i: int| 0 <= i < run@.len() ==> #[trigger] run@[i] < eps@.len(),
        ensures
            match offset_stack(*sc, old(self)@, eps@, run@, *net, up) {
                Some((d, e)) => r == Some(e) && final(self)@ == d,
                None => r is None && final(self)@ == old(self)@,
            },
    {
        let down: bool = !up;
        let stub: i64 = sc.cfg.power_stub_mm as i64;
        let first: &Endpoint = &eps[run[0]];
        let last: &Endpoint = &eps[run[run.len() - 1]];
        let low: i64 = if down {
            first.pos.y as i64 - EPS
        } else {
            first.pos.y as i64 - stub - EPS
        };
        let high: i64 = if down {
            last.pos.y as i64 + stub + EPS
        } else {
            last.pos.y as i64 + EPS
        };
        if self.edge_blocked(net, first.pos.x, low, high) {
            return None;
        }
        let except: Vec<usize> = placed_of(eps, run);
        let exit: i64 = sc.cfg.min_pin_exit_mm() as i64;
        let symbol_y: Iu = to_iu(
            if down {
                last.pos.y as i64 + stub
            } else {
                first.pos.y as i64 - stub
            },
        );
        let mut step: i64 = 0;
        while step <= 8
            invariant
                0 <= step <= 9,
                sc.wf(),
                run@.len() > 0,
                forall|i: int| 0 <= i < run@.len() ==> #[trigger] run@[i] < eps@.len(),
                *self == *old(self),
                down == !up,
                *first == eps@[run@[0] as int],
                *last == eps@[run@.last() as int],
                except@ == members_placed(eps@, run@),
                exit == sc.cfg.spec_min_pin_exit(),
                symbol_y == stack_symbol_y(*sc, first.pos.y, last.pos.y, down),
                !stack_blocked(self@.reg.pins, net@, first.pos.x, low as int, high as int),
                low == (if down {
                    first.pos.y - EPS
                } else {
                    first.pos.y - sc.cfg.power_stub_mm - EPS
                }),
                high == (if down {
                    last.pos.y + sc.cfg.power_stub_mm + EPS
                } else {
                    last.pos.y + EPS
                }),
                stack_step(*sc, self@, eps@, run@, net@, down, 0) == stack_step(
                    *sc,
                    self@,
                    eps@,
                    run@,
                    net@,
                    down,
                    step as int,
                ),
            decreases 9 - step,
        {
            let far: i64 = reach(exit, step, sc.cfg.grid_mm);
            let x: Iu = shift(first.pos.x, sign_of(first.dir.x), far);
            let bus: Vec<Point> = upright_of(x, first.pos.y, last.pos.y);
            let b: BBox = power_symbol_graphic_box(net.as_str(), Point { x, y: symbol_y }, down);
            if self.taps_ok(sc, eps, run, x, net, &except) && self.wire_ok(sc, &bus, net, &except)
                && self.reg.graphic_box_clear(&b, net) {
                self.draw_bus(eps, run, x, bus, net);
                let end: &Endpoint = if up {
                    first
                } else {
                    last
                };
                let y: Iu = if down {
                    1
                } else {
                    -1
                };
                return Some(
                    Endpoint {
                        placed: end.placed,
                        pad: end.pad.clone(),
                        pos: Point { x, y: end.pos.y },
                        dir: Point { x: 0, y },
                    },
                );
            }
            step = step + 1;
        }
        None
    }
}

// ---------------------------------------------------------------- collapsing stacks

/// The positions of the members, one after the other.
pub open spec fn positions(eps: Seq<Endpoint>, run: Seq<usize>) -> Seq<Point> {
    Seq::new(run.len(), |i: int| eps[run[i] as int].pos)
}

/// One stack drawn, and the endpoint that stands for it. A single pin stands for itself; a
/// longer stack gets an offset bus where it can, else a bus through the pin ends.
pub open spec fn collapse_one(
    sc: Scene<'_>,
    d: Drawing,
    eps: Seq<Endpoint>,
    run: Seq<usize>,
    net: String,
    up: bool,
    power: bool,
) -> (Drawing, Endpoint) {
    let end = if up {
        eps[run[0] as int]
    } else {
        eps[run.last() as int]
    };
    let offset = offset_stack(sc, d, eps, run, net, up);
    if run.len() < 2 {
        (d, eps[run[0] as int])
    } else if power && eps[run[0] as int].dir.x != 0 && offset is Some {
        offset->0
    } else {
        (d.wired(positions(eps, run), net), end)
    }
}

/// The first `n` stacks drawn, and the endpoints that stand for them.
pub open spec fn collapse_upto(
    sc: Scene<'_>,
    d: Drawing,
    eps: Seq<Endpoint>,
    runs: Seq<Seq<usize>>,
    net: String,
    up: bool,
    power: bool,
    n: int,
) -> (Drawing, Seq<Endpoint>)
    decreases n,
{
    if n <= 0 || n > runs.len() {
        (d, Seq::empty())
    } else {
        let before = collapse_upto(sc, d, eps, runs, net, up, power, n - 1);
        let one = collapse_one(sc, before.0, eps, runs[n - 1], net, up, power);
        (one.0, before.1.push(one.1))
    }
}

/// All stacks of adjacent pins drawn, and the endpoints that stand for them.
pub open spec fn collapsed(
    sc: Scene<'_>,
    d: Drawing,
    eps: Seq<Endpoint>,
    net: String,
    up: bool,
    power: bool,
) -> (Drawing, Seq<Endpoint>) {
    let order = edge_order(eps);
    let runs = stacks(eps, order);
    collapse_upto(sc, d, eps, runs, net, up, power, runs.len() as int)
}

impl Canvas {
    /// Join each stack of adjacent pins of one component by a bus and keep one endpoint of it.
    pub fn collapse_stacked_pins(
        &mut self,
        sc: &Scene,
        eps: &Vec<Endpoint>,
        net: &String,
        up: bool,
        power: bool,
    ) -> (r: Vec<Endpoint>)
        requires
            sc.wf(),
        ensures
            (final(self)@, r@) == collapsed(*sc, old(self)@, eps@, *net, up, power),
    {
        let order: Vec<usize> = order_by_edge(eps);
        let runs: Vec<Vec<usize>> = cut_stacks(eps, &order);
        let ghost d0 = self@;
        let ghost rs = rows(runs@);
        let mut out: Vec<Endpoint> = Vec::new();
        let mut n: usize = 0;
        while n < runs.len()
            invariant
                n <= runs.len(),
                sc.wf(),
                rs == rows(runs@),
                rows_wf(rs, eps@.len() as int),
                (self@, out@) == collapse_upto(*sc, d0, eps@, rs, *net, up, power, n as int),
            decreases runs.len() - n,
        {
            let run: &Vec<usize> = &runs[n];
            proof {
                assert(rs[n as int] == run@);
            }
            let mut done: Option<Endpoint> = None;
            if run.len() < 2 {
                done = Some(copy_endpoint(&eps[run[0]]));
            } else if power && eps[run[0]].dir.x != 0 {
                done = self.try_offset_power_stack(sc, eps, run, net, up);
            }
            let rep: Endpoint = match done {
                Some(e) => e,
                None => {
                    let mut points: Vec<Point> = Vec::new();
                    let mut i: usize = 0;
                    while i < run.len()
                        invariant
                            i <= run.len(),
                            forall|i: int| 0 <= i < run@.len() ==> #[trigger] run@[i] < eps@.len(),
                            points@ =~= positions(eps@, run@).take(i as int),
                        decreases run.len() - i,
                    {
                        points.push(eps[run[i]].pos);
                        i = i + 1;
                    }
                    proof {
                        assert(points@ =~= positions(eps@, run@));
                    }
                    self.wire(points, net);
                    if up {
                        copy_endpoint(&eps[run[0]])
                    } else {
                        copy_endpoint(&eps[run[run.len() - 1]])
                    }
                },
            };
            out.push(rep);
            n = n + 1;
        }
        out
    }
}

/// Stacks are made of endpoints, and so are the endpoints that stand for them.
pub proof fn lemma_collapsed_wf(
    sc: Scene<'_>,
    d: Drawing,
    eps: Seq<Endpoint>,
    net: String,
    up: bool,
    power: bool,
)
    requires
        endpoints_wf(sc, eps),
    ensures
        endpoints_wf(sc, collapsed(sc, d, eps, net, up, power).1),
{
    let order = edge_order(eps);
    let gt = |a: usize, b: usize| edge_after(eps[a as int], eps[b as int]);
    let joins = |a: usize, b: usize| stacks_on(eps, a, b);
    lemma_sorted_items(upto(eps.len() as int), gt, |i: usize| i < eps.len());
    lemma_runs_wf(order, joins, order.len() as int, eps.len() as int);
    let runs = stacks(eps, order);
    lemma_collapse_wf(sc, d, eps, runs, net, up, power, runs.len() as int);
}

pub proof fn lemma_runs_wf(order: Seq<usize>, joins: spec_fn(usize, usize) -> bool, n: int, top: int)
    requires
        0 <= n <= order.len(),
        forall|i: int| 0 <= i < order.len() ==> #[trigger] order[i] < top,
    ensures
        rows_wf(runs_by(order, joins, n), top),
        n > 0 ==> runs_by(order, joins, n).len() > 0,
    decreases n,
{
    if n > 0 {
        lemma_runs_wf(order, joins, n - 1, top);
        let before = runs_by(order, joins, n - 1);
        let r = runs_by(order, joins, n);
        assert forall|i: int| 0 <= i < r.len() implies (#[trigger] r[i]).len() > 0 && forall|j: int|
            0 <= j < r[i].len() ==> #[trigger] r[i][j] < top by {
            if i < before.len() - 1 {
                assert(r[i] == before[i]);
            } else if n >= 2 && joins(order[n - 2], order[n - 1]) {
                assert(r[i] == before[i].push(order[n - 1]));
            } else if i < before.len() {
                assert(r[i] == before[i]);
            } else {
                assert(r[i] == seq![order[n - 1]]);
            }
        }
    }
}

proof fn lemma_collapse_wf(
    sc: Scene<'_>,
    d: Drawing,
    eps: Seq<Endpoint>,
    runs: Seq<Seq<usize>>,
    net: String,
    up: bool,
    power: bool,
    n: int,
)
    requires
        endpoints_wf(sc, eps),
        rows_wf(runs, eps.len() as int),
        0 <= n <= runs.len(),
    ensures
        endpoints_wf(sc, collapse_upto(sc, d, eps, runs, net, up, power, n).1),
    decreases n,
{
    if n > 0 {
        lemma_collapse_wf(sc, d, eps, runs, net, up, power, n - 1);
        let run = runs[n - 1];
        assert(run[0] < eps.len());
        assert(run[run.len() - 1] < eps.len());
        assert(eps[run[0] as int].placed < sc.model.placed@.len());
        assert(eps[run.last() as int].placed < sc.model.placed@.len());
    }
}

} // verus!
