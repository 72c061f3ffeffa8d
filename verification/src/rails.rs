//! Symbols on power and ground pins: shared banks, aligned rows, and the choice of each stub.

use vstd::prelude::*;
use crate::canvas::{list_has, lists, wire_fits, Canvas, Drawing, Endpoint, PowerSymbol, PwrFlag, Scene};
use crate::geometry::BBox;
use crate::glyphs::{
    attachment, flag_box, half_text, half_text_of, power_attachment, power_box, power_leg,
    power_symbol_graphic_box, pwr_flag_box, Attachment,
};
use crate::order::{cut_runs, lemma_sorted_items, rows, rows_wf, runs_by, sort_by, sorted_by};
use crate::pins::endpoints_wf;
use crate::power::{members_placed, reach, sign, sign_of, tap, taps_fit, upright};
use crate::registry::{graphic_clear, well_spaced};
use crate::units::{nearest_steps, round_steps, sat, shift, spec_shift, to_iu, Iu, Point};

verus! {

// ---------------------------------------------------------------- flags

/// Place `i` for the flag of a symbol: right and left in turn (or left and right), ever farther.
pub open spec fn flag_site(sc: Scene<'_>, n: int, at: Point, left: bool, i: int) -> Point {
    let base = sc.cfg.spec_snap_up(half_text(n) + 12700);
    let far = base + 25400 * (i / 2);
    Point {
        x: sat(
            if left == (i % 2 == 1) {
                at.x + far
            } else {
                at.x - far
            },
        ),
        y: at.y,
    }
}

pub open spec fn flag_fits(sc: Scene<'_>, d: Drawing, net: Seq<char>, at: Point, site: Point) -> bool {
    wire_fits(sc, d, seq![at, site], net, Seq::empty()) && graphic_clear(
        d.reg,
        flag_box(site, 0),
        net,
    )
}

/// The first fitting place for the flag, at or after place `i`; the first place of all where
/// none fits.
pub open spec fn flag_choice(
    sc: Scene<'_>,
    d: Drawing,
    net: Seq<char>,
    at: Point,
    left: bool,
    i: int,
) -> Point
    decreases 8 - i,
{
    let site = flag_site(sc, net.len() as int, at, left, i);
    if i < 0 || i >= 8 {
        flag_site(sc, net.len() as int, at, left, 0)
    } else if flag_fits(sc, d, net, at, site) {
        site
    } else {
        flag_choice(sc, d, net, at, left, i + 1)
    }
}

impl Drawing {
    /// With a flag chained to the symbol at `at`.
    pub open spec fn flagged(self, sc: Scene<'_>, net: String, at: Point, left: bool) -> Drawing {
        let site = flag_choice(sc, self, net@, at, left, 0);
        let d = self.wired(seq![at, site], net).occupied(flag_box(site, 0), net);
        Drawing { pwr_flags: d.pwr_flags.push(PwrFlag { at: site, rotation: 0 }), ..d }
    }
}

impl Canvas {
    /// Chain a flag to the symbol at `at`.
    pub fn attach_pwr_flag(&mut self, sc: &Scene, net: &String, at: Point, left: bool)
        requires
            sc.wf(),
        ensures
            final(self)@ == old(self)@.flagged(*sc, *net, at, left),
    {
        let base: i64 = sc.cfg.snap_up(half_text_of(net.as_str()) + 12700) as i64;
        let none: Vec<usize> = Vec::new();
        let ghost n = net@.len() as int;
        let mut chosen: Point = Point {
            x: to_iu(
                if left {
                    at.x as i64 - base
                } else {
                    at.x as i64 + base
                },
            ),
            y: at.y,
        };
        let ghost start = chosen;
        let mut found: bool = false;
        let mut i: i64 = 0;
        while i < 8 && !found
            invariant
                0 <= i <= 8,
                sc.wf(),
                *self == *old(self),
                n == net@.len(),
                none@ == Seq::<usize>::empty(),
                base == sc.cfg.spec_snap_up(half_text(n) + 12700),
                start == flag_site(*sc, n, at, left, 0),
                !found ==> chosen == start && flag_choice(*sc, self@, net@, at, left, 0)
                    == flag_choice(*sc, self@, net@, at, left, i as int),
                found ==> chosen == flag_choice(*sc, self@, net@, at, left, 0),
            decreases
                    8 - i,
                    if found {
                        0int
                    } else {
                        1
                    },
        {
            let far: i64 = base + 25400 * (i / 2);
            let site: Point = Point {
                x: to_iu(
                    if left == (i % 2 == 1) {
                        at.x as i64 + far
                    } else {
                        at.x as i64 - far
                    },
                ),
                y: at.y,
            };
            let path: Vec<Point> = vec![at, site];
            proof {
                assert(path@ =~= seq![at, site]);
            }
            let b: BBox = pwr_flag_box(site, 0);
            if self.wire_ok(sc, &path, net, &none) && self.reg.graphic_box_clear(&b, net) {
                chosen = site;
                found = true;
            } else {
                i = i + 1;
            }
        }
        let path: Vec<Point> = vec![at, chosen];
        proof {
            assert(path@ =~= seq![at, chosen]);
        }
        self.wire(path, net);
        self.occupy(pwr_flag_box(chosen, 0), net);
        self.out.pwr_flags.push(PwrFlag { at: chosen, rotation: 0 });
    }
}

/// The first symbol of an undriven rail gets the flag; on a sheet with a utility band the rail
/// is only noted.
pub open spec fn flag_once(
    sc: Scene<'_>,
    d: Drawing,
    noted: Seq<String>,
    undriven: Seq<String>,
    net: String,
    at: Point,
    left: bool,
) -> (Drawing, Seq<String>) {
    if lists(undriven, net@) && !lists(noted, net@) {
        (
            if sc.model.relegate {
                d
            } else {
                d.flagged(sc, net, at, left)
            },
            noted.push(net),
        )
    } else {
        (d, noted)
    }
}

impl Canvas {
    pub fn flag_symbol(
        &mut self,
        sc: &Scene,
        noted: &mut Vec<String>,
        undriven: &Vec<String>,
        net: &String,
        at: Point,
        left: bool,
    )
        requires
            sc.wf(),
        ensures
            (final(self)@, final(noted)@) == flag_once(
                *sc,
                old(self)@,
                old(noted)@,
                undriven@,
                *net,
                at,
                left,
            ),
    {
        if list_has(undriven, net) && !list_has(noted, net) {
            noted.push(net.clone());
            if !sc.model.relegate {
                self.attach_pwr_flag(sc, net, at, left);
            }
        }
    }
}

// ---------------------------------------------------------------- banks of pins

/// Column of a pin, to a hundredth of a millimetre.
pub open spec fn column(e: Endpoint) -> int {
    round_steps(e.pos.x as int, 100)
}

/// Two sideways pins on one edge of one component.
pub open spec fn same_bank(a: Endpoint, b: Endpoint) -> bool {
    a.placed == b.placed && sign(a.dir.x as int) == sign(b.dir.x as int) && column(a) == column(b)
}

/// Order of sideways pins: by component, side, column and height.
pub open spec fn bank_after(a: Endpoint, b: Endpoint) -> bool {
    if a.placed != b.placed {
        a.placed > b.placed
    } else if sign(a.dir.x as int) != sign(b.dir.x as int) {
        sign(a.dir.x as int) > sign(b.dir.x as int)
    } else if column(a) != column(b) {
        column(a) > column(b)
    } else {
        a.pos.y > b.pos.y
    }
}

/// The sideways pins among the first `n` endpoints.
pub open spec fn sideways(eps: Seq<Endpoint>, n: int) -> Seq<usize>
    decreases n,
{
    if n <= 0 || n > eps.len() {
        Seq::empty()
    } else if eps[n - 1].dir.x != 0 {
        sideways(eps, n - 1).push((n - 1) as usize)
    } else {
        sideways(eps, n - 1)
    }
}

/// The banks of sideways pins.
pub open spec fn banks(eps: Seq<Endpoint>) -> Seq<Seq<usize>> {
    let order = sorted_by(
        sideways(eps, eps.len() as int),
        |a: usize, b: usize| bank_after(eps[a as int], eps[b as int]),
    );
    runs_by(
        order,
        |a: usize, b: usize| same_bank(eps[a as int], eps[b as int]),
        order.len() as int,
    )
}

fn cut_banks(eps: &Vec<Endpoint>) -> (r: Vec<Vec<usize>>)
    ensures
        rows(r@) == banks(eps@),
        rows_wf(rows(r@), eps@.len() as int),
{
    let mut side: Vec<usize> = Vec::new();
    let mut n: usize = 0;
    while n < eps.len()
        invariant
            n <= eps.len(),
            side@ == sideways(eps@, n as int),
            forall|i: int| 0 <= i < side@.len() ==> #[trigger] side@[i] < eps@.len(),
        decreases eps.len() - n,
    {
        if eps[n].dir.x != 0 {
            side.push(n);
        }
        n = n + 1;
    }
    let ghost gt = |a: usize, b: usize| bank_after(eps@[a as int], eps@[b as int]);
    let ghost same = |a: usize, b: usize| same_bank(eps@[a as int], eps@[b as int]);
    let after = |p: usize, q: usize| -> (r: bool)
        requires
            p < eps@.len(),
            q < eps@.len(),
        ensures
            r == bank_after(eps@[p as int], eps@[q as int]),
        {
            let a: &Endpoint = &eps[p];
            let b: &Endpoint = &eps[q];
            let ca: i64 = nearest_steps(a.pos.x, 100);
            let cb: i64 = nearest_steps(b.pos.x, 100);
            if a.placed != b.placed {
                a.placed > b.placed
            } else if sign_of(a.dir.x) != sign_of(b.dir.x) {
                sign_of(a.dir.x) > sign_of(b.dir.x)
            } else if ca != cb {
                ca > cb
            } else {
                a.pos.y > b.pos.y
            }
        };
    let order: Vec<usize> = sort_by(&side, after, Ghost(gt));
    proof {
        lemma_sorted_items(side@, gt, |i: usize| i < eps@.len());
    }
    let joins = |p: usize, q: usize| -> (r: bool)
        requires
            p < eps@.len(),
            q < eps@.len(),
        ensures
            r == same_bank(eps@[p as int], eps@[q as int]),
        {
            let a: &Endpoint = &eps[p];
            let b: &Endpoint = &eps[q];
            a.placed == b.placed && sign_of(a.dir.x) == sign_of(b.dir.x) && nearest_steps(
                a.pos.x,
                100,
            ) == nearest_steps(b.pos.x, 100)
        };
    cut_runs(&order, joins, Ghost(same), Ghost(eps@.len() as int))
}

pub open spec fn bank_x(sc: Scene<'_>, first: Endpoint, step: int) -> Iu {
    spec_shift(
        first.pos.x as int,
        sign(first.dir.x as int),
        power_leg(*sc.cfg) + step * sc.cfg.grid_mm,
    )
}

/// Height of the symbol that a bank shares; a rail is lifted by one more grid step.
pub open spec fn bank_symbol_y(sc: Scene<'_>, top: Iu, bottom: Iu, down: bool) -> Iu {
    sat(
        if down {
            bottom + sc.cfg.power_stub_mm
        } else {
            top - sc.cfg.power_stub_mm - sc.cfg.grid_mm
        },
    )
}

/// The bus of a bank, from its far pin to its symbol.
pub open spec fn bank_bus(x: Iu, top: Iu, bottom: Iu, y: Iu, down: bool) -> Seq<Point> {
    if down {
        upright(x, top, y)
    } else {
        upright(x, y, bottom)
    }
}

/// Every tap of the bank keeps its distance from other nets.
pub open spec fn taps_spaced(
    sc: Scene<'_>,
    d: Drawing,
    eps: Seq<Endpoint>,
    run: Seq<usize>,
    x: Iu,
    net: Seq<char>,
) -> bool {
    forall|i: int|
        0 <= i < run.len() ==> well_spaced(
            *sc.cfg,
            d.reg.segs,
            tap(eps[#[trigger] run[i] as int], x),
            net,
        )
}

/// Can the bank be drawn on the bus of this step?
pub open spec fn bank_fits(
    sc: Scene<'_>,
    d: Drawing,
    eps: Seq<Endpoint>,
    run: Seq<usize>,
    net: Seq<char>,
    down: bool,
    step: int,
) -> bool {
    let top = eps[run[0] as int].pos.y;
    let bottom = eps[run.last() as int].pos.y;
    let x = bank_x(sc, eps[run[0] as int], step);
    let y = bank_symbol_y(sc, top, bottom, down);
    let bus = bank_bus(x, top, bottom, y, down);
    taps_fit(sc, d, eps, run, x, net) && wire_fits(sc, d, bus, net, members_placed(eps, run))
        && graphic_clear(d.reg, power_box(net.len() as int, Point { x, y }, down), net)
        && taps_spaced(sc, d, eps, run, x, net) && well_spaced(*sc.cfg, d.reg.segs, bus, net)
}

/// The first step, at or after `step`, whose bus fits.
pub open spec fn bank_step(
    sc: Scene<'_>,
    d: Drawing,
    eps: Seq<Endpoint>,
    run: Seq<usize>,
    net: Seq<char>,
    down: bool,
    step: int,
) -> Option<int>
    decreases 9 - step,
{
    if step > 8 {
        None
    } else if bank_fits(sc, d, eps, run, net, down, step) {
        Some(step)
    } else {
        bank_step(sc, d, eps, run, net, down, step + 1)
    }
}

impl Drawing {
    /// With a power symbol and the box it takes.
    pub open spec fn with_symbol(self, net: String, at: Point, down: bool) -> Drawing {
        let d = self.occupied(power_box(net@.len() as int, at, down), net);
        Drawing { power_symbols: d.power_symbols.push(PowerSymbol { net, at, down }), ..d }
    }
}

impl Canvas {
    pub fn add_symbol(&mut self, net: &String, at: Point, down: bool)
        ensures
            final(self)@ == old(self)@.with_symbol(*net, at, down),
    {
        self.occupy(power_symbol_graphic_box(net.as_str(), at, down), net);
        self.out.power_symbols.push(PowerSymbol { net: net.clone(), at, down });
    }
}

/// What the power pass has done so far with a net.
pub struct BankState {
    pub d: Drawing,
    pub noted: Seq<String>,
    pub served: Seq<usize>,
}

/// One bank under a shared symbol, where it has two pins and a free column.
pub open spec fn bank_one(
    sc: Scene<'_>,
    st: BankState,
    eps: Seq<Endpoint>,
    run: Seq<usize>,
    net: String,
    down: bool,
    undriven: Seq<String>,
) -> BankState {
    let first = eps[run[0] as int];
    let last = eps[run.last() as int];
    if run.len() < 2 {
        st
    } else {
        match bank_step(sc, st.d, eps, run, net@, down, 0) {
            Some(step) => {
                let x = bank_x(sc, first, step);
                let y = bank_symbol_y(sc, first.pos.y, last.pos.y, down);
                let bus = bank_bus(x, first.pos.y, last.pos.y, y, down);
                let at = Point { x, y };
                let d = st.d.bussed(eps, run, x, bus, net).with_symbol(net, at, down);
                let f = flag_once(sc, d, st.noted, undriven, net, at, first.dir.x < 0);
                BankState { d: f.0, noted: f.1, served: st.served + run }
            },
            None => st,
        }
    }
}

/// The first `n` banks.
pub open spec fn banks_upto(
    sc: Scene<'_>,
    st: BankState,
    eps: Seq<Endpoint>,
    runs: Seq<Seq<usize>>,
    net: String,
    down: bool,
    undriven: Seq<String>,
    n: int,
) -> BankState
    decreases n,
{
    if n <= 0 || n > runs.len() {
        st
    } else {
        bank_one(
            sc,
            banks_upto(sc, st, eps, runs, net, down, undriven, n - 1),
            eps,
            runs[n - 1],
            net,
            down,
            undriven,
        )
    }
}

impl Canvas {
    fn taps_clear(
        &self,
        sc: &Scene,
        eps: &Vec<Endpoint>,
        run: &Vec<usize>,
        x: Iu,
        net: &String,
    ) -> (r: bool)
        requires
            forall|i: int| 0 <= i < run@.len() ==> #[trigger] run@[i] < eps@.len(),
        ensures
            r == taps_spaced(*sc, self@, eps@, run@, x, net@),
    {
        let mut i: usize = 0;
        while i < run.len()
            invariant
                i <= run.len(),
                forall|i: int| 0 <= i < run@.len() ==> #[trigger] run@[i] < eps@.len(),
                forall|k: int|
                    0 <= k < i ==> well_spaced(
                        *sc.cfg,
                        self@.reg.segs,
                        tap(eps@[#[trigger] run@[k] as int], x),
                        net@,
                    ),
            decreases run.len() - i,
        {
            let t: Vec<Point> = crate::power::tap_of(&eps[run[i]], x);
            if !self.reg.parallel_clear(sc.cfg, &t, net) {
                return false;
            }
            i = i + 1;
        }
        true
    }

    fn merge_bank(
        &mut self,
        sc: &Scene,
        eps: &Vec<Endpoint>,
        run: &Vec<usize>,
        net: &String,
        down: bool,
        undriven: &Vec<String>,
        noted: &mut Vec<String>,
        served: &mut Vec<usize>,
    )
        requires
            sc.wf(),
            run@.len() > 0,
            forall|i: int| 0 <= i < run@.len() ==> #[trigger] run@[i] < eps@.len(),
        ensures
            (BankState { d: final(self)@, noted: final(noted)@, served: final(served)@ })
                == bank_one(
                *sc,
                (BankState { d: old(self)@, noted: old(noted)@, served: old(served)@ }),
                eps@,
                run@,
                *net,
                down,
                undriven@,
            ),
    {
        if run.len() < 2 {
            return;
        }
        let first: &Endpoint = &eps[run[0]];
        let last: &Endpoint = &eps[run[run.len() - 1]];
        let except: Vec<usize> = crate::power::placed_of(eps, run);
        let exit: i64 = sc.cfg.min_pin_exit_mm() as i64;
        let stub: i64 = sc.cfg.power_stub_mm as i64;
        let leg: i64 = if stub >= exit {
            stub
        } else {
            exit
        };
        let y: Iu = to_iu(
            if down {
                last.pos.y as i64 + stub
            } else {
                first.pos.y as i64 - stub - sc.cfg.grid_mm as i64
            },
        );
        let mut step: i64 = 0;
        while step <= 8
            invariant
                0 <= step <= 9,
                sc.wf(),
                run@.len() >= 2,
                forall|i: int| 0 <= i < run@.len() ==> #[trigger] run@[i] < eps@.len(),
                *self == *old(self),
                noted@ == old(noted)@,
                served@ == old(served)@,
                *first == eps@[run@[0] as int],
                *last == eps@[run@.last() as int],
                except@ == members_placed(eps@, run@),
                leg == power_leg(*sc.cfg),
                y == bank_symbol_y(*sc, first.pos.y, last.pos.y, down),
                bank_step(*sc, self@, eps@, run@, net@, down, 0) == bank_step(
                    *sc,
                    self@,
                    eps@,
                    run@,
                    net@,
                    down,
                    step as int,
                ),
            decreases 9 - step,
        {
            let far: i64 = reach(leg, step, sc.cfg.grid_mm);
            let x: Iu = shift(first.pos.x, sign_of(first.dir.x), far);
            let bus: Vec<Point> = if down {
                crate::power::upright_of(x, first.pos.y, y)
            } else {
                crate::power::upright_of(x, y, last.pos.y)
            };
            let at: Point = Point { x, y };
            let b: BBox = power_symbol_graphic_box(net.as_str(), at, down);
            if self.taps_ok(sc, eps, run, x, net, &except) && self.wire_ok(sc, &bus, net, &except)
                && self.reg.graphic_box_clear(&b, net) && self.taps_clear(sc, eps, run, x, net)
                && self.reg.parallel_clear(sc.cfg, &bus, net) {
                self.draw_bus(eps, run, x, bus, net);
                self.add_symbol(net, at, down);
                self.flag_symbol(sc, noted, undriven, net, at, first.dir.x < 0);
                let mut i: usize = 0;
                proof {
                    assert(served@ =~= old(served)@ + run@.take(0));
                }
                while i < run.len()
                    invariant
                        i <= run.len(),
                        served@ == old(served)@ + run@.take(i as int),
                    decreases run.len() - i,
                {
                    served.push(run[i]);
                    i = i + 1;
                    proof {
                        assert(served@ =~= old(served)@ + run@.take(i as int));
                    }
                }
                proof {
                    assert(run@.take(i as int) =~= run@);
                }
                return;
            }
            step = step + 1;
        }
    }

    /// Serve the banks of a net with one shared symbol each.
    pub fn merge_power_banks(
        &mut self,
        sc: &Scene,
        eps: &Vec<Endpoint>,
        net: &String,
        down: bool,
        undriven: &Vec<String>,
        noted: &mut Vec<String>,
    ) -> (served: Vec<usize>)
        requires
            sc.wf(),
        ensures
            (BankState { d: final(self)@, noted: final(noted)@, served: served@ }) == banks_upto(
                *sc,
                (BankState { d: old(self)@, noted: old(noted)@, served: Seq::empty() }),
                eps@,
                banks(eps@),
                *net,
                down,
                undriven@,
                banks(eps@).len() as int,
            ),
    {
        let runs: Vec<Vec<usize>> = cut_banks(eps);
        let ghost rs = rows(runs@);
        let ghost st = BankState { d: self@, noted: noted@, served: Seq::empty() };
        let mut served: Vec<usize> = Vec::new();
        let mut n: usize = 0;
        while n < runs.len()
            invariant
                n <= runs.len(),
                sc.wf(),
                rs == rows(runs@),
                rs == banks(eps@),
                rows_wf(rs, eps@.len() as int),
                (BankState { d: self@, noted: noted@, served: served@ }) == banks_upto(
                    *sc,
                    st,
                    eps@,
                    rs,
                    *net,
                    down,
                    undriven@,
                    n as int,
                ),
            decreases runs.len() - n,
        {
            let run: &Vec<usize> = &runs[n];
            proof {
                assert(rs[n as int] == run@);
            }
            self.merge_bank(sc, eps, run, net, down, undriven, noted, &mut served);
            n = n + 1;
        }
        served
    }
}

// ---------------------------------------------------------------- aligned rows

/// Height of the symbol of an endpoint before any alignment.
pub open spec fn base_y(sc: Scene<'_>, e: Endpoint, down: bool) -> Iu {
    attachment(*sc.cfg, e.pos, e.dir, down, 0, 0).symbol_at.y
}

/// May the endpoint share a row of symbols? Pins of the utility band and pins that point away
/// from the symbol may not.
pub open spec fn may_align(sc: Scene<'_>, e: Endpoint, down: bool) -> bool {
    !sc.model.placed@[e.placed as int].relegated && (e.dir.y == 0 || (down && e.dir.y > 0) || (!down
        && e.dir.y < 0))
}

/// The endpoints among the first `n` that may share a row.
pub open spec fn alignable(sc: Scene<'_>, eps: Seq<Endpoint>, down: bool, n: int) -> Seq<usize>
    decreases n,
{
    if n <= 0 || n > eps.len() {
        Seq::empty()
    } else if may_align(sc, eps[n - 1], down) {
        alignable(sc, eps, down, n - 1).push((n - 1) as usize)
    } else {
        alignable(sc, eps, down, n - 1)
    }
}

/// Order by height, then by column.
pub open spec fn lower_than(ys: Seq<Iu>, eps: Seq<Endpoint>, a: usize, b: usize) -> bool {
    if ys[a as int] != ys[b as int] {
        ys[a as int] > ys[b as int]
    } else {
        eps[a as int].pos.x > eps[b as int].pos.x
    }
}

/// Order by column, then by height.
pub open spec fn right_of(ys: Seq<Iu>, eps: Seq<Endpoint>, a: usize, b: usize) -> bool {
    if eps[a as int].pos.x != eps[b as int].pos.x {
        eps[a as int].pos.x > eps[b as int].pos.x
    } else {
        ys[a as int] > ys[b as int]
    }
}

/// The bands of endpoints whose symbols lie at nearly one height.
pub open spec fn bands(sc: Scene<'_>, eps: Seq<Endpoint>, ys: Seq<Iu>, down: bool) -> Seq<
    Seq<usize>,
> {
    let order = sorted_by(
        alignable(sc, eps, down, eps.len() as int),
        |a: usize, b: usize| lower_than(ys, eps, a, b),
    );
    runs_by(
        order,
        |a: usize, b: usize| ys[b as int] - ys[a as int] <= sc.cfg.power_align_max_dy_mm,
        order.len() as int,
    )
}

/// The rows of a band: cut at wide holes, unless symbols align whatever their distance.
pub open spec fn band_rows(sc: Scene<'_>, eps: Seq<Endpoint>, ys: Seq<Iu>, band: Seq<usize>) -> Seq<
    Seq<usize>,
> {
    let order = sorted_by(band, |a: usize, b: usize| right_of(ys, eps, a, b));
    runs_by(
        order,
        |a: usize, b: usize|
            sc.cfg.align_power_by_potential || eps[b as int].pos.x - eps[a as int].pos.x
                <= sc.cfg.power_align_max_dx_mm,
        order.len() as int,
    )
}

/// Is there a member of the row in the same column?
pub open spec fn column_taken(eps: Seq<Endpoint>, row: Seq<usize>, x: Iu) -> bool {
    exists|i: int| 0 <= i < row.len() && eps[#[trigger] row[i] as int].pos.x == x
}

/// The first member of the row in each column, among its first `n` members.
pub open spec fn columns_of(eps: Seq<Endpoint>, row: Seq<usize>, n: int) -> Seq<usize>
    decreases n,
{
    if n <= 0 || n > row.len() {
        Seq::empty()
    } else {
        let before = columns_of(eps, row, n - 1);
        if column_taken(eps, before, eps[row[n - 1] as int].pos.x) {
            before
        } else {
            before.push(row[n - 1])
        }
    }
}

/// Least height among the first `n` members.
pub open spec fn row_min(ys: Seq<Iu>, row: Seq<usize>, n: int) -> Iu
    decreases n,
{
    if n <= 0 || n > row.len() {
        i32::MAX
    } else if ys[row[n - 1] as int] < row_min(ys, row, n - 1) {
        ys[row[n - 1] as int]
    } else {
        row_min(ys, row, n - 1)
    }
}

/// Greatest height among the first `n` members.
pub open spec fn row_max(ys: Seq<Iu>, row: Seq<usize>, n: int) -> Iu
    decreases n,
{
    if n <= 0 || n > row.len() {
        i32::MIN
    } else if ys[row[n - 1] as int] > row_max(ys, row, n - 1) {
        ys[row[n - 1] as int]
    } else {
        row_max(ys, row, n - 1)
    }
}

/// The common height of a row: the lowest one for grounds, the highest one for rails; none for
/// a row of one column or one that is too tall.
pub open spec fn row_target(sc: Scene<'_>, ys: Seq<Iu>, kept: Seq<usize>, down: bool) -> Option<Iu> {
    let low = row_min(ys, kept, kept.len() as int);
    let high = row_max(ys, kept, kept.len() as int);
    if kept.len() < 2 || high - low > sc.cfg.power_align_max_dy_mm {
        None
    } else if down {
        Some(high)
    } else {
        Some(low)
    }
}

/// `targets` with the height assigned to the first `n` members.
pub open spec fn assigned(targets: Seq<Option<Iu>>, kept: Seq<usize>, y: Iu, n: int) -> Seq<
    Option<Iu>,
>
    decreases n,
{
    if n <= 0 || n > kept.len() {
        targets
    } else {
        assigned(targets, kept, y, n - 1).update(kept[n - 1] as int, Some(y))
    }
}

pub open spec fn row_assigned(
    sc: Scene<'_>,
    eps: Seq<Endpoint>,
    ys: Seq<Iu>,
    row: Seq<usize>,
    down: bool,
    targets: Seq<Option<Iu>>,
) -> Seq<Option<Iu>> {
    let kept = columns_of(eps, row, row.len() as int);
    match row_target(sc, ys, kept, down) {
        Some(y) => assigned(targets, kept, y, kept.len() as int),
        None => targets,
    }
}

pub open spec fn rows_assigned(
    sc: Scene<'_>,
    eps: Seq<Endpoint>,
    ys: Seq<Iu>,
    rs: Seq<Seq<usize>>,
    down: bool,
    targets: Seq<Option<Iu>>,
    n: int,
) -> Seq<Option<Iu>>
    decreases n,
{
    if n <= 0 || n > rs.len() {
        targets
    } else {
        row_assigned(
            sc,
            eps,
            ys,
            rs[n - 1],
            down,
            rows_assigned(sc, eps, ys, rs, down, targets, n - 1),
        )
    }
}

pub open spec fn bands_assigned(
    sc: Scene<'_>,
    eps: Seq<Endpoint>,
    ys: Seq<Iu>,
    bs: Seq<Seq<usize>>,
    down: bool,
    n: int,
) -> Seq<Option<Iu>>
    decreases n,
{
    if n <= 0 || n > bs.len() {
        Seq::new(eps.len(), |i: int| None)
    } else {
        let rs = band_rows(sc, eps, ys, bs[n - 1]);
        rows_assigned(
            sc,
            eps,
            ys,
            rs,
            down,
            bands_assigned(sc, eps, ys, bs, down, n - 1),
            rs.len() as int,
        )
    }
}

/// The heights before alignment.
pub open spec fn base_heights(sc: Scene<'_>, eps: Seq<Endpoint>, down: bool) -> Seq<Iu> {
    Seq::new(eps.len(), |i: int| base_y(sc, eps[i], down))
}

/// The height that each endpoint's symbol is aligned to.
pub open spec fn align_targets(sc: Scene<'_>, eps: Seq<Endpoint>, down: bool) -> Seq<Option<Iu>> {
    let ys = base_heights(sc, eps, down);
    let bs = bands(sc, eps, ys, down);
    bands_assigned(sc, eps, ys, bs, down, bs.len() as int)
}

fn align_row(
    sc: &Scene,
    eps: &Vec<Endpoint>,
    ys: &Vec<Iu>,
    row: &Vec<usize>,
    down: bool,
    targets: &mut Vec<Option<Iu>>,
)
    requires
        ys@.len() == eps@.len(),
        old(targets)@.len() == eps@.len(),
        forall|i: int| 0 <= i < row@.len() ==> #[trigger] row@[i] < eps@.len(),
    ensures
        final(targets)@ == row_assigned(*sc, eps@, ys@, row@, down, old(targets)@),
        final(targets)@.len() == eps@.len(),
{
    let mut kept: Vec<usize> = Vec::new();
    let mut n: usize = 0;
    while n < row.len()
        invariant
            n <= row.len(),
            forall|i: int| 0 <= i < row@.len() ==> #[trigger] row@[i] < eps@.len(),
            kept@ == columns_of(eps@, row@, n as int),
            forall|i: int| 0 <= i < kept@.len() ==> #[trigger] kept@[i] < eps@.len(),
        decreases row.len() - n,
    {
        let x: Iu = eps[row[n]].pos.x;
        let mut taken: bool = false;
        let mut i: usize = 0;
        while i < kept.len()
            invariant
                i <= kept.len(),
                forall|i: int| 0 <= i < kept@.len() ==> #[trigger] kept@[i] < eps@.len(),
                taken == exists|k: int| 0 <= k < i && eps@[#[trigger] kept@[k] as int].pos.x == x,
            decreases kept.len() - i,
        {
            if eps[kept[i]].pos.x == x {
                taken = true;
            }
            i = i + 1;
        }
        if !taken {
            kept.push(row[n]);
        }
        n = n + 1;
    }
    if kept.len() < 2 {
        return;
    }
    let mut low: Iu = 2147483647;
    let mut high: Iu = -2147483648;
    let mut n: usize = 0;
    while n < kept.len()
        invariant
            n <= kept.len(),
            ys@.len() == eps@.len(),
            forall|i: int| 0 <= i < kept@.len() ==> #[trigger] kept@[i] < eps@.len(),
            low == row_min(ys@, kept@, n as int),
            high == row_max(ys@, kept@, n as int),
        decreases kept.len() - n,
    {
        let y: Iu = ys[kept[n]];
        if y < low {
            low = y;
        }
        if y > high {
            high = y;
        }
        n = n + 1;
    }
    if high as i64 - low as i64 > sc.cfg.power_align_max_dy_mm as i64 {
        return;
    }
    let y: Iu = if down {
        high
    } else {
        low
    };
    let mut n: usize = 0;
    while n < kept.len()
        invariant
            n <= kept.len(),
            forall|i: int| 0 <= i < kept@.len() ==> #[trigger] kept@[i] < eps@.len(),
            targets@.len() == eps@.len(),
            targets@ == assigned(old(targets)@, kept@, y, n as int),
        decreases kept.len() - n,
    {
        targets.set(kept[n], Some(y));
        n = n + 1;
    }
}

fn align_band(
    sc: &Scene,
    eps: &Vec<Endpoint>,
    ys: &Vec<Iu>,
    band: &Vec<usize>,
    down: bool,
    targets: &mut Vec<Option<Iu>>,
)
    requires
        ys@.len() == eps@.len(),
        old(targets)@.len() == eps@.len(),
        forall|i: int| 0 <= i < band@.len() ==> #[trigger] band@[i] < eps@.len(),
    ensures
        ({
            let rs = band_rows(*sc, eps@, ys@, band@);
            final(targets)@ == rows_assigned(
                *sc,
                eps@,
                ys@,
                rs,
                down,
                old(targets)@,
                rs.len() as int,
            )
        }),
        final(targets)@.len() == eps@.len(),
{
    let ghost gt = |a: usize, b: usize| right_of(ys@, eps@, a, b);
    let after = |a: usize, b: usize| -> (r: bool)
        requires
            a < eps@.len(),
            b < eps@.len(),
            ys@.len() == eps@.len(),
        ensures
            r == right_of(ys@, eps@, a, b),
        {
            if eps[a].pos.x != eps[b].pos.x {
                eps[a].pos.x > eps[b].pos.x
            } else {
                ys[a] > ys[b]
            }
        };
    let order: Vec<usize> = sort_by(band, after, Ghost(gt));
    proof {
        lemma_sorted_items(band@, gt, |i: usize| i < eps@.len());
    }
    let any: bool = sc.cfg.align_power_by_potential;
    let max_dx: i64 = sc.cfg.power_align_max_dx_mm as i64;
    let ghost same = |a: usize, b: usize|
        sc.cfg.align_power_by_potential || eps@[b as int].pos.x - eps@[a as int].pos.x
            <= sc.cfg.power_align_max_dx_mm;
    let joins = |a: usize, b: usize| -> (r: bool)
        requires
            a < eps@.len(),
            b < eps@.len(),
        ensures
            r == (any || eps@[b as int].pos.x - eps@[a as int].pos.x <= max_dx),
        { any || eps[b].pos.x as i64 - eps[a].pos.x as i64 <= max_dx };
    let cut: Vec<Vec<usize>> = cut_runs(&order, joins, Ghost(same), Ghost(eps@.len() as int));
    let ghost rs = rows(cut@);
    let mut n: usize = 0;
    while n < cut.len()
        invariant
            n <= cut.len(),
            rs == rows(cut@),
            rows_wf(rs, eps@.len() as int),
            ys@.len() == eps@.len(),
            targets@.len() == eps@.len(),
            targets@ == rows_assigned(*sc, eps@, ys@, rs, down, old(targets)@, n as int),
        decreases cut.len() - n,
    {
        let row: &Vec<usize> = &cut[n];
        proof {
            assert(rs[n as int] == row@);
        }
        align_row(sc, eps, ys, row, down, targets);
        n = n + 1;
    }
}

/// The height that each endpoint's symbol is aligned to.
pub fn power_align_targets(sc: &Scene, eps: &Vec<Endpoint>, down: bool) -> (r: Vec<Option<Iu>>)
    requires
        sc.wf(),
        endpoints_wf(*sc, eps@),
    ensures
        r@ == align_targets(*sc, eps@, down),
        r@.len() == eps@.len(),
{
    let mut ys: Vec<Iu> = Vec::new();
    let mut list: Vec<usize> = Vec::new();
    let mut targets: Vec<Option<Iu>> = Vec::new();
    let mut n: usize = 0;
    while n < eps.len()
        invariant
            n <= eps.len(),
            sc.wf(),
            endpoints_wf(*sc, eps@),
            ys@ =~= base_heights(*sc, eps@, down).take(n as int),
            list@ == alignable(*sc, eps@, down, n as int),
            forall|i: int| 0 <= i < list@.len() ==> #[trigger] list@[i] < eps@.len(),
            targets@.len() == n,
            forall|i: int| 0 <= i < n ==> #[trigger] targets@[i] == None::<Iu>,
        decreases eps.len() - n,
    {
        let e: &Endpoint = &eps[n];
        let att: Attachment = power_attachment(sc.cfg, e.pos, e.dir, down, 0, 0);
        ys.push(att.symbol_at.y);
        targets.push(None);
        if !sc.model.placed[e.placed].relegated && (e.dir.y == 0 || (down && e.dir.y > 0) || (!down
            && e.dir.y < 0)) {
            list.push(n);
        }
        n = n + 1;
    }
    proof {
        assert(ys@ =~= base_heights(*sc, eps@, down));
        assert(targets@ =~= bands_assigned(
            *sc,
            eps@,
            ys@,
            bands(*sc, eps@, ys@, down),
            down,
            0,
        ));
    }
    let ghost gt = |a: usize, b: usize| lower_than(ys@, eps@, a, b);
    let after = |a: usize, b: usize| -> (r: bool)
        requires
            a < eps@.len(),
            b < eps@.len(),
            ys@.len() == eps@.len(),
        ensures
            r == lower_than(ys@, eps@, a, b),
        {
            if ys[a] != ys[b] {
                ys[a] > ys[b]
            } else {
                eps[a].pos.x > eps[b].pos.x
            }
        };
    let order: Vec<usize> = sort_by(&list, after, Ghost(gt));
    proof {
        lemma_sorted_items(list@, gt, |i: usize| i < eps@.len());
    }
    let max_dy: i64 = sc.cfg.power_align_max_dy_mm as i64;
    let ghost same = |a: usize, b: usize|
        ys@[b as int] - ys@[a as int] <= sc.cfg.power_align_max_dy_mm;
    let joins = |a: usize, b: usize| -> (r: bool)
        requires
            a < ys@.len(),
            b < ys@.len(),
        ensures
            r == (ys@[b as int] - ys@[a as int] <= max_dy),
        { ys[b] as i64 - ys[a] as i64 <= max_dy };
    let cut: Vec<Vec<usize>> = cut_runs(&order, joins, Ghost(same), Ghost(eps@.len() as int));
    let ghost bs = rows(cut@);
    let mut n: usize = 0;
    while n < cut.len()
        invariant
            n <= cut.len(),
            bs == rows(cut@),
            rows_wf(bs, eps@.len() as int),
            ys@.len() == eps@.len(),
            targets@.len() == eps@.len(),
            targets@ == bands_assigned(*sc, eps@, ys@, bs, down, n as int),
        decreases cut.len() - n,
    {
        let band: &Vec<usize> = &cut[n];
        proof {
            assert(bs[n as int] == band@);
        }
        align_band(sc, eps, &ys, band, down, &mut targets);
        n = n + 1;
    }
    targets
}

} // verus!
