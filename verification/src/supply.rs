//! The power pass of a sheet: every power and ground pin gets its stub and symbol.

use vstd::prelude::*;
use crate::canvas::{copy_path, wire_fits, Canvas, Drawing, Endpoint, Scene};
use crate::config::SchConfig;
use crate::geometry::BBox;
use crate::glyphs::{
    attachment, potential_rank, power_attachment, power_box, power_points_down,
    power_symbol_graphic_box, Attachment, AttachmentView,
};
use crate::model::NetClass;
use crate::order::{includes, list_includes};
use crate::pins::{endpoints_of, endpoints_wf, net_endpoints};
use crate::place::SheetNet;
use crate::power::collapsed;
use crate::rails::{align_targets, banks, banks_upto, flag_once, power_align_targets, BankState};
use crate::registry::{capped, crossings, graphic_clear, path_safe};
use crate::units::{
    apart, gap, sat, shift, spec_apart, spec_gap, spec_shift, to_iu, Iu, Point,
};
use crate::warning::Warning;
use crate::wiring::{path_length, path_length_mm};

verus! {

// ---------------------------------------------------------------- candidates

/// Sideways stretch `i` of a stub.
pub open spec fn stretch(i: int) -> int {
    if i <= 4 {
        12700 * i
    } else if i <= 10 {
        76200 + 25400 * (i - 5)
    } else if i == 11 {
        254000
    } else {
        304800
    }
}

/// Upward stretch `i` of a stub.
pub open spec fn lift(i: int) -> int {
    if i <= 6 {
        25400 * i
    } else {
        203200
    }
}

fn stretch_of(i: i64) -> (r: Iu)
    requires
        0 <= i <= 12,
    ensures
        r == stretch(i as int),
{
    if i <= 4 {
        (12700 * i) as i32
    } else if i <= 10 {
        (76200 + 25400 * (i - 5)) as i32
    } else if i == 11 {
        254000
    } else {
        304800
    }
}

fn lift_of(i: i64) -> (r: Iu)
    requires
        0 <= i <= 7,
    ensures
        r == lift(i as int),
{
    if i <= 6 {
        (25400 * i) as i32
    } else {
        203200
    }
}

pub open spec fn attachments(v: Seq<Attachment>) -> Seq<AttachmentView> {
    Seq::new(v.len(), |i: int| v[i]@)
}

/// Stubs that end on the common row.
pub open spec fn row_stubs(cfg: SchConfig, e: Endpoint, down: bool, y: Iu) -> Seq<AttachmentView> {
    let v = sat(spec_gap(y as int, attachment(cfg, e.pos, e.dir, down, 0, 0).symbol_at.y as int));
    Seq::new(11, |i: int| attachment(cfg, e.pos, e.dir, down, stretch(i), v as int))
}

/// Stubs of every stretch and lift.
pub open spec fn free_stubs(cfg: SchConfig, e: Endpoint, down: bool) -> Seq<AttachmentView> {
    Seq::new(55, |i: int| attachment(cfg, e.pos, e.dir, down, stretch(i / 5), lift(i % 5)))
}

/// Stub `i` of a vertical pin that steps aside before it reaches its symbol.
pub open spec fn jog(e: Endpoint, down: bool, i: int) -> AttachmentView {
    let first: int = if i / 48 == 0 {
        50800
    } else if i / 48 == 1 {
        25400
    } else {
        76200
    };
    let step = 25400 * (1 + (i / 8) % 6);
    let rise: int = if i % 4 == 0 {
        0
    } else if i % 4 == 1 {
        12700
    } else if i % 4 == 2 {
        25400
    } else {
        50800
    };
    let y = spec_shift(e.pos.y as int, e.dir.y as int, first);
    let x = sat(
        if (i / 4) % 2 == 0 {
            e.pos.x + step
        } else {
            e.pos.x - step
        },
    );
    let end = Point { x, y: spec_shift(y as int, e.dir.y as int, 25400 + rise) };
    AttachmentView {
        path: seq![e.pos, Point { x: e.pos.x, y }, Point { x, y }, end],
        symbol_at: end,
        down,
    }
}

/// The stubs that are tried for an endpoint, in order.
pub open spec fn supply_stubs(cfg: SchConfig, e: Endpoint, down: bool, row: Option<Iu>) -> Seq<
    AttachmentView,
> {
    let aligned = match row {
        Some(y) => row_stubs(cfg, e, down, y),
        None => Seq::empty(),
    };
    let jogs = if e.dir.y != 0 {
        Seq::new(144, |i: int| jog(e, down, i))
    } else {
        Seq::empty()
    };
    aligned + free_stubs(cfg, e, down) + jogs
}

/// The stubs that are tried when none of the first ones fits, before those again.
pub open spec fn rescue_stubs(cfg: SchConfig, e: Endpoint, down: bool) -> Seq<AttachmentView> {
    Seq::new(104, |i: int| attachment(cfg, e.pos, e.dir, down, stretch(i / 8), lift(i % 8)))
}

fn jog_of(e: &Endpoint, down: bool, i: i64) -> (r: Attachment)
    requires
        0 <= i < 144,
    ensures
        r@ == jog(*e, down, i as int),
{
    let first: i64 = if i / 48 == 0 {
        50800
    } else if i / 48 == 1 {
        25400
    } else {
        76200
    };
    let step: i64 = 25400 * (1 + (i / 8) % 6);
    let rise: i64 = if i % 4 == 0 {
        0
    } else if i % 4 == 1 {
        12700
    } else if i % 4 == 2 {
        25400
    } else {
        50800
    };
    let y: Iu = shift(e.pos.y, e.dir.y, first);
    let x: Iu = to_iu(
        if (i / 4) % 2 == 0 {
            e.pos.x as i64 + step
        } else {
            e.pos.x as i64 - step
        },
    );
    let end: Point = Point { x, y: shift(y, e.dir.y, 25400 + rise) };
    let path: Vec<Point> = vec![e.pos, Point { x: e.pos.x, y }, Point { x, y }, end];
    proof {
        assert(path@ =~= seq![e.pos, Point { x: e.pos.x, y }, Point { x, y }, end]);
    }
    Attachment { path, symbol_at: end, down }
}

fn push_stub(v: &mut Vec<Attachment>, a: Attachment)
    ensures
        attachments(final(v)@) == attachments(old(v)@).push(a@),
{
    let ghost before = v@;
    v.push(a);
    proof {
        assert(attachments(v@) =~= attachments(before).push(a@));
    }
}

fn stubs_for(cfg: &SchConfig, e: &Endpoint, down: bool, row: Option<Iu>) -> (r: Vec<Attachment>)
    ensures
        attachments(r@) == supply_stubs(*cfg, *e, down, row),
{
    let mut out: Vec<Attachment> = Vec::new();
    proof {
        assert(attachments(out@) =~= Seq::empty());
    }
    let ghost aligned = match row {
        Some(y) => row_stubs(*cfg, *e, down, y),
        None => Seq::empty(),
    };
    match row {
        Some(y) => {
            let plain: Attachment = power_attachment(cfg, e.pos, e.dir, down, 0, 0);
            let v: Iu = to_iu(gap(y, plain.symbol_at.y));
            let mut i: i64 = 0;
            while i < 11
                invariant
                    0 <= i <= 11,
                    aligned == row_stubs(*cfg, *e, down, y),
                    v == sat(
                        spec_gap(
                            y as int,
                            attachment(*cfg, e.pos, e.dir, down, 0, 0).symbol_at.y as int,
                        ),
                    ),
                    attachments(out@) =~= aligned.take(i as int),
                decreases 11 - i,
            {
                push_stub(&mut out, power_attachment(cfg, e.pos, e.dir, down, stretch_of(i), v));
                i = i + 1;
            }
        },
        None => {},
    }
    proof {
        assert(attachments(out@) =~= aligned);
    }
    let ghost free = free_stubs(*cfg, *e, down);
    proof {
        assert(aligned =~= aligned + free.take(0));
    }
    let mut i: i64 = 0;
    while i < 55
        invariant
            0 <= i <= 55,
            free == free_stubs(*cfg, *e, down),
            attachments(out@) == aligned + free.take(i as int),
        decreases 55 - i,
    {
        push_stub(
            &mut out,
            power_attachment(cfg, e.pos, e.dir, down, stretch_of(i / 5), lift_of(i % 5)),
        );
        i = i + 1;
        proof {
            assert(attachments(out@) =~= aligned + free.take(i as int));
        }
    }
    proof {
        assert(free.take(55) =~= free);
    }
    if e.dir.y != 0 {
        let ghost jogs = Seq::new(144, |i: int| jog(*e, down, i));
        proof {
            assert(aligned + free =~= aligned + free + jogs.take(0));
        }
        let mut i: i64 = 0;
        while i < 144
            invariant
                0 <= i <= 144,
                jogs == Seq::new(144, |i: int| jog(*e, down, i)),
                attachments(out@) == aligned + free + jogs.take(i as int),
            decreases 144 - i,
        {
            push_stub(&mut out, jog_of(e, down, i));
            i = i + 1;
            proof {
                assert(attachments(out@) =~= aligned + free + jogs.take(i as int));
            }
        }
        proof {
            assert(jogs.take(144) =~= jogs);
        }
    } else {
        proof {
            assert(aligned + free =~= aligned + free + Seq::empty());
        }
    }
    out
}

fn rescue_for(cfg: &SchConfig, e: &Endpoint, down: bool) -> (r: Vec<Attachment>)
    ensures
        attachments(r@) == rescue_stubs(*cfg, *e, down),
{
    let mut out: Vec<Attachment> = Vec::new();
    let ghost all = rescue_stubs(*cfg, *e, down);
    let mut i: i64 = 0;
    while i < 104
        invariant
            0 <= i <= 104,
            all == rescue_stubs(*cfg, *e, down),
            attachments(out@) =~= all.take(i as int),
        decreases 104 - i,
    {
        push_stub(
            &mut out,
            power_attachment(cfg, e.pos, e.dir, down, stretch_of(i / 8), lift_of(i % 8)),
        );
        i = i + 1;
    }
    proof {
        assert(attachments(out@) =~= all);
    }
    out
}

// ---------------------------------------------------------------- choice

/// How far a stub is from what is wanted: off its row, away from its pin, crossings, length.
pub struct StubCost {
    pub miss: int,
    pub hug: int,
    pub crossings: int,
    pub length: int,
}

pub open spec fn stub_cost(d: Drawing, c: AttachmentView, e: Endpoint, row: Option<Iu>) -> StubCost {
    StubCost {
        miss: match row {
            Some(y) => spec_gap(c.symbol_at.y as int, y as int),
            None => 0,
        },
        hug: spec_gap(c.symbol_at.x as int, e.pos.x as int),
        crossings: capped(crossings(d.reg.segs, c.path, None)) as int,
        length: path_length(c.path),
    }
}

/// The first difference decides.
pub open spec fn cheaper(a: StubCost, b: StubCost) -> bool {
    if a.miss != b.miss {
        a.miss < b.miss
    } else if a.hug != b.hug {
        a.hug < b.hug
    } else if a.crossings != b.crossings {
        a.crossings < b.crossings
    } else {
        a.length < b.length
    }
}

pub open spec fn stub_fits(
    sc: Scene<'_>,
    d: Drawing,
    c: AttachmentView,
    net: Seq<char>,
    e: Endpoint,
) -> bool {
    wire_fits(sc, d, c.path, net, seq![e.placed]) && graphic_clear(
        d.reg,
        power_box(net.len() as int, c.symbol_at, c.down),
        net,
    )
}

/// The first of the cheapest stubs that fit, among the first `n`.
pub open spec fn best_supply(
    sc: Scene<'_>,
    d: Drawing,
    cs: Seq<AttachmentView>,
    net: Seq<char>,
    e: Endpoint,
    row: Option<Iu>,
    n: int,
) -> Option<int>
    decreases n,
{
    if n <= 0 || n > cs.len() {
        None
    } else {
        let before = best_supply(sc, d, cs, net, e, row, n - 1);
        let c = cs[n - 1];
        if !stub_fits(sc, d, c, net, e) {
            before
        } else {
            match before {
                Some(b) => if cheaper(stub_cost(d, c, e, row), stub_cost(d, cs[b], e, row)) {
                    Some(n - 1)
                } else {
                    before
                },
                None => Some(n - 1),
            }
        }
    }
}

/// The best stub that fits is no dearer than any other that fits.
pub proof fn law_best_supply_is_cheapest(
    sc: Scene<'_>,
    d: Drawing,
    cs: Seq<AttachmentView>,
    net: Seq<char>,
    e: Endpoint,
    row: Option<Iu>,
    n: int,
)
    requires
        0 <= n <= cs.len(),
    ensures
        match best_supply(sc, d, cs, net, e, row, n) {
            Some(b) => 0 <= b < n && stub_fits(sc, d, cs[b], net, e) && forall|i: int|
                0 <= i < n && stub_fits(sc, d, #[trigger] cs[i], net, e) ==> !cheaper(
                    stub_cost(d, cs[i], e, row),
                    stub_cost(d, cs[b], e, row),
                ),
            None => forall|i: int| 0 <= i < n ==> !stub_fits(sc, d, #[trigger] cs[i], net, e),
        },
    decreases n,
{
    if n > 0 {
        law_best_supply_is_cheapest(sc, d, cs, net, e, row, n - 1);
    }
}

/// Among the first `n` stubs that touch no other net, the first of those with fewest crossings.
pub open spec fn least_crossed(d: Drawing, cs: Seq<AttachmentView>, net: Seq<char>, n: int) -> Option<
    int,
>
    decreases n,
{
    if n <= 0 || n > cs.len() {
        None
    } else {
        let before = least_crossed(d, cs, net, n - 1);
        let count = capped(crossings(d.reg.segs, cs[n - 1].path, None));
        let least = match before {
            Some(b) => capped(crossings(d.reg.segs, cs[b].path, None)),
            None => usize::MAX,
        };
        if path_safe(d.reg, cs[n - 1].path, net) && count < least {
            Some(n - 1)
        } else {
            before
        }
    }
}

/// The stub of an endpoint, and what there is to say about it.
pub open spec fn supply_choice(
    sc: Scene<'_>,
    d: Drawing,
    net: String,
    e: Endpoint,
    down: bool,
    row: Option<Iu>,
) -> (AttachmentView, Option<Warning>) {
    let cs = supply_stubs(*sc.cfg, e, down, row);
    let refdes = sc.design.comps@[sc.model.placed@[e.placed as int].comp as int].refdes;
    match best_supply(sc, d, cs, net@, e, row, cs.len() as int) {
        Some(i) => (cs[i], None),
        None => {
            let more = rescue_stubs(*sc.cfg, e, down) + cs;
            match least_crossed(d, more, net@, more.len() as int) {
                Some(i) => (more[i], Some(Warning::PowerStubOverlap { net, refdes })),
                None => (
                    attachment(*sc.cfg, e.pos, e.dir, down, 0, 0),
                    Some(Warning::PowerStubContact { net, refdes }),
                ),
            }
        },
    }
}

impl Drawing {
    /// With the stub and symbol of one endpoint.
    pub open spec fn supplied(
        self,
        sc: Scene<'_>,
        net: String,
        e: Endpoint,
        down: bool,
        row: Option<Iu>,
    ) -> (Drawing, Point) {
        let (c, w) = supply_choice(sc, self, net, e, down, row);
        let d = match w {
            Some(w) => self.warned(w),
            None => self,
        };
        let d = if c.path.len() >= 2 && spec_apart(c.path[0], c.path.last()) {
            d.wired(c.path, net)
        } else {
            d
        };
        (d.with_symbol(net, c.symbol_at, c.down), c.symbol_at)
    }
}

fn copy_attachment(a: &Attachment) -> (r: Attachment)
    ensures
        r@ == a@,
{
    Attachment { path: copy_path(&a.path), symbol_at: a.symbol_at, down: a.down }
}

impl Canvas {
    fn best_of(
        &self,
        sc: &Scene,
        cs: &Vec<Attachment>,
        net: &String,
        e: &Endpoint,
        row: Option<Iu>,
    ) -> (r: Option<usize>)
        requires
            sc.wf(),
        ensures
            match r {
                Some(i) => best_supply(
                    *sc,
                    self@,
                    attachments(cs@),
                    net@,
                    *e,
                    row,
                    cs@.len() as int,
                ) == Some(i as int) && i < cs@.len(),
                None => best_supply(
                    *sc,
                    self@,
                    attachments(cs@),
                    net@,
                    *e,
                    row,
                    cs@.len() as int,
                ) is None,
            },
    {
        let except: Vec<usize> = vec![e.placed];
        proof {
            assert(except@ =~= seq![e.placed]);
        }
        let ghost all = attachments(cs@);
        let mut best: Option<usize> = None;
        let mut b_miss: i64 = 0;
        let mut b_hug: i64 = 0;
        let mut b_cross: usize = 0;
        let mut b_len: i128 = 0;
        let mut n: usize = 0;
        while n < cs.len()
            invariant
                n <= cs.len(),
                sc.wf(),
                except@ == seq![e.placed],
                all == attachments(cs@),
                match best {
                    Some(i) => best_supply(*sc, self@, all, net@, *e, row, n as int) == Some(
                        i as int,
                    ) && i < n && stub_cost(self@, all[i as int], *e, row) == (StubCost {
                        miss: b_miss as int,
                        hug: b_hug as int,
                        crossings: b_cross as int,
                        length: b_len as int,
                    }),
                    None => best_supply(*sc, self@, all, net@, *e, row, n as int) is None,
                },
            decreases cs.len() - n,
        {
            let c: &Attachment = &cs[n];
            proof {
                assert(all[n as int] == c@);
            }
            let b: BBox = power_symbol_graphic_box(net.as_str(), c.symbol_at, c.down);
            if self.wire_ok(sc, &c.path, net, &except) && self.reg.graphic_box_clear(&b, net) {
                let miss: i64 = match row {
                    Some(y) => gap(c.symbol_at.y, y),
                    None => 0,
                };
                let hug: i64 = gap(c.symbol_at.x, e.pos.x);
                let cross: usize = self.reg.count_crossings(&c.path);
                let len: i128 = path_length_mm(&c.path);
                let better: bool = match best {
                    Some(_) => {
                        if miss != b_miss {
                            miss < b_miss
                        } else if hug != b_hug {
                            hug < b_hug
                        } else if cross != b_cross {
                            cross < b_cross
                        } else {
                            len < b_len
                        }
                    },
                    None => true,
                };
                if better {
                    best = Some(n);
                    b_miss = miss;
                    b_hug = hug;
                    b_cross = cross;
                    b_len = len;
                }
            }
            n = n + 1;
        }
        best
    }

    fn least_crossed_of(&self, cs: &Vec<Attachment>, net: &String) -> (r: Option<usize>)
        ensures
            match r {
                Some(i) => least_crossed(self@, attachments(cs@), net@, cs@.len() as int) == Some(
                    i as int,
                ) && i < cs@.len(),
                None => least_crossed(self@, attachments(cs@), net@, cs@.len() as int) is None,
            },
    {
        let ghost all = attachments(cs@);
        let mut best: Option<usize> = None;
        let mut least: usize = usize::MAX;
        let mut n: usize = 0;
        while n < cs.len()
            invariant
                n <= cs.len(),
                all == attachments(cs@),
                match best {
                    Some(i) => least_crossed(self@, all, net@, n as int) == Some(i as int) && i < n
                        && least == capped(crossings(self@.reg.segs, all[i as int].path, None)),
                    None => least_crossed(self@, all, net@, n as int) is None && least
                        == usize::MAX,
                },
            decreases cs.len() - n,
        {
            proof {
                assert(all[n as int] == cs@[n as int]@);
            }
            if self.reg.path_electrically_clean(&cs[n].path, net) {
                let count: usize = self.reg.count_crossings(&cs[n].path);
                if count < least {
                    best = Some(n);
                    least = count;
                }
            }
            n = n + 1;
        }
        best
    }

    /// Draw the stub and symbol of one endpoint.
    fn supply(&mut self, sc: &Scene, net: &String, e: &Endpoint, down: bool, row: Option<Iu>) -> (at:
        Point)
        requires
            sc.wf(),
            e.placed < sc.model.placed@.len(),
        ensures
            (final(self)@, at) == old(self)@.supplied(*sc, *net, *e, down, row),
    {
        let cs: Vec<Attachment> = stubs_for(sc.cfg, e, down, row);
        let ghost all = attachments(cs@);
        let chosen: Attachment = match self.best_of(sc, &cs, net, e, row) {
            Some(i) => copy_attachment(&cs[i]),
            None => {
                let mut more: Vec<Attachment> = rescue_for(sc.cfg, e, down);
                let ghost first = attachments(more@);
                let mut i: usize = 0;
                proof {
                    assert(first =~= first + all.take(0));
                }
                while i < cs.len()
                    invariant
                        i <= cs.len(),
                        all == attachments(cs@),
                        attachments(more@) == first + all.take(i as int),
                    decreases cs.len() - i,
                {
                    push_stub(&mut more, copy_attachment(&cs[i]));
                    i = i + 1;
                    proof {
                        assert(attachments(more@) =~= first + all.take(i as int));
                    }
                }
                proof {
                    assert(all.take(all.len() as int) =~= all);
                    assert(more@.len() == attachments(more@).len());
                }
                let refdes: String = sc.design.comps[sc.model.placed[e.placed].comp].refdes.clone();
                match self.least_crossed_of(&more, net) {
                    Some(i) => {
                        self.warn(Warning::PowerStubOverlap { net: net.clone(), refdes });
                        copy_attachment(&more[i])
                    },
                    None => {
                        self.warn(Warning::PowerStubContact { net: net.clone(), refdes });
                        power_attachment(sc.cfg, e.pos, e.dir, down, 0, 0)
                    },
                }
            },
        };
        let at: Point = chosen.symbol_at;
        let hangs: bool = chosen.down;
        if chosen.path.len() >= 2 && apart(chosen.path[0], chosen.path[chosen.path.len() - 1]) {
            self.wire(chosen.path, net);
        }
        self.add_symbol(net, at, hangs);
        at
    }
}

// ---------------------------------------------------------------- one net

/// The endpoints among the first `n` that no bank serves, each with its stub and symbol.
pub open spec fn supplied_upto(
    sc: Scene<'_>,
    st: BankState,
    eps: Seq<Endpoint>,
    rows: Seq<Option<Iu>>,
    net: String,
    down: bool,
    undriven: Seq<String>,
    n: int,
) -> (Drawing, Seq<String>)
    decreases n,
{
    if n <= 0 || n > eps.len() {
        (st.d, st.noted)
    } else {
        let before = supplied_upto(sc, st, eps, rows, net, down, undriven, n - 1);
        let e = eps[n - 1];
        if includes(st.served, n - 1) {
            before
        } else {
            let (d, at) = before.0.supplied(sc, net, e, down, rows[n - 1]);
            flag_once(sc, d, before.1, undriven, net, at, e.dir.x < 0)
        }
    }
}

/// All endpoints of one net.
pub open spec fn net_supplied(
    sc: Scene<'_>,
    d: Drawing,
    noted: Seq<String>,
    net: SheetNet,
    undriven: Seq<String>,
) -> (Drawing, Seq<String>) {
    if net.class == NetClass::Signal {
        (d, noted)
    } else {
        let down = potential_rank(net.name@, net.class) <= 0;
        let (d1, eps) = collapsed(sc, d, endpoints_of(sc, net), net.name, !down, true);
        let st = banks_upto(
            sc,
            BankState { d: d1, noted, served: Seq::empty() },
            eps,
            banks(eps),
            net.name,
            down,
            undriven,
            banks(eps).len() as int,
        );
        supplied_upto(
            sc,
            st,
            eps,
            align_targets(sc, eps, down),
            net.name,
            down,
            undriven,
            eps.len() as int,
        )
    }
}

/// The endpoints of the first `n` nets.
pub open spec fn nets_supplied(
    sc: Scene<'_>,
    d: Drawing,
    undriven: Seq<String>,
    n: int,
) -> (Drawing, Seq<String>)
    decreases n,
{
    if n <= 0 || n > sc.model.nets@.len() {
        (d, Seq::empty())
    } else {
        let before = nets_supplied(sc, d, undriven, n - 1);
        net_supplied(sc, before.0, before.1, sc.model.nets@[n - 1], undriven)
    }
}

impl Canvas {
    fn supply_net(
        &mut self,
        sc: &Scene,
        sn: usize,
        undriven: &Vec<String>,
        noted: &mut Vec<String>,
    )
        requires
            sc.wf(),
            sn < sc.model.nets@.len(),
        ensures
            (final(self)@, final(noted)@) == net_supplied(
                *sc,
                old(self)@,
                old(noted)@,
                sc.model.nets@[sn as int],
                undriven@,
            ),
    {
        let net: &SheetNet = &sc.model.nets[sn];
        if net.class == NetClass::Signal {
            return;
        }
        let name: &String = &net.name;
        let down: bool = power_points_down(name.as_str(), net.class);
        let raw: Vec<Endpoint> = net_endpoints(sc, sn);
        let eps: Vec<Endpoint> = self.collapse_stacked_pins(sc, &raw, name, !down, true);
        proof {
            crate::power::lemma_collapsed_wf(*sc, old(self)@, raw@, *name, !down, true);
        }
        let rows: Vec<Option<Iu>> = power_align_targets(sc, &eps, down);
        let served: Vec<usize> = self.merge_power_banks(sc, &eps, name, down, undriven, noted);
        let ghost st = BankState { d: self@, noted: noted@, served: served@ };
        let mut n: usize = 0;
        while n < eps.len()
            invariant
                n <= eps.len(),
                sc.wf(),
                endpoints_wf(*sc, eps@),
                rows@.len() == eps@.len(),
                st.served == served@,
                (self@, noted@) == supplied_upto(
                    *sc,
                    st,
                    eps@,
                    rows@,
                    *name,
                    down,
                    undriven@,
                    n as int,
                ),
            decreases eps.len() - n,
        {
            if !list_includes(&served, n) {
                let at: Point = self.supply(sc, name, &eps[n], down, rows[n]);
                self.flag_symbol(sc, noted, undriven, name, at, eps[n].dir.x < 0);
            }
            n = n + 1;
        }
    }

    /// Give every power and ground pin its stub and symbol. The undriven rails that were met are
    /// handed back.
    pub fn supply_nets(&mut self, sc: &Scene, undriven: &Vec<String>) -> (noted: Vec<String>)
        requires
            sc.wf(),
        ensures
            (final(self)@, noted@) == nets_supplied(
                *sc,
                old(self)@,
                undriven@,
                sc.model.nets@.len() as int,
            ),
    {
        let ghost d0 = self@;
        let mut noted: Vec<String> = Vec::new();
        let mut n: usize = 0;
        while n < sc.model.nets.len()
            invariant
                n <= sc.model.nets.len(),
                sc.wf(),
                (self@, noted@) == nets_supplied(*sc, d0, undriven@, n as int),
            decreases sc.model.nets.len() - n,
        {
            self.supply_net(sc, n, undriven, &mut noted);
            n = n + 1;
        }
        noted
    }
}

} // verus!
