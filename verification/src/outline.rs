//! Outlines of the functional part of a sheet and of its utility band.

use vstd::prelude::*;
use crate::canvas::{
    BlockView, Canvas, Drawing, GlobalLabel, HierLabel, NetLabel, PowerSymbol, PwrFlag, Scene,
    Zone, ZoneKind,
};
use crate::geometry::{bx, make_box, spec_overlaps, BBox};
use crate::place::{body_of, raw_box_of};
use crate::units::{
    half, round_steps, sat, snap_down_to, snap_up_to, spec_half, spec_max, spec_min, spec_snap_down_to,
    spec_snap_up_to, to_iu, Iu, Point, EPS,
};
use crate::zones::{
    comp_boxes, comp_list, comp_marks, flag_boxes, flag_marks, global_label_boxes,
    global_label_marks, hier_label_boxes, hier_label_marks, is_within_box, joined_all,
    net_label_boxes, net_label_marks, put_together, symbol_boxes, symbol_marks, utility_band,
    within_box, wires_joined, BoxList,
};

verus! {

/// Beyond every coordinate.
pub const FAR: i64 = 0x100_0000_0000;

/// The box of everything in the functional part, left of the seam.
pub open spec fn functional_box(sc: Scene<'_>, d: Drawing, seam: int) -> Option<BBox> {
    let b = joined_all(None, comp_boxes(sc), comp_marks(sc, false));
    let b = joined_all(b, symbol_boxes(d.power_symbols), symbol_marks(d.power_symbols, seam));
    let b = joined_all(b, flag_boxes(d.pwr_flags), flag_marks(d.pwr_flags, seam));
    let b = joined_all(b, net_label_boxes(d.net_labels), net_label_marks(d.net_labels, seam));
    let b = joined_all(
        b,
        global_label_boxes(d.global_labels),
        global_label_marks(d.global_labels, seam),
    );
    let b = joined_all(b, hier_label_boxes(d.hier_labels), hier_label_marks(d.hier_labels, seam));
    wires_joined(b, d.wires, seam, d.wires.len() as int)
}

/// Does the point belong to one of the two boxes of the band?
pub open spec fn in_band(at: Point, a: Option<BBox>, b: Option<BBox>) -> bool {
    (a is Some && within_box(at, a->0)) || (b is Some && within_box(at, b->0))
}

fn is_in_band(at: Point, a: Option<BBox>, b: Option<BBox>) -> (r: bool)
    ensures
        r == in_band(at, a, b),
{
    (match a {
        Some(x) => is_within_box(at, &x),
        None => false,
    }) || (match b {
        Some(x) => is_within_box(at, &x),
        None => false,
    })
}

/// The greatest of the first `n` wanted values and `start`.
pub open spec fn greatest(start: int, xs: Seq<Iu>, keep: Seq<bool>, n: int) -> int
    decreases n,
{
    if n <= 0 || n > xs.len() {
        start
    } else if keep[n - 1] {
        spec_max(greatest(start, xs, keep, n - 1), xs[n - 1] as int)
    } else {
        greatest(start, xs, keep, n - 1)
    }
}

/// The least of the first `n` wanted values and `start`.
pub open spec fn least(start: int, xs: Seq<Iu>, keep: Seq<bool>, n: int) -> int
    decreases n,
{
    if n <= 0 || n > xs.len() {
        start
    } else if keep[n - 1] {
        spec_min(least(start, xs, keep, n - 1), xs[n - 1] as int)
    } else {
        least(start, xs, keep, n - 1)
    }
}

pub open spec fn greatest_of(start: int, xs: Seq<Iu>, keep: Seq<bool>) -> int {
    greatest(start, xs, keep, xs.len() as int)
}

pub open spec fn least_of(start: int, xs: Seq<Iu>, keep: Seq<bool>) -> int {
    least(start, xs, keep, xs.len() as int)
}

/// Values with a mark on those that are wanted.
pub struct MarkList {
    pub xs: Vec<Iu>,
    pub keep: Vec<bool>,
}

fn find_greatest(start: i64, list: &MarkList) -> (r: i64)
    requires
        list.xs@.len() == list.keep@.len(),
        -FAR <= start <= FAR,
    ensures
        r == greatest_of(start as int, list.xs@, list.keep@),
        -FAR <= r <= FAR,
{
    let mut out: i64 = start;
    let mut n: usize = 0;
    while n < list.xs.len()
        invariant
            n <= list.xs.len(),
            list.xs@.len() == list.keep@.len(),
            out == greatest(start as int, list.xs@, list.keep@, n as int),
            -FAR <= out <= FAR,
        decreases list.xs.len() - n,
    {
        if list.keep[n] && list.xs[n] as i64 > out {
            out = list.xs[n] as i64;
        }
        n = n + 1;
    }
    out
}

fn find_least(start: i64, list: &MarkList) -> (r: i64)
    requires
        list.xs@.len() == list.keep@.len(),
        -FAR <= start <= FAR,
    ensures
        r == least_of(start as int, list.xs@, list.keep@),
        -FAR <= r <= FAR,
{
    let mut out: i64 = start;
    let mut n: usize = 0;
    while n < list.xs.len()
        invariant
            n <= list.xs.len(),
            list.xs@.len() == list.keep@.len(),
            out == least(start as int, list.xs@, list.keep@, n as int),
            -FAR <= out <= FAR,
        decreases list.xs.len() - n,
    {
        if list.keep[n] && (list.xs[n] as i64) < out {
            out = list.xs[n] as i64;
        }
        n = n + 1;
    }
    out
}

pub open spec fn body_edges(sc: Scene<'_>, right: bool) -> Seq<Iu> {
    Seq::new(
        sc.model.placed@.len(),
        |i: int|
            if right {
                body_of(*sc.design, sc.model.placed@[i]).x2
            } else {
                body_of(*sc.design, sc.model.placed@[i]).x1
            },
    )
}

pub open spec fn symbol_xs(v: Seq<PowerSymbol>) -> Seq<Iu> {
    Seq::new(v.len(), |i: int| v[i].at.x)
}

pub open spec fn symbols_in(v: Seq<PowerSymbol>, a: Option<BBox>, b: Option<BBox>, inside: bool) -> Seq<
    bool,
> {
    Seq::new(v.len(), |i: int| in_band(v[i].at, a, b) == inside)
}

pub open spec fn flag_xs(v: Seq<PwrFlag>) -> Seq<Iu> {
    Seq::new(v.len(), |i: int| v[i].at.x)
}

pub open spec fn flags_in(v: Seq<PwrFlag>, a: Option<BBox>, b: Option<BBox>, inside: bool) -> Seq<
    bool,
> {
    Seq::new(v.len(), |i: int| in_band(v[i].at, a, b) == inside)
}

pub open spec fn net_label_xs(v: Seq<NetLabel>) -> Seq<Iu> {
    Seq::new(v.len(), |i: int| v[i].at.x)
}

pub open spec fn global_label_xs(v: Seq<GlobalLabel>) -> Seq<Iu> {
    Seq::new(v.len(), |i: int| v[i].at.x)
}

pub open spec fn hier_label_xs(v: Seq<HierLabel>) -> Seq<Iu> {
    Seq::new(v.len(), |i: int| v[i].at.x)
}

pub open spec fn all_of(n: nat) -> Seq<bool> {
    Seq::new(n, |i: int| true)
}

/// The rightmost anchor of the functional part.
pub open spec fn functional_anchor(sc: Scene<'_>, d: Drawing, a: Option<BBox>, b: Option<BBox>) -> int {
    let x = greatest_of(-FAR as int, body_edges(sc, true), comp_marks(sc, false));
    let x = greatest_of(x, symbol_xs(d.power_symbols), symbols_in(d.power_symbols, a, b, false));
    let x = greatest_of(x, flag_xs(d.pwr_flags), flags_in(d.pwr_flags, a, b, false));
    let x = greatest_of(x, net_label_xs(d.net_labels), all_of(d.net_labels.len()));
    let x = greatest_of(x, global_label_xs(d.global_labels), all_of(d.global_labels.len()));
    greatest_of(x, hier_label_xs(d.hier_labels), all_of(d.hier_labels.len()))
}

/// The leftmost anchor of the utility band.
pub open spec fn band_anchor(sc: Scene<'_>, d: Drawing, a: Option<BBox>, b: Option<BBox>) -> int {
    let x = least_of(FAR as int, body_edges(sc, false), comp_marks(sc, true));
    let x = least_of(x, symbol_xs(d.power_symbols), symbols_in(d.power_symbols, a, b, true));
    least_of(x, flag_xs(d.pwr_flags), flags_in(d.pwr_flags, a, b, true))
}

/// Twice the place of the vertical seam: halfway between the two parts, unless a functional
/// anchor lies beyond and there is room before the first anchor of the band.
pub open spec fn twice_seam(right: int, left: int, func: int, band: int) -> int {
    if 2 * func > right + left && func < band {
        func + band
    } else {
        right + left
    }
}

/// Outer edge on the grid of the zones, at or before `v`.
pub open spec fn edge_low(sc: Scene<'_>, v: int) -> Iu {
    if sc.cfg.zone_snap_mm > 0 {
        spec_snap_down_to(v, sc.cfg.zone_snap_mm as int)
    } else {
        sat(v)
    }
}

/// Outer edge on the grid of the zones, at or behind `v`.
pub open spec fn edge_high(sc: Scene<'_>, v: int) -> Iu {
    if sc.cfg.zone_snap_mm > 0 {
        spec_snap_up_to(v, sc.cfg.zone_snap_mm as int)
    } else {
        sat(v)
    }
}

fn edge_low_of(sc: &Scene, v: i64) -> (r: Iu)
    requires
        -0x2_0000_0000 <= v <= 0x2_0000_0000,
    ensures
        r == edge_low(*sc, v as int),
{
    if sc.cfg.zone_snap_mm > 0 {
        snap_down_to(v, sc.cfg.zone_snap_mm)
    } else {
        to_iu(v)
    }
}

fn edge_high_of(sc: &Scene, v: i64) -> (r: Iu)
    requires
        -0x2_0000_0000 <= v <= 0x2_0000_0000,
    ensures
        r == edge_high(*sc, v as int),
{
    if sc.cfg.zone_snap_mm > 0 {
        snap_up_to(v, sc.cfg.zone_snap_mm)
    } else {
        to_iu(v)
    }
}

/// The zone, unless it is too small to be drawn.
pub open spec fn zone_of(b: BBox, kind: ZoneKind) -> Seq<Zone> {
    if b.spec_width() < 25400 || b.spec_height() < 25400 {
        Seq::empty()
    } else {
        seq![Zone { bbox: b, kind }]
    }
}

/// The gap between two parts: the configured one, as far as there is room.
pub open spec fn gap_between(sc: Scene<'_>, low: int, high: int) -> int {
    spec_min(sc.cfg.zone_gap_mm as int, spec_max(high - low, 0))
}

/// The grid of the zones.
pub struct ZoneGrid {
    pub x_lo: Iu,
    pub x_hi: Iu,
    pub y_lo: Iu,
    pub y_hi: Iu,
    /// Right edge of the functional part.
    pub f_x2: Iu,
    /// Left edge of the utility band.
    pub u_x1: Iu,
}

pub open spec fn box_low(b: Option<BBox>, other: int) -> int {
    match b {
        Some(b) => spec_min(b.y1 as int, other),
        None => other,
    }
}

pub open spec fn box_high(b: Option<BBox>, other: int) -> int {
    match b {
        Some(b) => spec_max(b.y2 as int, other),
        None => other,
    }
}

/// Left and right edge of the band.
pub open spec fn band_edges(a: Option<BBox>, b: Option<BBox>) -> Option<(Iu, Iu)> {
    match (a, b) {
        (Some(d), Some(e)) => Some(
            (
                spec_min(d.x1 as int, e.x1 as int) as i32,
                spec_max(d.x2 as int, e.x2 as int) as i32,
            ),
        ),
        (Some(d), None) => Some((d.x1, d.x2)),
        (None, Some(e)) => Some((e.x1, e.x2)),
        (None, None) => None,
    }
}

pub open spec fn zone_grid(
    sc: Scene<'_>,
    d: Drawing,
    func: Option<BBox>,
    dec: Option<BBox>,
    erc: Option<BBox>,
    left: Iu,
    right: Iu,
) -> ZoneGrid {
    let m = sc.cfg.zone_margin_mm;
    let f_right = match func {
        Some(f) => f.x2 as int,
        None => left as int,
    };
    let f_left = match func {
        Some(f) => f.x1 as int,
        None => left as int,
    };
    let seam = twice_seam(
        f_right,
        left as int,
        functional_anchor(sc, d, dec, erc),
        band_anchor(sc, d, dec, erc),
    );
    let g = gap_between(sc, f_right, left as int);
    let top = box_low(erc, box_low(dec, box_low(func, FAR as int)));
    let bottom = box_high(erc, box_high(dec, box_high(func, -FAR as int)));
    ZoneGrid {
        x_lo: edge_low(sc, f_left - m),
        x_hi: edge_high(sc, right + m),
        y_lo: edge_low(sc, top - m),
        y_hi: edge_high(sc, bottom + m),
        f_x2: spec_half(seam - g),
        u_x1: spec_half(seam + g),
    }
}

/// The zones of a grid: the functional part on the left; on the right the decoupling band over
/// the flags, or whichever of the two there is.
pub open spec fn grid_zones(
    sc: Scene<'_>,
    z: ZoneGrid,
    func: Option<BBox>,
    dec: Option<BBox>,
    erc: Option<BBox>,
) -> Seq<Zone> {
    let f = if func is Some {
        zone_of(
            BBox { x1: z.x_lo, y1: z.y_lo, x2: z.f_x2, y2: z.y_hi },
            ZoneKind::Functional,
        )
    } else {
        Seq::empty()
    };
    let whole = BBox { x1: z.u_x1, y1: z.y_lo, x2: z.x_hi, y2: z.y_hi };
    f + match (dec, erc) {
        (Some(d), Some(e)) => {
            let seam = d.y2 + e.y1;
            let g = gap_between(sc, d.y2 as int, e.y1 as int);
            zone_of(BBox { y2: spec_half(seam - g), ..whole }, ZoneKind::Decoupling) + zone_of(
                BBox { y1: spec_half(seam + g), ..whole },
                ZoneKind::Erc,
            )
        },
        (Some(_), None) => zone_of(whole, ZoneKind::Decoupling),
        (None, Some(_)) => zone_of(whole, ZoneKind::Erc),
        (None, None) => Seq::empty(),
    }
}

/// The zones of a sheet; a sheet without a utility band has none.
pub open spec fn zone_plan(sc: Scene<'_>, d: Drawing, flags: Option<BBox>) -> Seq<Zone> {
    let dec = utility_band(sc, d, flags);
    if !sc.model.relegate {
        Seq::empty()
    } else {
        match band_edges(dec, flags) {
            None => Seq::empty(),
            Some((left, right)) => {
                let func = functional_box(sc, d, left - EPS);
                grid_zones(
                    sc,
                    zone_grid(sc, d, func, dec, flags, left, right),
                    func,
                    dec,
                    flags,
                )
            },
        }
    }
}

fn marks_all(n: usize) -> (r: Vec<bool>)
    ensures
        r@ == all_of(n as nat),
{
    let mut r: Vec<bool> = Vec::new();
    let mut i: usize = 0;
    while i < n
        invariant
            i <= n,
            r@ =~= all_of(i as nat),
        decreases n - i,
    {
        r.push(true);
        i = i + 1;
    }
    r
}

fn body_list(sc: &Scene, right: bool, relegated: bool) -> (r: MarkList)
    requires
        sc.wf(),
    ensures
        r.xs@ == body_edges(*sc, right),
        r.keep@ == comp_marks(*sc, relegated),
{
    let mut xs: Vec<Iu> = Vec::new();
    let mut keep: Vec<bool> = Vec::new();
    let mut n: usize = 0;
    while n < sc.model.placed.len()
        invariant
            n <= sc.model.placed.len(),
            sc.wf(),
            xs@ =~= body_edges(*sc, right).take(n as int),
            keep@ =~= comp_marks(*sc, relegated).take(n as int),
        decreases sc.model.placed.len() - n,
    {
        let b: BBox = raw_box_of(sc.design, &sc.model.placed[n]);
        xs.push(
            if right {
                b.x2
            } else {
                b.x1
            },
        );
        keep.push(sc.model.placed[n].relegated == relegated);
        n = n + 1;
    }
    proof {
        assert(xs@ =~= body_edges(*sc, right));
        assert(keep@ =~= comp_marks(*sc, relegated));
    }
    MarkList { xs, keep }
}

impl Canvas {
    fn symbol_marks_in(&self, a: Option<BBox>, b: Option<BBox>, inside: bool) -> (r: MarkList)
        ensures
            r.xs@ == symbol_xs(self@.power_symbols),
            r.keep@ == symbols_in(self@.power_symbols, a, b, inside),
    {
        let mut xs: Vec<Iu> = Vec::new();
        let mut keep: Vec<bool> = Vec::new();
        let mut n: usize = 0;
        while n < self.out.power_symbols.len()
            invariant
                n <= self.out.power_symbols.len(),
                xs@ =~= symbol_xs(self.out.power_symbols@).take(n as int),
                keep@ =~= symbols_in(self.out.power_symbols@, a, b, inside).take(n as int),
            decreases self.out.power_symbols.len() - n,
        {
            xs.push(self.out.power_symbols[n].at.x);
            keep.push(is_in_band(self.out.power_symbols[n].at, a, b) == inside);
            n = n + 1;
        }
        proof {
            assert(xs@ =~= symbol_xs(self.out.power_symbols@));
            assert(keep@ =~= symbols_in(self.out.power_symbols@, a, b, inside));
        }
        MarkList { xs, keep }
    }

    fn flag_marks_in(&self, a: Option<BBox>, b: Option<BBox>, inside: bool) -> (r: MarkList)
        ensures
            r.xs@ == flag_xs(self@.pwr_flags),
            r.keep@ == flags_in(self@.pwr_flags, a, b, inside),
    {
        let mut xs: Vec<Iu> = Vec::new();
        let mut keep: Vec<bool> = Vec::new();
        let mut n: usize = 0;
        while n < self.out.pwr_flags.len()
            invariant
                n <= self.out.pwr_flags.len(),
                xs@ =~= flag_xs(self.out.pwr_flags@).take(n as int),
                keep@ =~= flags_in(self.out.pwr_flags@, a, b, inside).take(n as int),
            decreases self.out.pwr_flags.len() - n,
        {
            xs.push(self.out.pwr_flags[n].at.x);
            keep.push(is_in_band(self.out.pwr_flags[n].at, a, b) == inside);
            n = n + 1;
        }
        proof {
            assert(xs@ =~= flag_xs(self.out.pwr_flags@));
            assert(keep@ =~= flags_in(self.out.pwr_flags@, a, b, inside));
        }
        MarkList { xs, keep }
    }

    fn net_label_places(&self) -> (r: MarkList)
        ensures
            r.xs@ == net_label_xs(self@.net_labels),
            r.keep@ == all_of(self@.net_labels.len()),
    {
        let mut xs: Vec<Iu> = Vec::new();
        let mut n: usize = 0;
        while n < self.out.net_labels.len()
            invariant
                n <= self.out.net_labels.len(),
                xs@ =~= net_label_xs(self.out.net_labels@).take(n as int),
            decreases self.out.net_labels.len() - n,
        {
            xs.push(self.out.net_labels[n].at.x);
            n = n + 1;
        }
        proof {
            assert(xs@ =~= net_label_xs(self.out.net_labels@));
        }
        MarkList { xs, keep: marks_all(self.out.net_labels.len()) }
    }

    fn global_label_places(&self) -> (r: MarkList)
        ensures
            r.xs@ == global_label_xs(self@.global_labels),
            r.keep@ == all_of(self@.global_labels.len()),
    {
        let mut xs: Vec<Iu> = Vec::new();
        let mut n: usize = 0;
        while n < self.out.global_labels.len()
            invariant
                n <= self.out.global_labels.len(),
                xs@ =~= global_label_xs(self.out.global_labels@).take(n as int),
            decreases self.out.global_labels.len() - n,
        {
            xs.push(self.out.global_labels[n].at.x);
            n = n + 1;
        }
        proof {
            assert(xs@ =~= global_label_xs(self.out.global_labels@));
        }
        MarkList { xs, keep: marks_all(self.out.global_labels.len()) }
    }

    fn hier_label_places(&self) -> (r: MarkList)
        ensures
            r.xs@ == hier_label_xs(self@.hier_labels),
            r.keep@ == all_of(self@.hier_labels.len()),
    {
        let mut xs: Vec<Iu> = Vec::new();
        let mut n: usize = 0;
        while n < self.out.hier_labels.len()
            invariant
                n <= self.out.hier_labels.len(),
                xs@ =~= hier_label_xs(self.out.hier_labels@).take(n as int),
            decreases self.out.hier_labels.len() - n,
        {
            xs.push(self.out.hier_labels[n].at.x);
            n = n + 1;
        }
        proof {
            assert(xs@ =~= hier_label_xs(self.out.hier_labels@));
        }
        MarkList { xs, keep: marks_all(self.out.hier_labels.len()) }
    }

    fn functional_box_of(&self, sc: &Scene, seam: i64) -> (r: Option<BBox>)
        requires
            sc.wf(),
        ensures
            r == functional_box(*sc, self@, seam as int),
    {
        let b: Option<BBox> = put_together(None, &comp_list(sc, false));
        let b: Option<BBox> = put_together(b, &self.symbol_box_list(seam));
        let b: Option<BBox> = put_together(b, &self.flag_box_list(seam));
        let b: Option<BBox> = put_together(b, &self.net_label_list(seam));
        let b: Option<BBox> = put_together(b, &self.global_label_list(seam));
        let b: Option<BBox> = put_together(b, &self.hier_label_list(seam));
        self.join_wires(b, seam)
    }

    fn zone_grid_of(
        &self,
        sc: &Scene,
        func: Option<BBox>,
        dec: Option<BBox>,
        erc: Option<BBox>,
        left: Iu,
        right: Iu,
    ) -> (r: ZoneGrid)
        requires
            sc.wf(),
            dec is Some || erc is Some,
        ensures
            r == zone_grid(*sc, self@, func, dec, erc, left, right),
    {
        let x: i64 = find_greatest(-FAR, &body_list(sc, true, false));
        let x: i64 = find_greatest(x, &self.symbol_marks_in(dec, erc, false));
        let x: i64 = find_greatest(x, &self.flag_marks_in(dec, erc, false));
        let x: i64 = find_greatest(x, &self.net_label_places());
        let x: i64 = find_greatest(x, &self.global_label_places());
        let func_anchor: i64 = find_greatest(x, &self.hier_label_places());
        let x: i64 = find_least(FAR, &body_list(sc, false, true));
        let x: i64 = find_least(x, &self.symbol_marks_in(dec, erc, true));
        let util_anchor: i64 = find_least(x, &self.flag_marks_in(dec, erc, true));
        let m: i64 = sc.cfg.zone_margin_mm as i64;
        let (f_left, f_right): (i64, i64) = match func {
            Some(f) => (f.x1 as i64, f.x2 as i64),
            None => (left as i64, left as i64),
        };
        let plain: i64 = f_right + left as i64;
        let seam: i64 = if 2 * func_anchor > plain && func_anchor < util_anchor {
            func_anchor + util_anchor
        } else {
            plain
        };
        let g: i64 = gap_of(sc, f_right, left as i64);
        let mut top: i64 = FAR;
        let mut bottom: i64 = -FAR;
        match func {
            Some(b) => {
                top = b.y1 as i64;
                bottom = b.y2 as i64;
            },
            None => {},
        }
        match dec {
            Some(b) => {
                if (b.y1 as i64) < top {
                    top = b.y1 as i64;
                }
                if b.y2 as i64 > bottom {
                    bottom = b.y2 as i64;
                }
            },
            None => {},
        }
        match erc {
            Some(b) => {
                if (b.y1 as i64) < top {
                    top = b.y1 as i64;
                }
                if b.y2 as i64 > bottom {
                    bottom = b.y2 as i64;
                }
            },
            None => {},
        }
        ZoneGrid {
            x_lo: edge_low_of(sc, f_left - m),
            x_hi: edge_high_of(sc, right as i64 + m),
            y_lo: edge_low_of(sc, top - m),
            y_hi: edge_high_of(sc, bottom + m),
            f_x2: half(seam - g),
            u_x1: half(seam + g),
        }
    }

    fn push_zone(&mut self, b: BBox, kind: ZoneKind)
        ensures
            final(self)@ == (Drawing { zones: old(self)@.zones + zone_of(b, kind), ..old(self)@ }),
    {
        let ghost before = self@;
        if b.width() >= 25400 && b.height() >= 25400 {
            self.out.zones.push(Zone { bbox: b, kind });
        }
        proof {
            assert(self@.zones =~= before.zones + zone_of(b, kind));
        }
    }

    /// Outline the functional part and the utility band.
    pub fn compute_zones(&mut self, sc: &Scene, flags: Option<BBox>)
        requires
            sc.wf(),
        ensures
            final(self)@ == (Drawing {
                zones: old(self)@.zones + zone_plan(*sc, old(self)@, flags),
                ..old(self)@
            }),
    {
        let ghost d0 = self@;
        proof {
            assert(d0.zones =~= d0.zones + Seq::empty());
        }
        if !sc.model.relegate {
            return;
        }
        let dec: Option<BBox> = self.utility_band_box(sc, flags);
        let (left, right): (Iu, Iu) = match (dec, flags) {
            (Some(d), Some(e)) => (
                crate::units::lesser(d.x1, e.x1),
                crate::units::greater(d.x2, e.x2),
            ),
            (Some(d), None) => (d.x1, d.x2),
            (None, Some(e)) => (e.x1, e.x2),
            (None, None) => {
                return;
            },
        };
        let func: Option<BBox> = self.functional_box_of(sc, left as i64 - EPS);
        let z: ZoneGrid = self.zone_grid_of(sc, func, dec, flags, left, right);
        if func.is_some() {
            self.push_zone(
                BBox { x1: z.x_lo, y1: z.y_lo, x2: z.f_x2, y2: z.y_hi },
                ZoneKind::Functional,
            );
        }
        match (dec, flags) {
            (Some(d), Some(e)) => {
                let seam: i64 = d.y2 as i64 + e.y1 as i64;
                let g: i64 = gap_of(sc, d.y2 as i64, e.y1 as i64);
                self.push_zone(
                    BBox { x1: z.u_x1, y1: z.y_lo, x2: z.x_hi, y2: half(seam - g) },
                    ZoneKind::Decoupling,
                );
                self.push_zone(
                    BBox { x1: z.u_x1, y1: half(seam + g), x2: z.x_hi, y2: z.y_hi },
                    ZoneKind::Erc,
                );
            },
            (Some(_), None) => {
                self.push_zone(
                    BBox { x1: z.u_x1, y1: z.y_lo, x2: z.x_hi, y2: z.y_hi },
                    ZoneKind::Decoupling,
                );
            },
            (None, Some(_)) => {
                self.push_zone(
                    BBox { x1: z.u_x1, y1: z.y_lo, x2: z.x_hi, y2: z.y_hi },
                    ZoneKind::Erc,
                );
            },
            (None, None) => {},
        }
        proof {
            assert(self@.zones =~= d0.zones + zone_plan(*sc, d0, flags));
        }
    }
}

fn gap_of(sc: &Scene, low: i64, high: i64) -> (r: i64)
    requires
        -0x1_0000_0000 <= low <= 0x1_0000_0000,
        -0x1_0000_0000 <= high <= 0x1_0000_0000,
    ensures
        r == gap_between(*sc, low as int, high as int),
        -0x8000_0000 <= r <= 0x7fff_ffff,
{
    let room: i64 = if high - low > 0 {
        high - low
    } else {
        0
    };
    let wanted: i64 = sc.cfg.zone_gap_mm as i64;
    if wanted <= room {
        wanted
    } else {
        room
    }
}

proof fn lemma_half_monotone(a: int, b: int)
    requires
        a <= b,
    ensures
        spec_half(a) <= spec_half(b),
{
    assert(round_steps(a, 2) == if a >= 0 {
        (2 * a + 2) / 4
    } else {
        -((2 * (-a) + 2) / 4)
    });
    assert(round_steps(b, 2) == if b >= 0 {
        (2 * b + 2) / 4
    } else {
        -((2 * (-b) + 2) / 4)
    });
}

/// No two zones of a sheet overlap, as long as the configured gap is not negative.
pub proof fn law_zones_disjoint(sc: Scene<'_>, d: Drawing, flags: Option<BBox>, i: int, j: int)
    requires
        sc.cfg.zone_gap_mm >= 0,
        0 <= i < j < zone_plan(sc, d, flags).len(),
    ensures
        !spec_overlaps(zone_plan(sc, d, flags)[i].bbox, zone_plan(sc, d, flags)[j].bbox),
{
    let dec = utility_band(sc, d, flags);
    let (left, right) = band_edges(dec, flags)->0;
    let func = functional_box(sc, d, left - EPS);
    let f_right = match func {
        Some(f) => f.x2 as int,
        None => left as int,
    };
    let seam = twice_seam(
        f_right,
        left as int,
        functional_anchor(sc, d, dec, flags),
        band_anchor(sc, d, dec, flags),
    );
    let g = gap_between(sc, f_right, left as int);
    lemma_half_monotone(seam - g, seam + g);
    match (dec, flags) {
        (Some(a), Some(e)) => {
            let s = a.y2 + e.y1;
            let gy = gap_between(sc, a.y2 as int, e.y1 as int);
            lemma_half_monotone(s - gy, s + gy);
        },
        _ => {},
    }
}

// ---------------------------------------------------------------- extents

pub open spec fn block_box(b: BlockView) -> BBox {
    bx(
        b.at.x - 50800,
        b.at.y - 25400,
        b.at.x + b.size.x + 50800,
        b.at.y + b.size.y + 25400,
    )
}

pub open spec fn block_boxes(v: Seq<BlockView>) -> Seq<BBox> {
    Seq::new(v.len(), |i: int| block_box(v[i]))
}

/// The box of everything on the sheet.
pub open spec fn extents_of(content: BBox, d: Drawing) -> BBox {
    let seam = FAR as int;
    let b = wires_joined(Some(content), d.wires, seam, d.wires.len() as int);
    let b = joined_all(b, net_label_boxes(d.net_labels), net_label_marks(d.net_labels, seam));
    let b = joined_all(
        b,
        global_label_boxes(d.global_labels),
        global_label_marks(d.global_labels, seam),
    );
    let b = joined_all(b, hier_label_boxes(d.hier_labels), hier_label_marks(d.hier_labels, seam));
    let b = joined_all(b, symbol_boxes(d.power_symbols), symbol_marks(d.power_symbols, seam));
    let b = joined_all(b, flag_boxes(d.pwr_flags), flag_marks(d.pwr_flags, seam));
    match joined_all(b, block_boxes(d.blocks), all_of(d.blocks.len())) {
        Some(b) => b,
        None => content,
    }
}

impl Canvas {
    /// Find the box of everything on the sheet.
    pub fn compute_extents(&mut self, content: BBox)
        ensures
            final(self)@ == (Drawing { extents: extents_of(content, old(self)@), ..old(self)@ }),
    {
        let b: Option<BBox> = self.join_wires(Some(content), FAR);
        let b: Option<BBox> = put_together(b, &self.net_label_list(FAR));
        let b: Option<BBox> = put_together(b, &self.global_label_list(FAR));
        let b: Option<BBox> = put_together(b, &self.hier_label_list(FAR));
        let b: Option<BBox> = put_together(b, &self.symbol_box_list(FAR));
        let b: Option<BBox> = put_together(b, &self.flag_box_list(FAR));
        let mut boxes: Vec<BBox> = Vec::new();
        let mut n: usize = 0;
        while n < self.out.blocks.len()
            invariant
                n <= self.out.blocks.len(),
                boxes@ =~= block_boxes(self@.blocks).take(n as int),
            decreases self.out.blocks.len() - n,
        {
            let at: Point = self.out.blocks[n].at;
            let size: Point = self.out.blocks[n].size;
            boxes.push(
                make_box(
                    at.x as i64 - 50800,
                    at.y as i64 - 25400,
                    at.x as i64 + size.x as i64 + 50800,
                    at.y as i64 + size.y as i64 + 25400,
                ),
            );
            n = n + 1;
        }
        proof {
            assert(boxes@ =~= block_boxes(self@.blocks));
        }
        let keep: Vec<bool> = marks_all(self.out.blocks.len());
        match put_together(b, &BoxList { boxes, keep }) {
            Some(e) => {
                self.out.extents = e;
            },
            None => {
                self.out.extents = content;
            },
        }
    }
}

} // verus!
