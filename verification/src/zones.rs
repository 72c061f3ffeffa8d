//! The utility band with its flags, the outlines of the zones, and the extents of a sheet.

use vstd::prelude::*;
use crate::canvas::{Canvas, Drawing, GlobalLabel, HierLabel, NetLabel, PowerSymbol, PwrFlag, Scene};
use crate::geometry::{dot, hull, inflate, spec_inflate, union_box, BBox};
use crate::glyphs::{
    flag_box, hier_box, hier_text_box, label_box, label_text_box, potential_rank, power_box,
    power_points_down,
    power_symbol_graphic_box, pwr_flag_box, ref_box, ref_text_box, value_box, value_text_box,
};
use crate::model::DesignModel;
use crate::order::{
    indices, is_text_behind, lemma_sorted_items, sort_by, sorted_by, text_behind, upto,
};
use crate::place::{PlacedComp, SheetNet};
use crate::text::width;
use crate::units::{
    greater, lesser, sat, spec_max, spec_min, spec_steps, steps, to_iu, Iu, Point, EPS,
};

verus! {

// ---------------------------------------------------------------- boxes put together

/// The box grown to another one; the first box is taken as it is.
pub open spec fn with_box(acc: Option<BBox>, b: BBox) -> Option<BBox> {
    match acc {
        Some(a) => Some(hull(a, b)),
        None => Some(b),
    }
}

/// The first `n` boxes put together, as far as they are wanted.
pub open spec fn joined(acc: Option<BBox>, boxes: Seq<BBox>, keep: Seq<bool>, n: int) -> Option<BBox>
    decreases n,
{
    if n <= 0 || n > boxes.len() {
        acc
    } else if keep[n - 1] {
        with_box(joined(acc, boxes, keep, n - 1), boxes[n - 1])
    } else {
        joined(acc, boxes, keep, n - 1)
    }
}

pub open spec fn joined_all(acc: Option<BBox>, boxes: Seq<BBox>, keep: Seq<bool>) -> Option<BBox> {
    joined(acc, boxes, keep, boxes.len() as int)
}

/// Boxes that were gathered, with a mark on those that are wanted.
pub struct BoxList {
    pub boxes: Vec<BBox>,
    pub keep: Vec<bool>,
}

pub fn put_together(acc: Option<BBox>, list: &BoxList) -> (r: Option<BBox>)
    requires
        list.boxes@.len() == list.keep@.len(),
    ensures
        r == joined_all(acc, list.boxes@, list.keep@),
{
    let mut out: Option<BBox> = acc;
    let mut n: usize = 0;
    while n < list.boxes.len()
        invariant
            n <= list.boxes.len(),
            list.boxes@.len() == list.keep@.len(),
            out == joined(acc, list.boxes@, list.keep@, n as int),
        decreases list.boxes.len() - n,
    {
        if list.keep[n] {
            out = match out {
                Some(a) => Some(union_box(&a, &list.boxes[n])),
                None => Some(list.boxes[n]),
            };
        }
        n = n + 1;
    }
    out
}

/// Body, pins and texts of a placed component, at their final places.
pub open spec fn full_box_of(design: DesignModel, p: PlacedComp) -> BBox {
    let c = design.comps@[p.comp as int];
    hull(
        hull(p.bbox, ref_box(c.refdes@.len() as int, p.ref_at, p.ref_justify_right)),
        value_box(c.value@.len() as int, p.value_at, p.value_justify_right),
    )
}

pub fn placed_full_box(design: &DesignModel, p: &PlacedComp) -> (b: BBox)
    requires
        p.comp < design.comps@.len(),
    ensures
        b == full_box_of(*design, *p),
{
    let mut b: BBox = p.bbox;
    b.union(&ref_text_box(design.comps[p.comp].refdes.as_str(), p.ref_at, p.ref_justify_right));
    b.union(&value_text_box(design.comps[p.comp].value.show().as_str(), p.value_at, p.value_justify_right));
    b
}

/// The components of the utility band (`relegated`), or the others.
pub open spec fn comp_boxes(sc: Scene<'_>) -> Seq<BBox> {
    Seq::new(sc.model.placed@.len(), |i: int| full_box_of(*sc.design, sc.model.placed@[i]))
}

pub open spec fn comp_marks(sc: Scene<'_>, relegated: bool) -> Seq<bool> {
    Seq::new(sc.model.placed@.len(), |i: int| sc.model.placed@[i].relegated == relegated)
}

pub fn comp_list(sc: &Scene, relegated: bool) -> (r: BoxList)
    requires
        sc.wf(),
    ensures
        r.boxes@ == comp_boxes(*sc),
        r.keep@ == comp_marks(*sc, relegated),
{
    let mut boxes: Vec<BBox> = Vec::new();
    let mut keep: Vec<bool> = Vec::new();
    let mut n: usize = 0;
    while n < sc.model.placed.len()
        invariant
            n <= sc.model.placed.len(),
            sc.wf(),
            boxes@ =~= comp_boxes(*sc).take(n as int),
            keep@ =~= comp_marks(*sc, relegated).take(n as int),
        decreases sc.model.placed.len() - n,
    {
        boxes.push(placed_full_box(sc.design, &sc.model.placed[n]));
        keep.push(sc.model.placed[n].relegated == relegated);
        n = n + 1;
    }
    proof {
        assert(boxes@ =~= comp_boxes(*sc));
        assert(keep@ =~= comp_marks(*sc, relegated));
    }
    BoxList { boxes, keep }
}

// ---------------------------------------------------------------- the utility band

/// Is the point in the box, or as good as on its edge?
pub open spec fn within_box(p: Point, b: BBox) -> bool {
    b.x1 - EPS <= p.x <= b.x2 + EPS && b.y1 - EPS <= p.y <= b.y2 + EPS
}

pub fn is_within_box(p: Point, b: &BBox) -> (r: bool)
    ensures
        r == within_box(p, *b),
{
    b.x1 as i64 - EPS <= p.x as i64 && p.x as i64 <= b.x2 as i64 + EPS && b.y1 as i64 - EPS
        <= p.y as i64 && p.y as i64 <= b.y2 as i64 + EPS
}

pub open spec fn symbol_boxes(symbols: Seq<PowerSymbol>) -> Seq<BBox> {
    Seq::new(
        symbols.len(),
        |i: int| power_box(symbols[i].net@.len() as int, symbols[i].at, symbols[i].down),
    )
}

/// Symbols over or under the band, but for those among the flags.
pub open spec fn band_marks(symbols: Seq<PowerSymbol>, band: BBox, flags: Option<BBox>) -> Seq<bool> {
    Seq::new(
        symbols.len(),
        |i: int|
            !(flags is Some && within_box(symbols[i].at, flags->0)) && band.x1 - EPS
                <= symbols[i].at.x <= band.x2 + EPS,
    )
}

/// Leftmost and rightmost edges of the components of the band.
pub open spec fn band_span(sc: Scene<'_>, n: int) -> BBox
    decreases n,
{
    if n <= 0 || n > sc.model.placed@.len() {
        crate::geometry::empty_box()
    } else {
        let before = band_span(sc, n - 1);
        let f = full_box_of(*sc.design, sc.model.placed@[n - 1]);
        if sc.model.placed@[n - 1].relegated {
            BBox {
                x1: spec_min(before.x1 as int, f.x1 as int) as i32,
                x2: spec_max(before.x2 as int, f.x2 as int) as i32,
                ..before
            }
        } else {
            before
        }
    }
}

/// The box of the utility band: its components and the symbols on them. None where no component
/// is in the band.
pub open spec fn utility_band(sc: Scene<'_>, d: Drawing, flags: Option<BBox>) -> Option<BBox> {
    let core = joined_all(None, comp_boxes(sc), comp_marks(sc, true));
    let band = band_span(sc, sc.model.placed@.len() as int);
    match core {
        Some(_) => joined_all(
            core,
            symbol_boxes(d.power_symbols),
            band_marks(d.power_symbols, band, flags),
        ),
        None => None,
    }
}

impl Canvas {
    fn symbol_list(&self) -> (r: Vec<BBox>)
        ensures
            r@ == symbol_boxes(self@.power_symbols),
    {
        let mut boxes: Vec<BBox> = Vec::new();
        let mut n: usize = 0;
        while n < self.out.power_symbols.len()
            invariant
                n <= self.out.power_symbols.len(),
                boxes@ =~= symbol_boxes(self.out.power_symbols@).take(n as int),
            decreases self.out.power_symbols.len() - n,
        {
            let s: &PowerSymbol = &self.out.power_symbols[n];
            boxes.push(power_symbol_graphic_box(s.net.as_str(), s.at, s.down));
            n = n + 1;
        }
        proof {
            assert(boxes@ =~= symbol_boxes(self.out.power_symbols@));
        }
        boxes
    }

    pub fn utility_band_box(&self, sc: &Scene, flags: Option<BBox>) -> (r: Option<BBox>)
        requires
            sc.wf(),
        ensures
            r == utility_band(*sc, self@, flags),
    {
        let core: Option<BBox> = put_together(None, &comp_list(sc, true));
        if core.is_none() {
            return None;
        }
        let mut band: BBox = BBox::empty();
        let mut n: usize = 0;
        while n < sc.model.placed.len()
            invariant
                n <= sc.model.placed.len(),
                sc.wf(),
                band == band_span(*sc, n as int),
            decreases sc.model.placed.len() - n,
        {
            if sc.model.placed[n].relegated {
                let f: BBox = placed_full_box(sc.design, &sc.model.placed[n]);
                band = BBox {
                    x1: lesser(band.x1, f.x1),
                    y1: band.y1,
                    x2: greater(band.x2, f.x2),
                    y2: band.y2,
                };
            }
            n = n + 1;
        }
        let boxes: Vec<BBox> = self.symbol_list();
        let mut keep: Vec<bool> = Vec::new();
        let mut n: usize = 0;
        while n < self.out.power_symbols.len()
            invariant
                n <= self.out.power_symbols.len(),
                keep@ =~= band_marks(self.out.power_symbols@, band, flags).take(n as int),
            decreases self.out.power_symbols.len() - n,
        {
            let at: Point = self.out.power_symbols[n].at;
            let flagged: bool = match flags {
                Some(f) => is_within_box(at, &f),
                None => false,
            };
            keep.push(
                !flagged && band.x1 as i64 - EPS <= at.x as i64 && at.x as i64 <= band.x2 as i64
                    + EPS,
            );
            n = n + 1;
        }
        proof {
            assert(keep@ =~= band_marks(self.out.power_symbols@, band, flags));
        }
        put_together(core, &BoxList { boxes, keep })
    }
}

// ---------------------------------------------------------------- flags in the band

/// Does the symbol of the first net of this name hang down?
pub open spec fn hangs_down(nets: Seq<SheetNet>, name: Seq<char>, i: int) -> bool
    decreases nets.len() - i,
{
    if i < 0 || i >= nets.len() {
        false
    } else if nets[i].name@ == name {
        potential_rank(name, nets[i].class) <= 0
    } else {
        hangs_down(nets, name, i + 1)
    }
}

fn is_hanging(nets: &[SheetNet], name: &String) -> (r: bool)
    ensures
        r == hangs_down(nets@, name@, 0),
{
    let mut i: usize = 0;
    while i < nets.len()
        invariant
            i <= nets.len(),
            hangs_down(nets@, name@, 0) == hangs_down(nets@, name@, i as int),
        decreases nets.len() - i,
    {
        if nets[i].name == *name {
            return power_points_down(name.as_str(), nets[i].class);
        }
        i = i + 1;
    }
    false
}

/// Order of flags: those beside symbols that point up before the others, then by name.
pub open spec fn flag_after(nets: Seq<SheetNet>, a: String, b: String) -> bool {
    let ga = hangs_down(nets, a@, 0);
    let gb = hangs_down(nets, b@, 0);
    if ga != gb {
        ga
    } else {
        text_behind(a@, b@)
    }
}

pub open spec fn flag_order(nets: Seq<SheetNet>, noted: Seq<String>) -> Seq<usize> {
    sorted_by(
        upto(noted.len() as int),
        |a: usize, b: usize| flag_after(nets, noted[a as int], noted[b as int]),
    )
}

/// Half the width of a name, without the width that every symbol has.
pub open spec fn half_name(n: int) -> int {
    spec_steps(n, 7620) + 12700
}

/// One row of the band: a symbol and its flag, joined by a wire that leaves both along their pins.
pub open spec fn flag_row(sc: Scene<'_>, d: Drawing, net: String, down: bool, x: Iu, y: Iu) -> Drawing {
    let at = Point { x, y };
    let gap = sc.cfg.spec_snap_up(half_name(net@.len() as int) + half_name(8) + 12700);
    let flag = Point { x: sat(x + gap), y };
    let exit = sc.cfg.spec_min_pin_exit() as int;
    let ky = sat(
        if down {
            y - exit
        } else {
            y + exit
        },
    );
    let rotation: i32 = if down {
        180
    } else {
        0
    };
    let d1 = d.with_symbol(net, at, down).wired(
        seq![at, Point { x, y: ky }, Point { x: flag.x, y: ky }, flag],
        net,
    ).occupied(flag_box(flag, rotation as int), net);
    Drawing { pwr_flags: d1.pwr_flags.push(PwrFlag { at: flag, rotation }), ..d1 }
}

/// The first `n` rows, and the height of the next one.
pub open spec fn flag_rows(
    sc: Scene<'_>,
    d: Drawing,
    noted: Seq<String>,
    order: Seq<usize>,
    x: Iu,
    y: Iu,
    n: int,
) -> (Drawing, Iu)
    decreases n,
{
    if n <= 0 || n > order.len() {
        (d, y)
    } else {
        let before = flag_rows(sc, d, noted, order, x, y, n - 1);
        let name = noted[order[n - 1] as int];
        (
            flag_row(
                sc,
                before.0,
                name,
                hangs_down(sc.model.nets@, name@, 0),
                x,
                before.1,
            ),
            sc.cfg.spec_snap(before.1 + sc.cfg.utility_pitch_mm),
        )
    }
}

/// Where the rows of flags begin: under the utility band, or right of the content.
pub open spec fn flag_origin(sc: Scene<'_>, d: Drawing) -> Point {
    match utility_band(sc, d, None) {
        Some(r) => Point {
            x: sc.cfg.spec_snap(r.x1 as int),
            y: sc.cfg.spec_snap(r.y2 + sc.cfg.utility_pitch_mm),
        },
        None => Point {
            x: sc.cfg.spec_snap(sc.model.content_box.x2 + sc.cfg.utility_gap_mm),
            y: sc.cfg.spec_snap(sc.model.content_box.y1 + 127000),
        },
    }
}

pub open spec fn flag_boxes(flags: Seq<PwrFlag>) -> Seq<BBox> {
    Seq::new(flags.len(), |i: int| flag_box(flags[i].at, flags[i].rotation as int))
}

/// All marks from place `from` on.
pub open spec fn from_place(n: nat, from: int) -> Seq<bool> {
    Seq::new(n, |i: int| i >= from)
}

/// The flags of the undriven rails in the band, and the box that they take.
pub open spec fn flags_relegated(sc: Scene<'_>, d: Drawing, noted: Seq<String>) -> (
    Drawing,
    Option<BBox>,
) {
    if noted.len() == 0 {
        (d, None)
    } else {
        let o = flag_origin(sc, d);
        let order = flag_order(sc.model.nets@, noted);
        let d1 = flag_rows(sc, d, noted, order, o.x, o.y, order.len() as int).0;
        (
            d1,
            joined_all(
                joined_all(
                    None,
                    flag_boxes(d1.pwr_flags),
                    from_place(d1.pwr_flags.len(), d.pwr_flags.len() as int),
                ),
                symbol_boxes(d1.power_symbols),
                from_place(d1.power_symbols.len(), d.power_symbols.len() as int),
            ),
        )
    }
}

fn marks_from(n: usize, from: usize) -> (r: Vec<bool>)
    ensures
        r@ == from_place(n as nat, from as int),
{
    let mut r: Vec<bool> = Vec::new();
    let mut i: usize = 0;
    while i < n
        invariant
            i <= n,
            r@ =~= from_place(n as nat, from as int).take(i as int),
        decreases n - i,
    {
        r.push(i >= from);
        i = i + 1;
    }
    proof {
        assert(r@ =~= from_place(n as nat, from as int));
    }
    r
}

impl Canvas {
    fn flag_list(&self) -> (r: Vec<BBox>)
        ensures
            r@ == flag_boxes(self@.pwr_flags),
    {
        let mut boxes: Vec<BBox> = Vec::new();
        let mut n: usize = 0;
        while n < self.out.pwr_flags.len()
            invariant
                n <= self.out.pwr_flags.len(),
                boxes@ =~= flag_boxes(self.out.pwr_flags@).take(n as int),
            decreases self.out.pwr_flags.len() - n,
        {
            boxes.push(pwr_flag_box(self.out.pwr_flags[n].at, self.out.pwr_flags[n].rotation));
            n = n + 1;
        }
        proof {
            assert(boxes@ =~= flag_boxes(self.out.pwr_flags@));
        }
        boxes
    }

    fn draw_flag_row(&mut self, sc: &Scene, net: &String, down: bool, x: Iu, y: Iu)
        requires
            sc.wf(),
        ensures
            final(self)@ == flag_row(*sc, old(self)@, *net, down, x, y),
    {
        let at: Point = Point { x, y };
        let own: i64 = steps(width(net.as_str()), 7620) as i64 + 12700;
        let gap: Iu = sc.cfg.snap_up(own + (steps(8, 7620) as i64 + 12700) + 12700);
        let flag: Point = Point { x: to_iu(x as i64 + gap as i64), y };
        let exit: i64 = sc.cfg.min_pin_exit_mm() as i64;
        let ky: Iu = to_iu(
            if down {
                y as i64 - exit
            } else {
                y as i64 + exit
            },
        );
        let rotation: i32 = if down {
            180
        } else {
            0
        };
        self.add_symbol(net, at, down);
        let path: Vec<Point> = vec![at, Point { x, y: ky }, Point { x: flag.x, y: ky }, flag];
        proof {
            assert(path@ =~= seq![at, Point { x, y: ky }, Point { x: flag.x, y: ky }, flag]);
        }
        self.wire(path, net);
        self.occupy(pwr_flag_box(flag, rotation), net);
        self.out.pwr_flags.push(PwrFlag { at: flag, rotation });
    }

    /// Draw the flags of the undriven rails in the utility band. The box that they take is
    /// handed back.
    pub fn relegate_flags(&mut self, sc: &Scene, noted: &Vec<String>) -> (r: Option<BBox>)
        requires
            sc.wf(),
        ensures
            (final(self)@, r) == flags_relegated(*sc, old(self)@, noted@),
    {
        if noted.len() == 0 {
            return None;
        }
        let o: Point = match self.utility_band_box(sc, None) {
            Some(r) => Point {
                x: sc.cfg.snap(r.x1 as i64),
                y: sc.cfg.snap(r.y2 as i64 + sc.cfg.utility_pitch_mm as i64),
            },
            None => Point {
                x: sc.cfg.snap(sc.model.content_box.x2 as i64 + sc.cfg.utility_gap_mm as i64),
                y: sc.cfg.snap(sc.model.content_box.y1 as i64 + 127000),
            },
        };
        let nets: &[SheetNet] = &sc.model.nets;
        let all: Vec<usize> = indices(noted.len());
        let ghost gt = |a: usize, b: usize| flag_after(nets@, noted@[a as int], noted@[b as int]);
        let after = |a: usize, b: usize| -> (r: bool)
            requires
                a < noted@.len(),
                b < noted@.len(),
            ensures
                r == flag_after(nets@, noted@[a as int], noted@[b as int]),
            {
                let ga: bool = is_hanging(nets, &noted[a]);
                let gb: bool = is_hanging(nets, &noted[b]);
                if ga != gb {
                    ga
                } else {
                    is_text_behind(&noted[a], &noted[b])
                }
            };
        let order: Vec<usize> = sort_by(&all, after, Ghost(gt));
        proof {
            lemma_sorted_items(all@, gt, |i: usize| i < noted@.len());
        }
        let first_flag: usize = self.out.pwr_flags.len();
        let first_symbol: usize = self.out.power_symbols.len();
        let ghost d0 = self@;
        let mut y: Iu = o.y;
        let mut n: usize = 0;
        while n < order.len()
            invariant
                n <= order.len(),
                sc.wf(),
                nets@ == sc.model.nets@,
                forall|i: int| 0 <= i < order@.len() ==> #[trigger] order@[i] < noted@.len(),
                (self@, y) == flag_rows(*sc, d0, noted@, order@, o.x, o.y, n as int),
            decreases order.len() - n,
        {
            let name: &String = &noted[order[n]];
            let down: bool = is_hanging(nets, name);
            self.draw_flag_row(sc, name, down, o.x, y);
            y = sc.cfg.snap(y as i64 + sc.cfg.utility_pitch_mm as i64);
            n = n + 1;
        }
        let flags: BoxList = BoxList {
            boxes: self.flag_list(),
            keep: marks_from(self.out.pwr_flags.len(), first_flag),
        };
        let symbols: BoxList = BoxList {
            boxes: self.symbol_list(),
            keep: marks_from(self.out.power_symbols.len(), first_symbol),
        };
        put_together(put_together(None, &flags), &symbols)
    }
}

// ---------------------------------------------------------------- everything that is drawn

pub open spec fn net_label_boxes(v: Seq<NetLabel>) -> Seq<BBox> {
    Seq::new(v.len(), |i: int| label_box(v[i].net@.len() as int, v[i].at, v[i].rotation as int))
}

/// A global label reaches a little beyond its text.
pub open spec fn global_label_boxes(v: Seq<GlobalLabel>) -> Seq<BBox> {
    Seq::new(
        v.len(),
        |i: int|
            spec_inflate(
                label_box(v[i].net@.len() as int, v[i].at, v[i].rotation as int),
                12700,
            ),
    )
}

pub open spec fn hier_label_boxes(v: Seq<HierLabel>) -> Seq<BBox> {
    Seq::new(v.len(), |i: int| hier_box(v[i].net@.len() as int, v[i].at, v[i].rotation as int))
}

pub open spec fn net_label_marks(v: Seq<NetLabel>, seam: int) -> Seq<bool> {
    Seq::new(v.len(), |i: int| v[i].at.x < seam)
}

pub open spec fn global_label_marks(v: Seq<GlobalLabel>, seam: int) -> Seq<bool> {
    Seq::new(v.len(), |i: int| v[i].at.x < seam)
}

pub open spec fn hier_label_marks(v: Seq<HierLabel>, seam: int) -> Seq<bool> {
    Seq::new(v.len(), |i: int| v[i].at.x < seam)
}

pub open spec fn symbol_marks(v: Seq<PowerSymbol>, seam: int) -> Seq<bool> {
    Seq::new(v.len(), |i: int| v[i].at.x < seam)
}

pub open spec fn flag_marks(v: Seq<PwrFlag>, seam: int) -> Seq<bool> {
    Seq::new(v.len(), |i: int| v[i].at.x < seam)
}

pub open spec fn point_boxes(path: Seq<Point>) -> Seq<BBox> {
    Seq::new(path.len(), |i: int| dot(path[i]))
}

pub open spec fn point_marks(path: Seq<Point>, seam: int) -> Seq<bool> {
    Seq::new(path.len(), |i: int| path[i].x < seam)
}

/// The points of the first `n` wires put together, as far as they lie left of the seam.
pub open spec fn wires_joined(acc: Option<BBox>, wires: Seq<Seq<Point>>, seam: int, n: int) -> Option<
    BBox,
>
    decreases n,
{
    if n <= 0 || n > wires.len() {
        acc
    } else {
        joined_all(
            wires_joined(acc, wires, seam, n - 1),
            point_boxes(wires[n - 1]),
            point_marks(wires[n - 1], seam),
        )
    }
}

impl Canvas {
    pub fn net_label_list(&self, seam: i64) -> (r: BoxList)
        ensures
            r.boxes@ == net_label_boxes(self@.net_labels),
            r.keep@ == net_label_marks(self@.net_labels, seam as int),
    {
        let mut boxes: Vec<BBox> = Vec::new();
        let mut keep: Vec<bool> = Vec::new();
        let mut n: usize = 0;
        while n < self.out.net_labels.len()
            invariant
                n <= self.out.net_labels.len(),
                boxes@ =~= net_label_boxes(self.out.net_labels@).take(n as int),
                keep@ =~= net_label_marks(self.out.net_labels@, seam as int).take(n as int),
            decreases self.out.net_labels.len() - n,
        {
            let l: &NetLabel = &self.out.net_labels[n];
            boxes.push(label_text_box(l.net.as_str(), l.at, l.rotation));
            keep.push((l.at.x as i64) < seam);
            n = n + 1;
        }
        proof {
            assert(boxes@ =~= net_label_boxes(self.out.net_labels@));
            assert(keep@ =~= net_label_marks(self.out.net_labels@, seam as int));
        }
        BoxList { boxes, keep }
    }

    pub fn global_label_list(&self, seam: i64) -> (r: BoxList)
        ensures
            r.boxes@ == global_label_boxes(self@.global_labels),
            r.keep@ == global_label_marks(self@.global_labels, seam as int),
    {
        let mut boxes: Vec<BBox> = Vec::new();
        let mut keep: Vec<bool> = Vec::new();
        let mut n: usize = 0;
        while n < self.out.global_labels.len()
            invariant
                n <= self.out.global_labels.len(),
                boxes@ =~= global_label_boxes(self.out.global_labels@).take(n as int),
                keep@ =~= global_label_marks(self.out.global_labels@, seam as int).take(n as int),
            decreases self.out.global_labels.len() - n,
        {
            let l: &GlobalLabel = &self.out.global_labels[n];
            boxes.push(inflate(&label_text_box(l.net.as_str(), l.at, l.rotation), 12700));
            keep.push((l.at.x as i64) < seam);
            n = n + 1;
        }
        proof {
            assert(boxes@ =~= global_label_boxes(self.out.global_labels@));
            assert(keep@ =~= global_label_marks(self.out.global_labels@, seam as int));
        }
        BoxList { boxes, keep }
    }

    pub fn hier_label_list(&self, seam: i64) -> (r: BoxList)
        ensures
            r.boxes@ == hier_label_boxes(self@.hier_labels),
            r.keep@ == hier_label_marks(self@.hier_labels, seam as int),
    {
        let mut boxes: Vec<BBox> = Vec::new();
        let mut keep: Vec<bool> = Vec::new();
        let mut n: usize = 0;
        while n < self.out.hier_labels.len()
            invariant
                n <= self.out.hier_labels.len(),
                boxes@ =~= hier_label_boxes(self.out.hier_labels@).take(n as int),
                keep@ =~= hier_label_marks(self.out.hier_labels@, seam as int).take(n as int),
            decreases self.out.hier_labels.len() - n,
        {
            let l: &HierLabel = &self.out.hier_labels[n];
            boxes.push(hier_text_box(l.net.as_str(), l.at, l.rotation));
            keep.push((l.at.x as i64) < seam);
            n = n + 1;
        }
        proof {
            assert(boxes@ =~= hier_label_boxes(self.out.hier_labels@));
            assert(keep@ =~= hier_label_marks(self.out.hier_labels@, seam as int));
        }
        BoxList { boxes, keep }
    }

    pub fn symbol_box_list(&self, seam: i64) -> (r: BoxList)
        ensures
            r.boxes@ == symbol_boxes(self@.power_symbols),
            r.keep@ == symbol_marks(self@.power_symbols, seam as int),
    {
        let boxes: Vec<BBox> = self.symbol_list();
        let mut keep: Vec<bool> = Vec::new();
        let mut n: usize = 0;
        while n < self.out.power_symbols.len()
            invariant
                n <= self.out.power_symbols.len(),
                keep@ =~= symbol_marks(self.out.power_symbols@, seam as int).take(n as int),
            decreases self.out.power_symbols.len() - n,
        {
            keep.push((self.out.power_symbols[n].at.x as i64) < seam);
            n = n + 1;
        }
        proof {
            assert(keep@ =~= symbol_marks(self.out.power_symbols@, seam as int));
        }
        BoxList { boxes, keep }
    }

    pub fn flag_box_list(&self, seam: i64) -> (r: BoxList)
        ensures
            r.boxes@ == flag_boxes(self@.pwr_flags),
            r.keep@ == flag_marks(self@.pwr_flags, seam as int),
    {
        let boxes: Vec<BBox> = self.flag_list();
        let mut keep: Vec<bool> = Vec::new();
        let mut n: usize = 0;
        while n < self.out.pwr_flags.len()
            invariant
                n <= self.out.pwr_flags.len(),
                keep@ =~= flag_marks(self.out.pwr_flags@, seam as int).take(n as int),
            decreases self.out.pwr_flags.len() - n,
        {
            keep.push((self.out.pwr_flags[n].at.x as i64) < seam);
            n = n + 1;
        }
        proof {
            assert(keep@ =~= flag_marks(self.out.pwr_flags@, seam as int));
        }
        BoxList { boxes, keep }
    }

    pub fn join_wires(&self, acc: Option<BBox>, seam: i64) -> (r: Option<BBox>)
        ensures
            r == wires_joined(acc, self@.wires, seam as int, self@.wires.len() as int),
    {
        let mut out: Option<BBox> = acc;
        let mut k: usize = 0;
        while k < self.out.wires.len()
            invariant
                k <= self.out.wires.len(),
                out == wires_joined(acc, self@.wires, seam as int, k as int),
            decreases self.out.wires.len() - k,
        {
            let w: &Vec<Point> = &self.out.wires[k];
            let mut boxes: Vec<BBox> = Vec::new();
            let mut keep: Vec<bool> = Vec::new();
            let mut n: usize = 0;
            while n < w.len()
                invariant
                    n <= w.len(),
                    boxes@ =~= point_boxes(w@).take(n as int),
                    keep@ =~= point_marks(w@, seam as int).take(n as int),
                decreases w.len() - n,
            {
                boxes.push(BBox { x1: w[n].x, y1: w[n].y, x2: w[n].x, y2: w[n].y });
                keep.push((w[n].x as i64) < seam);
                n = n + 1;
            }
            proof {
                assert(boxes@ =~= point_boxes(w@));
                assert(keep@ =~= point_marks(w@, seam as int));
                assert(self@.wires[k as int] == w@);
            }
            out = put_together(out, &BoxList { boxes, keep });
            k = k + 1;
        }
        out
    }
}

} // verus!
