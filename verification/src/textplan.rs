//! The text pass of a sheet: every reference and value gets a place that covers nothing, or the
//! least harmful one.

use vstd::prelude::*;
use crate::config::SchConfig;
use crate::geometry::{bx, make_box, overlaps, spec_overlaps, BBox, SymbolGeom};
use crate::glyphs::{ref_box, ref_text_box, value_box, value_text_box};
use crate::pins::{geom_of, pad_at, pad_dir, pad_outward, pad_position};
use crate::place::{find_pin_net, label_text_width, pin_net, text_width, PlacedComp};
use crate::registry::{Corridor, CorridorZone};
use crate::texts::{body_box_of, body_only, canonical, canonical_anchors, Board, BoardView};
use crate::units::{
    half, sat, snap_down_to, snap_up_to, spec_half, spec_max, spec_snap_down_to, spec_snap_up_to,
    to_iu, Iu, Point,
};

verus! {

/// A box that belongs to a net and to a component.
#[derive(Debug)]
pub struct OwnedZone {
    pub bbox: BBox,
    pub net: String,
    pub owner: usize,
}

/// A box that belongs to a component.
#[derive(Clone, Copy, Debug, PartialEq, Eq, Structural)]
pub struct OwnedBox {
    pub bbox: BBox,
    pub owner: usize,
}

/// The box of a pin outside its body, with its net.
#[derive(Debug)]
pub struct PinMark {
    pub bbox: BBox,
    pub net: Option<String>,
}

/// What texts have to keep clear of.
#[derive(Debug)]
pub struct TextField {
    pub raws: Vec<BBox>,
    pub corridors: Vec<Corridor>,
    pub zones: Vec<OwnedZone>,
    pub reserved: Vec<OwnedBox>,
}

pub struct FieldView {
    pub raws: Seq<BBox>,
    pub corridors: Seq<Corridor>,
    pub zones: Seq<OwnedZone>,
    pub reserved: Seq<OwnedBox>,
}

impl View for TextField {
    type V = FieldView;

    open spec fn view(&self) -> FieldView {
        FieldView {
            raws: self.raws@,
            corridors: self.corridors@,
            zones: self.zones@,
            reserved: self.reserved@,
        }
    }
}

// ---------------------------------------------------------------- pins

/// The box of a pin from the body to its end. Numbers that are drawn need more room beside it.
pub open spec fn pin_mark_box(pos: Point, dir: Point, body: BBox, beside: int) -> BBox {
    bx(
        if dir.x > 0 {
            body.x2 as int
        } else if dir.x < 0 {
            pos.x - 4000
        } else {
            pos.x - beside
        },
        if dir.y > 0 {
            body.y2 as int
        } else if dir.y < 0 {
            pos.y - 4000
        } else {
            pos.y - beside
        },
        if dir.x < 0 {
            body.x1 as int
        } else {
            pos.x + 4000
        },
        if dir.y < 0 {
            body.y1 as int
        } else {
            pos.y + 4000
        },
    )
}

/// The boxes of the drawn pins among the first `n` pins of a component.
pub open spec fn pin_marks(b: BoardView, pi: int, n: int) -> Seq<PinMark>
    decreases n,
{
    let p = b.placed[pi];
    let geom = geom_of(b.design, p);
    if n <= 0 || n > geom.pins@.len() {
        Seq::empty()
    } else {
        let before = pin_marks(b, pi, n - 1);
        let pin = geom.pins@[n - 1];
        match (
            pad_position(b.design, p, pin.number@),
            pad_outward(b.design, p, pin.number@),
        ) {
            (Some(pos), Some(dir)) => if pin.hidden {
                before
            } else {
                before.push(
                    PinMark {
                        bbox: pin_mark_box(
                            pos,
                            dir,
                            body_only(b.design, p),
                            if geom.pin_numbers_hidden {
                                4000
                            } else {
                                16000
                            },
                        ),
                        net: match pin_net(b.nets, pi, pin.number@) {
                            Some(sn) => Some(b.nets[sn].name),
                            None => None,
                        },
                    },
                )
            },
            _ => before,
        }
    }
}

pub open spec fn all_pin_marks(b: BoardView, pi: int) -> Seq<PinMark> {
    pin_marks(b, pi, geom_of(b.design, b.placed[pi]).pins@.len() as int)
}

pub fn find_pin_marks(b: &Board, pi: usize) -> (r: Vec<PinMark>)
    requires
        b.wf(),
        pi < b.placed@.len(),
    ensures
        r@ == all_pin_marks(b@, pi as int),
{
    let p: &PlacedComp = &b.placed[pi];
    let geom: &SymbolGeom = &b.design.comps[p.comp].geom;
    let body: BBox = body_box_of(b.design, p);
    let beside: i64 = if geom.pin_numbers_hidden {
        4000
    } else {
        16000
    };
    let mut out: Vec<PinMark> = Vec::new();
    let mut n: usize = 0;
    while n < geom.pins.len()
        invariant
            n <= geom.pins.len(),
            b.wf(),
            pi < b.placed@.len(),
            *p == b.placed@[pi as int],
            *geom == geom_of(*b.design, *p),
            body == body_only(*b.design, *p),
            beside == (if geom.pin_numbers_hidden {
                4000int
            } else {
                16000
            }),
            out@ == pin_marks(b@, pi as int, n as int),
        decreases geom.pins.len() - n,
    {
        let number: &String = &geom.pins[n].number.show();
        match (pad_at(b.design, p, number), pad_dir(b.design, p, number)) {
            (Some(pos), Some(dir)) => {
                if !geom.pins[n].hidden {
                    let x: i64 = pos.x as i64;
                    let y: i64 = pos.y as i64;
                    let bbox: BBox = make_box(
                        if dir.x > 0 {
                            body.x2 as i64
                        } else if dir.x < 0 {
                            x - 4000
                        } else {
                            x - beside
                        },
                        if dir.y > 0 {
                            body.y2 as i64
                        } else if dir.y < 0 {
                            y - 4000
                        } else {
                            y - beside
                        },
                        if dir.x < 0 {
                            body.x1 as i64
                        } else {
                            x + 4000
                        },
                        if dir.y < 0 {
                            body.y1 as i64
                        } else {
                            y + 4000
                        },
                    );
                    let net: Option<String> = match find_pin_net(b.nets, pi, number) {
                        Some(sn) => Some(b.nets[sn].name.clone()),
                        None => None,
                    };
                    out.push(PinMark { bbox, net });
                }
            },
            _ => {},
        }
        n = n + 1;
    }
    out
}

// ---------------------------------------------------------------- what a text would cover

pub open spec fn hits_bodies(raws: Seq<BBox>, pi: int, b: BBox) -> bool {
    exists|i: int| 0 <= i < raws.len() && i != pi && spec_overlaps(#[trigger] raws[i], b)
}

pub open spec fn hits_texts(texts: Seq<BBox>, b: BBox) -> bool {
    exists|i: int| 0 <= i < texts.len() && spec_overlaps(#[trigger] texts[i], b)
}

/// A predicted power connection of the component itself (`own`), or of another one.
pub open spec fn hits_corridors(v: Seq<Corridor>, pi: int, own: bool, b: BBox) -> bool {
    exists|i: int|
        0 <= i < v.len() && ((#[trigger] v[i]).owner == pi) == own && spec_overlaps(v[i].bbox, b)
}

/// The drawing of a predicted power symbol of another component.
pub open spec fn hits_graphics(v: Seq<Corridor>, pi: int, b: BBox) -> bool {
    exists|i: int|
        0 <= i < v.len() && (#[trigger] v[i]).zone == CorridorZone::Graphic && v[i].owner != pi
            && spec_overlaps(v[i].bbox, b)
}

pub open spec fn hits_zones(v: Seq<OwnedZone>, pi: int, own: bool, b: BBox) -> bool {
    exists|i: int|
        0 <= i < v.len() && ((#[trigger] v[i]).owner == pi) == own && spec_overlaps(v[i].bbox, b)
}

pub open spec fn hits_reserved(v: Seq<OwnedBox>, pi: int, own: bool, b: BBox) -> bool {
    exists|i: int|
        0 <= i < v.len() && ((#[trigger] v[i]).owner == pi) == own && spec_overlaps(v[i].bbox, b)
}

pub open spec fn hits_pins(v: Seq<PinMark>, b: BBox) -> bool {
    exists|i: int| 0 <= i < v.len() && spec_overlaps((#[trigger] v[i]).bbox, b)
}

/// The text covers something of another component, or a text.
pub open spec fn hard_hit(f: FieldView, texts: Seq<BBox>, pi: int, b: BBox) -> bool {
    hits_bodies(f.raws, pi, b) || hits_texts(texts, b) || hits_corridors(f.corridors, pi, false, b)
        || hits_zones(f.zones, pi, false, b) || hits_reserved(f.reserved, pi, false, b)
}

/// The text covers that, or a stub or pin of its own component.
pub open spec fn soft_hit(
    f: FieldView,
    texts: Seq<BBox>,
    marks: Seq<PinMark>,
    pi: int,
    b: BBox,
) -> bool {
    hard_hit(f, texts, pi, b) || hits_zones(f.zones, pi, true, b) || hits_pins(marks, b)
}

/// The text covers anything at all.
pub open spec fn full_hit(
    f: FieldView,
    texts: Seq<BBox>,
    marks: Seq<PinMark>,
    pi: int,
    b: BBox,
) -> bool {
    soft_hit(f, texts, marks, pi, b) || hits_corridors(f.corridors, pi, true, b)
}

/// At its canonical place the text would cover something whatever the other texts do.
pub open spec fn static_hit(f: FieldView, marks: Seq<PinMark>, pi: int, b: BBox) -> bool {
    hits_bodies(f.raws, pi, b) || hits_corridors(f.corridors, pi, true, b) || hits_corridors(
        f.corridors,
        pi,
        false,
        b,
    ) || hits_zones(f.zones, pi, true, b) || hits_zones(f.zones, pi, false, b) || hits_pins(
        marks,
        b,
    ) || hits_reserved(f.reserved, pi, true, b) || hits_reserved(f.reserved, pi, false, b)
}

/// The text covers a body, a text or the drawing of a power symbol.
pub open spec fn visible_hit(f: FieldView, texts: Seq<BBox>, pi: int, b: BBox) -> bool {
    hits_bodies(f.raws, pi, b) || hits_texts(texts, b) || hits_graphics(f.corridors, pi, b)
}

fn bodies_hit(raws: &Vec<BBox>, pi: usize, b: &BBox) -> (r: bool)
    ensures
        r == hits_bodies(raws@, pi as int, *b),
{
    let mut i: usize = 0;
    while i < raws.len()
        invariant
            i <= raws.len(),
            forall|k: int| 0 <= k < i && k != pi ==> !spec_overlaps(#[trigger] raws@[k], *b),
        decreases raws.len() - i,
    {
        if i != pi && overlaps(&raws[i], b) {
            return true;
        }
        i = i + 1;
    }
    false
}

fn texts_hit(texts: &Vec<BBox>, b: &BBox) -> (r: bool)
    ensures
        r == hits_texts(texts@, *b),
{
    let mut i: usize = 0;
    while i < texts.len()
        invariant
            i <= texts.len(),
            forall|k: int| 0 <= k < i ==> !spec_overlaps(#[trigger] texts@[k], *b),
        decreases texts.len() - i,
    {
        if overlaps(&texts[i], b) {
            return true;
        }
        i = i + 1;
    }
    false
}

fn corridors_hit(v: &[Corridor], pi: usize, own: bool, b: &BBox) -> (r: bool)
    ensures
        r == hits_corridors(v@, pi as int, own, *b),
{
    let mut i: usize = 0;
    while i < v.len()
        invariant
            i <= v.len(),
            forall|k: int|
                0 <= k < i && ((#[trigger] v@[k]).owner == pi) == own ==> !spec_overlaps(
                    v@[k].bbox,
                    *b,
                ),
        decreases v.len() - i,
    {
        if (v[i].owner == pi) == own && overlaps(&v[i].bbox, b) {
            return true;
        }
        i = i + 1;
    }
    false
}

fn graphics_hit(v: &[Corridor], pi: usize, b: &BBox) -> (r: bool)
    ensures
        r == hits_graphics(v@, pi as int, *b),
{
    let mut i: usize = 0;
    while i < v.len()
        invariant
            i <= v.len(),
            forall|k: int|
                0 <= k < i && (#[trigger] v@[k]).zone == CorridorZone::Graphic && v@[k].owner != pi
                    ==> !spec_overlaps(v@[k].bbox, *b),
        decreases v.len() - i,
    {
        if v[i].zone == CorridorZone::Graphic && v[i].owner != pi && overlaps(&v[i].bbox, b) {
            return true;
        }
        i = i + 1;
    }
    false
}

fn zones_hit(v: &Vec<OwnedZone>, pi: usize, own: bool, b: &BBox) -> (r: bool)
    ensures
        r == hits_zones(v@, pi as int, own, *b),
{
    let mut i: usize = 0;
    while i < v.len()
        invariant
            i <= v.len(),
            forall|k: int|
                0 <= k < i && ((#[trigger] v@[k]).owner == pi) == own ==> !spec_overlaps(
                    v@[k].bbox,
                    *b,
                ),
        decreases v.len() - i,
    {
        if (v[i].owner == pi) == own && overlaps(&v[i].bbox, b) {
            return true;
        }
        i = i + 1;
    }
    false
}

fn reserved_hit(v: &Vec<OwnedBox>, pi: usize, own: bool, b: &BBox) -> (r: bool)
    ensures
        r == hits_reserved(v@, pi as int, own, *b),
{
    let mut i: usize = 0;
    while i < v.len()
        invariant
            i <= v.len(),
            forall|k: int|
                0 <= k < i && ((#[trigger] v@[k]).owner == pi) == own ==> !spec_overlaps(
                    v@[k].bbox,
                    *b,
                ),
        decreases v.len() - i,
    {
        if (v[i].owner == pi) == own && overlaps(&v[i].bbox, b) {
            return true;
        }
        i = i + 1;
    }
    false
}

fn pins_hit(v: &Vec<PinMark>, b: &BBox) -> (r: bool)
    ensures
        r == hits_pins(v@, *b),
{
    let mut i: usize = 0;
    while i < v.len()
        invariant
            i <= v.len(),
            forall|k: int| 0 <= k < i ==> !spec_overlaps((#[trigger] v@[k]).bbox, *b),
        decreases v.len() - i,
    {
        if overlaps(&v[i].bbox, b) {
            return true;
        }
        i = i + 1;
    }
    false
}

impl TextField {
    fn hard(&self, texts: &Vec<BBox>, pi: usize, b: &BBox) -> (r: bool)
        ensures
            r == hard_hit(self@, texts@, pi as int, *b),
    {
        bodies_hit(&self.raws, pi, b) || texts_hit(texts, b) || corridors_hit(
            &self.corridors,
            pi,
            false,
            b,
        ) || zones_hit(&self.zones, pi, false, b) || reserved_hit(&self.reserved, pi, false, b)
    }

    fn soft(&self, texts: &Vec<BBox>, marks: &Vec<PinMark>, pi: usize, b: &BBox) -> (r: bool)
        ensures
            r == soft_hit(self@, texts@, marks@, pi as int, *b),
    {
        self.hard(texts, pi, b) || zones_hit(&self.zones, pi, true, b) || pins_hit(marks, b)
    }

    fn full(&self, texts: &Vec<BBox>, marks: &Vec<PinMark>, pi: usize, b: &BBox) -> (r: bool)
        ensures
            r == full_hit(self@, texts@, marks@, pi as int, *b),
    {
        self.soft(texts, marks, pi, b) || corridors_hit(&self.corridors, pi, true, b)
    }

    pub fn fixed(&self, marks: &Vec<PinMark>, pi: usize, b: &BBox) -> (r: bool)
        ensures
            r == static_hit(self@, marks@, pi as int, *b),
    {
        bodies_hit(&self.raws, pi, b) || corridors_hit(&self.corridors, pi, true, b)
            || corridors_hit(&self.corridors, pi, false, b) || zones_hit(&self.zones, pi, true, b)
            || zones_hit(&self.zones, pi, false, b) || pins_hit(marks, b) || reserved_hit(
            &self.reserved,
            pi,
            true,
            b,
        ) || reserved_hit(&self.reserved, pi, false, b)
    }

    fn visible(&self, texts: &Vec<BBox>, pi: usize, b: &BBox) -> (r: bool)
        ensures
            r == visible_hit(self@, texts@, pi as int, *b),
    {
        bodies_hit(&self.raws, pi, b) || texts_hit(texts, b) || graphics_hit(
            &self.corridors,
            pi,
            b,
        )
    }
}

// ---------------------------------------------------------------- one component

/// Where the two texts of a component are written.
#[derive(Clone, Copy, Debug, PartialEq, Eq, Structural)]
pub struct TextPlan {
    pub ref_at: Point,
    pub ref_box: BBox,
    pub ref_right: bool,
    pub value_at: Point,
    pub value_box: BBox,
    pub value_right: bool,
    /// Something is covered.
    pub last_resort: bool,
}

/// The text `k` grid steps up (reference) or down (value) from its place.
pub open spec fn slid(base: Point, g: int, up: bool, k: int) -> Point {
    Point {
        x: base.x,
        y: sat(
            if up {
                base.y - k * g
            } else {
                base.y + k * g
            },
        ),
    }
}

pub open spec fn text_box(n: int, at: Point, right: bool, reference: bool) -> BBox {
    if reference {
        ref_box(n, at, right)
    } else {
        value_box(n, at, right)
    }
}

fn text_box_of(name: &String, at: Point, right: bool, reference: bool) -> (b: BBox)
    ensures
        b == text_box(name@.len() as int, at, right, reference),
{
    if reference {
        ref_text_box(name.as_str(), at, right)
    } else {
        value_text_box(name.as_str(), at, right)
    }
}

/// Everything that decides where a text of the component can go.
pub struct TextCase {
    pub f: FieldView,
    pub texts: Seq<BBox>,
    pub marks: Seq<PinMark>,
    pub pi: int,
    pub g: int,
}

pub open spec fn case_hit(c: TextCase, soft: bool, b: BBox) -> bool {
    if soft {
        soft_hit(c.f, c.texts, c.marks, c.pi, b)
    } else {
        full_hit(c.f, c.texts, c.marks, c.pi, b)
    }
}

/// The first free place, from step `k` to step `top`; none where there is none.
pub open spec fn slide(
    c: TextCase,
    soft: bool,
    n: int,
    base: Point,
    right: bool,
    reference: bool,
    k: int,
    top: int,
) -> Option<Point>
    decreases top - k + 1,
{
    let at = slid(base, c.g, reference, k);
    if k > top {
        None
    } else if !case_hit(c, soft, text_box(n, at, right, reference)) {
        Some(at)
    } else {
        slide(c, soft, n, base, right, reference, k + 1, top)
    }
}

/// How many steps a text may slide: one to three, as far as it stays within two steps of the
/// drawing.
pub open spec fn slide_steps(room: int, g: int) -> int {
    if room * 1000 + g >= 3000 * g {
        3
    } else if room * 1000 + g >= 2000 * g {
        2
    } else {
        1
    }
}

fn slide_steps_of(room: i64, g: Iu) -> (r: i64)
    requires
        g > 0,
        -0x4_0000_0000 <= room <= 0x4_0000_0000,
    ensures
        r == slide_steps(room as int, g as int),
        1 <= r <= 3,
{
    let v: i64 = room * 1000 + g as i64;
    if v >= 3000 * g as i64 {
        3
    } else if v >= 2000 * g as i64 {
        2
    } else {
        1
    }
}

/// Column `k` beside the body: nine to the right, nine to the left where there is room before
/// the margin, and one close to the right edge.
pub open spec fn beside(cfg: SchConfig, body: BBox, wide: int, k: int) -> Option<(Iu, bool)> {
    let g = cfg.grid_mm as int;
    if k < 9 {
        Some((sat(spec_snap_up_to(body.x2 + g, g) + k * g), false))
    } else if k < 18 {
        let x = sat(spec_snap_down_to(body.x1 - g, g) - (k - 9) * g);
        if x - wide >= cfg.margin_left_mm {
            Some((x, true))
        } else {
            None
        }
    } else {
        Some((spec_snap_up_to(body.x2 as int, g), false))
    }
}

/// The two texts side by side with the body.
pub open spec fn lateral(r: int, v: int, x: Iu, y: int, right: bool) -> TextPlan {
    let ref_at = Point { x, y: sat(y - 8000) };
    let value_at = Point { x, y: sat(y + 8000) };
    TextPlan {
        ref_at,
        ref_box: ref_box(r, ref_at, right),
        ref_right: right,
        value_at,
        value_box: value_box(v, value_at, right),
        value_right: right,
        last_resort: false,
    }
}

/// The first column, from column `k` on, where both texts are free.
pub open spec fn first_lateral(
    cfg: SchConfig,
    c: TextCase,
    body: BBox,
    r: int,
    v: int,
    k: int,
) -> Option<TextPlan>
    decreases 19 - k,
{
    let y = spec_half(body.y1 + body.y2) as int;
    if k < 0 || k >= 19 {
        None
    } else {
        match beside(cfg, body, spec_max(text_width(r) as int, text_width(v) as int), k) {
            Some((x, right)) => {
                let t = lateral(r, v, x, y, right);
                if !case_hit(c, false, t.ref_box) && !case_hit(c, false, t.value_box) {
                    Some(t)
                } else {
                    first_lateral(cfg, c, body, r, v, k + 1)
                }
            },
            None => first_lateral(cfg, c, body, r, v, k + 1),
        }
    }
}

pub open spec fn or_point(p: Option<Point>, q: Point) -> Point {
    match p {
        Some(p) => p,
        None => q,
    }
}

/// The place of the two texts, and whether they cover something that shows.
#[verifier::opaque]
pub open spec fn text_plan(b: BoardView, f: FieldView, texts: Seq<BBox>, pi: int) -> (
    TextPlan,
    bool,
) {
    let p = b.placed[pi];
    let comp = b.design.comps@[p.comp as int];
    let body = body_only(b.design, p);
    let raw = f.raws[pi];
    let g = b.cfg.grid_mm as int;
    let r = comp.refdes@.len() as int;
    let v = comp.value@.len() as int;
    let c = TextCase { f, texts, marks: all_pin_marks(b, pi), pi, g };
    let (at_r, at_v, right) = canonical(b.cfg, b.design, p);
    let top_r = slide_steps(at_r.y - (raw.y1 - 2 * g), g);
    let top_v = slide_steps(raw.y2 + 2 * g - at_v.y, g);
    let sr = slide(c, false, r, at_r, false, true, 0, top_r);
    let sv = slide(c, false, v, at_v, right, false, 0, top_v);
    let make = |x: Point, y: Point, last: bool|
        TextPlan {
            ref_at: x,
            ref_box: ref_box(r, x, false),
            ref_right: false,
            value_at: y,
            value_box: value_box(v, y, right),
            value_right: right,
            last_resort: last,
        };
    if sr is Some && sv is Some {
        (make(sr->0, sv->0, false), false)
    } else {
        match first_lateral(b.cfg, c, body, r, v, 0) {
            Some(t) => (t, false),
            None => {
                let t = make(
                    or_point(slide(c, true, r, at_r, false, true, 0, top_r), at_r),
                    or_point(slide(c, true, v, at_v, right, false, 0, top_v), at_v),
                    true,
                );
                (
                    t,
                    visible_hit(f, texts, pi, t.ref_box) || visible_hit(f, texts, pi, t.value_box),
                )
            },
        }
    }
}

impl TextField {
    fn hit(
        &self,
        texts: &Vec<BBox>,
        marks: &Vec<PinMark>,
        pi: usize,
        soft: bool,
        b: &BBox,
        Ghost(g): Ghost<int>,
    ) -> (r: bool)
        ensures
            r == case_hit(
                TextCase { f: self@, texts: texts@, marks: marks@, pi: pi as int, g },
                soft,
                *b,
            ),
    {
        if soft {
            self.soft(texts, marks, pi, b)
        } else {
            self.full(texts, marks, pi, b)
        }
    }

    fn find_slide(
        &self,
        texts: &Vec<BBox>,
        marks: &Vec<PinMark>,
        pi: usize,
        g: Iu,
        soft: bool,
        name: &String,
        base: Point,
        right: bool,
        reference: bool,
        top: i64,
    ) -> (r: Option<Point>)
        requires
            1 <= top <= 3,
        ensures
            r == slide(
                (TextCase {
                    f: self@,
                    texts: texts@,
                    marks: marks@,
                    pi: pi as int,
                    g: g as int,
                }),
                soft,
                name@.len() as int,
                base,
                right,
                reference,
                0,
                top as int,
            ),
    {
        let ghost c = TextCase {
            f: self@,
            texts: texts@,
            marks: marks@,
            pi: pi as int,
            g: g as int,
        };
        let ghost n = name@.len() as int;
        let mut k: i64 = 0;
        while k <= top
            invariant
                0 <= k <= top + 1,
                top <= 3,
                n == name@.len(),
                c == (TextCase {
                    f: self@,
                    texts: texts@,
                    marks: marks@,
                    pi: pi as int,
                    g: g as int,
                }),
                slide(c, soft, n, base, right, reference, 0, top as int) == slide(
                    c,
                    soft,
                    n,
                    base,
                    right,
                    reference,
                    k as int,
                    top as int,
                ),
            decreases top + 1 - k,
        {
            let far: i64 = crate::power::reach(0, k, g);
            let at: Point = Point {
                x: base.x,
                y: to_iu(
                    if reference {
                        base.y as i64 - far
                    } else {
                        base.y as i64 + far
                    },
                ),
            };
            let b: BBox = text_box_of(name, at, right, reference);
            if !self.hit(texts, marks, pi, soft, &b, Ghost(g as int)) {
                return Some(at);
            }
            k = k + 1;
        }
        None
    }

    fn find_lateral(
        &self,
        cfg: &SchConfig,
        texts: &Vec<BBox>,
        marks: &Vec<PinMark>,
        pi: usize,
        body: &BBox,
        refdes: &String,
        value: &String,
    ) -> (r: Option<TextPlan>)
        requires
            cfg.wf(),
        ensures
            r == first_lateral(
                *cfg,
                (TextCase {
                    f: self@,
                    texts: texts@,
                    marks: marks@,
                    pi: pi as int,
                    g: cfg.grid_mm as int,
                }),
                *body,
                refdes@.len() as int,
                value@.len() as int,
                0,
            ),
    {
        let ghost c = TextCase {
            f: self@,
            texts: texts@,
            marks: marks@,
            pi: pi as int,
            g: cfg.grid_mm as int,
        };
        let g: Iu = cfg.grid_mm;
        let y: i64 = half(body.y1 as i64 + body.y2 as i64) as i64;
        let wr: Iu = label_text_width(refdes.as_str());
        let wv: Iu = label_text_width(value.as_str());
        let wide: i64 = if wr >= wv {
            wr as i64
        } else {
            wv as i64
        };
        let ghost r = refdes@.len() as int;
        let ghost v = value@.len() as int;
        let right0: i64 = snap_up_to(body.x2 as i64 + g as i64, g) as i64;
        let left0: i64 = snap_down_to(body.x1 as i64 - g as i64, g) as i64;
        let mut k: i64 = 0;
        while k < 19
            invariant
                0 <= k <= 19,
                cfg.wf(),
                g == cfg.grid_mm,
                c == (TextCase {
                    f: self@,
                    texts: texts@,
                    marks: marks@,
                    pi: pi as int,
                    g: cfg.grid_mm as int,
                }),
                y == spec_half(body.y1 + body.y2),
                r == refdes@.len(),
                v == value@.len(),
                wide == spec_max(text_width(r) as int, text_width(v) as int),
                -0x8000_0000 <= wide <= 0x7fff_ffff,
                right0 == spec_snap_up_to(body.x2 + g, g as int),
                left0 == spec_snap_down_to(body.x1 - g, g as int),
                first_lateral(*cfg, c, *body, r, v, 0) == first_lateral(
                    *cfg,
                    c,
                    *body,
                    r,
                    v,
                    k as int,
                ),
            decreases 19 - k,
        {
            let place: Option<(Iu, bool)> = if k < 9 {
                let far: i64 = crate::power::reach(right0, k, g);
                Some((to_iu(far), false))
            } else if k < 18 {
                let far: i64 = crate::power::reach(0, k - 9, g);
                let x: Iu = to_iu(left0 - far);
                if x as i64 - wide >= cfg.margin_left_mm as i64 {
                    Some((x, true))
                } else {
                    None
                }
            } else {
                Some((snap_up_to(body.x2 as i64, g), false))
            };
            match place {
                Some((x, right)) => {
                    let ref_at: Point = Point { x, y: to_iu(y - 8000) };
                    let value_at: Point = Point { x, y: to_iu(y + 8000) };
                    let rb: BBox = ref_text_box(refdes.as_str(), ref_at, right);
                    let vb: BBox = value_text_box(value.as_str(), value_at, right);
                    if !self.hit(texts, marks, pi, false, &rb, Ghost(g as int)) && !self.hit(
                        texts,
                        marks,
                        pi,
                        false,
                        &vb,
                        Ghost(g as int),
                    ) {
                        return Some(
                            TextPlan {
                                ref_at,
                                ref_box: rb,
                                ref_right: right,
                                value_at,
                                value_box: vb,
                                value_right: right,
                                last_resort: false,
                            },
                        );
                    }
                },
                None => {},
            }
            k = k + 1;
        }
        None
    }

    pub fn plan_for(&self, b: &Board, texts: &Vec<BBox>, marks: &Vec<PinMark>, pi: usize) -> (r: (
        TextPlan,
        bool,
    ))
        requires
            b.wf(),
            pi < b.placed@.len(),
            self@.raws.len() == b.placed@.len(),
            marks@ == all_pin_marks(b@, pi as int),
        ensures
            r == text_plan(b@, self@, texts@, pi as int),
    {
        proof {
            reveal(text_plan);
        }
        let p: &PlacedComp = &b.placed[pi];
        let refdes: &String = &b.design.comps[p.comp].refdes;
        let value: &String = &b.design.comps[p.comp].value.show();
        let body: BBox = body_box_of(b.design, p);
        let raw: BBox = self.raws[pi];
        let g: Iu = b.cfg.grid_mm;
        let (at_r, at_v, right): (Point, Point, bool) = canonical_anchors(b.cfg, b.design, p);
        let top_r: i64 = slide_steps_of(
            at_r.y as i64 - (raw.y1 as i64 - 2 * g as i64),
            g,
        );
        let top_v: i64 = slide_steps_of(raw.y2 as i64 + 2 * g as i64 - at_v.y as i64, g);
        let sr: Option<Point> = self.find_slide(
            texts,
            marks,
            pi,
            g,
            false,
            refdes,
            at_r,
            false,
            true,
            top_r,
        );
        let sv: Option<Point> = self.find_slide(
            texts,
            marks,
            pi,
            g,
            false,
            value,
            at_v,
            right,
            false,
            top_v,
        );
        match (sr, sv) {
            (Some(x), Some(y)) => {
                return (
                    TextPlan {
                        ref_at: x,
                        ref_box: ref_text_box(refdes.as_str(), x, false),
                        ref_right: false,
                        value_at: y,
                        value_box: value_text_box(value.as_str(), y, right),
                        value_right: right,
                        last_resort: false,
                    },
                    false,
                );
            },
            _ => {},
        }
        match self.find_lateral(b.cfg, texts, marks, pi, &body, refdes, value) {
            Some(t) => {
                return (t, false);
            },
            None => {},
        }
        let x: Point = match self.find_slide(
            texts,
            marks,
            pi,
            g,
            true,
            refdes,
            at_r,
            false,
            true,
            top_r,
        ) {
            Some(x) => x,
            None => at_r,
        };
        let y: Point = match self.find_slide(
            texts,
            marks,
            pi,
            g,
            true,
            value,
            at_v,
            right,
            false,
            top_v,
        ) {
            Some(y) => y,
            None => at_v,
        };
        let rb: BBox = ref_text_box(refdes.as_str(), x, false);
        let vb: BBox = value_text_box(value.as_str(), y, right);
        let shows: bool = self.visible(texts, pi, &rb) || self.visible(texts, pi, &vb);
        (
            TextPlan {
                ref_at: x,
                ref_box: rb,
                ref_right: false,
                value_at: y,
                value_box: vb,
                value_right: right,
                last_resort: true,
            },
            shows,
        )
    }
}

} // verus!
