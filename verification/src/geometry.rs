//! Geometry of library symbols: pins, bounding boxes, and where a placed symbol puts them.

use vstd::prelude::*;
use crate::sexpr::{
    child, find_child_list, has_tag, is_sym, is_tagged, is_word, lemma_tree_list, num_at,
    number_at, tree, trees, Sexpr, SexprView,
};
use crate::text::{boxed, Text};
use crate::units::{greater, lesser, point, pt, sat, spec_max, spec_min, to_iu, Iu, Point};

verus! {

/// Axis that a placed symbol is mirrored on.
#[derive(Clone, Copy, Debug, PartialEq, Eq, Structural)]
pub enum MirrorAxis {
    X,
    Y,
}

/// A pin of a library symbol, with Y pointing up.
#[derive(Debug)]
pub struct PinGeom {
    pub number: Text,
    pub name: Text,
    /// Electrical type.
    pub etype: Text,
    pub x: Iu,
    pub y: Iu,
    /// Direction from the connection point into the body, in degrees.
    pub angle: i32,
    pub length: Iu,
    pub hidden: bool,
}

pub struct PinView {
    pub number: Seq<char>,
    pub name: Seq<char>,
    pub etype: Seq<char>,
    pub x: Iu,
    pub y: Iu,
    pub angle: i32,
    pub length: Iu,
    pub hidden: bool,
}

impl View for PinGeom {
    type V = PinView;

    open spec fn view(&self) -> PinView {
        PinView {
            number: self.number@,
            name: self.name@,
            etype: self.etype@,
            x: self.x,
            y: self.y,
            angle: self.angle,
            length: self.length,
            hidden: self.hidden,
        }
    }
}

/// An axis-aligned box. It is empty when it ends before it begins.
#[derive(Clone, Copy, Debug, PartialEq, Eq, Structural)]
pub struct BBox {
    pub x1: Iu,
    pub y1: Iu,
    pub x2: Iu,
    pub y2: Iu,
}

/// The box that holds no point and adds nothing to a union.
pub open spec fn empty_box() -> BBox {
    BBox { x1: i32::MAX, y1: i32::MAX, x2: i32::MIN, y2: i32::MIN }
}

/// The box with the given edges, each brought into range.
pub open spec fn bx(x1: int, y1: int, x2: int, y2: int) -> BBox {
    BBox { x1: sat(x1), y1: sat(y1), x2: sat(x2), y2: sat(y2) }
}

pub fn make_box(x1: i64, y1: i64, x2: i64, y2: i64) -> (b: BBox)
    ensures
        b == bx(x1 as int, y1 as int, x2 as int, y2 as int),
{
    BBox { x1: to_iu(x1), y1: to_iu(y1), x2: to_iu(x2), y2: to_iu(y2) }
}

/// The smallest box that holds `b` and the point `(x, y)`.
pub open spec fn grown(b: BBox, x: Iu, y: Iu) -> BBox {
    BBox {
        x1: spec_min(b.x1 as int, x as int) as i32,
        y1: spec_min(b.y1 as int, y as int) as i32,
        x2: spec_max(b.x2 as int, x as int) as i32,
        y2: spec_max(b.y2 as int, y as int) as i32,
    }
}

/// The smallest box that holds both; an empty `b` changes nothing.
pub open spec fn hull(a: BBox, b: BBox) -> BBox {
    if b.spec_is_empty() {
        a
    } else {
        grown(grown(a, b.x1, b.y1), b.x2, b.y2)
    }
}

/// Do the interiors of the two boxes meet?
pub open spec fn spec_overlaps(a: BBox, b: BBox) -> bool {
    a.x1 < b.x2 && b.x1 < a.x2 && a.y1 < b.y2 && b.y1 < a.y2
}

impl BBox {
    pub open spec fn spec_is_empty(self) -> bool {
        self.x1 > self.x2 || self.y1 > self.y2
    }

    pub fn empty() -> (b: BBox)
        ensures
            b == empty_box(),
    {
        BBox { x1: 2147483647, y1: 2147483647, x2: -2147483648, y2: -2147483648 }
    }

    pub fn is_empty(&self) -> (r: bool)
        ensures
            r == self.spec_is_empty(),
    {
        self.x1 > self.x2 || self.y1 > self.y2
    }

    /// Grow the box to hold the point `(x, y)`.
    pub fn extend(&mut self, x: Iu, y: Iu)
        ensures
            *final(self) == grown(*old(self), x, y),
    {
        let b: BBox = *self;
        *self = BBox {
            x1: lesser(b.x1, x),
            y1: lesser(b.y1, y),
            x2: greater(b.x2, x),
            y2: greater(b.y2, y),
        };
    }

    /// Grow the box to hold `other`.
    pub fn union(&mut self, other: &BBox)
        ensures
            *final(self) == hull(*old(self), *other),
    {
        if !other.is_empty() {
            self.extend(other.x1, other.y1);
            self.extend(other.x2, other.y2);
        }
    }

    pub open spec fn spec_width(self) -> int {
        if self.spec_is_empty() {
            0
        } else {
            self.x2 - self.x1
        }
    }

    pub fn width(&self) -> (w: i64)
        ensures
            w == self.spec_width(),
    {
        if self.is_empty() {
            0
        } else {
            self.x2 as i64 - self.x1 as i64
        }
    }

    pub open spec fn spec_height(self) -> int {
        if self.spec_is_empty() {
            0
        } else {
            self.y2 - self.y1
        }
    }

    pub fn height(&self) -> (h: i64)
        ensures
            h == self.spec_height(),
    {
        if self.is_empty() {
            0
        } else {
            self.y2 as i64 - self.y1 as i64
        }
    }

    /// The box itself, or a small square around the origin where it is empty.
    pub open spec fn spec_or_default(self) -> BBox {
        if self.spec_is_empty() {
            bx(-25400, -25400, 25400, 25400)
        } else {
            self
        }
    }

    pub fn or_default(self) -> (b: BBox)
        ensures
            b == self.spec_or_default(),
    {
        if self.is_empty() {
            BBox { x1: -25400, y1: -25400, x2: 25400, y2: 25400 }
        } else {
            self
        }
    }
}

/// Do the interiors of the two boxes meet?
pub fn overlaps(a: &BBox, b: &BBox) -> (r: bool)
    ensures
        r == spec_overlaps(*a, *b),
{
    a.x1 < b.x2 && b.x1 < a.x2 && a.y1 < b.y2 && b.y1 < a.y2
}

/// The box with a margin `m` added on every side.
pub open spec fn spec_inflate(b: BBox, m: int) -> BBox {
    bx(b.x1 - m, b.y1 - m, b.x2 + m, b.y2 + m)
}

pub fn inflate(b: &BBox, m: Iu) -> (r: BBox)
    ensures
        r == spec_inflate(*b, m as int),
{
    let m: i64 = m as i64;
    make_box(b.x1 as i64 - m, b.y1 as i64 - m, b.x2 as i64 + m, b.y2 as i64 + m)
}

pub fn union_box(a: &BBox, b: &BBox) -> (r: BBox)
    ensures
        r == hull(*a, *b),
{
    let mut out: BBox = *a;
    out.union(b);
    out
}

/// The square of half-width `m` around `p`.
pub open spec fn spec_point_box(p: Point, m: int) -> BBox {
    bx(p.x - m, p.y - m, p.x + m, p.y + m)
}

pub fn point_box(p: Point, m: Iu) -> (r: BBox)
    ensures
        r == spec_point_box(p, m as int),
{
    let m: i64 = m as i64;
    make_box(p.x as i64 - m, p.y as i64 - m, p.x as i64 + m, p.y as i64 + m)
}

/// The box of one point.
pub open spec fn dot(p: Point) -> BBox {
    BBox { x1: p.x, y1: p.y, x2: p.x, y2: p.y }
}

/// Geometry of a library symbol.
#[derive(Debug)]
pub struct SymbolGeom {
    pub lib_id: Text,
    pub pins: Box<[PinGeom]>,
    /// Box of the drawn body.
    pub body_bbox: BBox,
    /// Box of the body and of the pins' connection points.
    pub full_bbox: BBox,
    /// The symbol does not draw its pin numbers.
    pub pin_numbers_hidden: bool,
}

/// A library symbol: its geometry and its block.
#[derive(Debug)]
pub struct LibSymbol {
    pub geom: SymbolGeom,
    /// The symbol block, under its library id.
    pub sexpr: Sexpr,
}

pub open spec fn spec_mirror(x: int, y: int, mirror: Option<MirrorAxis>) -> (int, int) {
    match mirror {
        Some(MirrorAxis::X) => (x, -y),
        Some(MirrorAxis::Y) => (-x, y),
        None => (x, y),
    }
}

pub fn apply_mirror(x: i64, y: i64, mirror: Option<MirrorAxis>) -> (r: (i64, i64))
    requires
        -0x8000_0000 <= x <= 0x8000_0000,
        -0x8000_0000 <= y <= 0x8000_0000,
    ensures
        (r.0 as int, r.1 as int) == spec_mirror(x as int, y as int, mirror),
        -0x8000_0000 <= r.0 <= 0x8000_0000,
        -0x8000_0000 <= r.1 <= 0x8000_0000,
{
    match mirror {
        Some(MirrorAxis::X) => (x, -y),
        Some(MirrorAxis::Y) => (-x, y),
        None => (x, y),
    }
}

/// Counter-clockwise rotation by a multiple of 90 degrees; other angles rotate nothing.
pub open spec fn spec_rotate(x: int, y: int, rotation: int) -> (int, int) {
    if rotation % 360 == 90 {
        (-y, x)
    } else if rotation % 360 == 180 {
        (-x, -y)
    } else if rotation % 360 == 270 {
        (y, -x)
    } else {
        (x, y)
    }
}

/// Turning back undoes a quarter turn, and mirroring again undoes a mirror.
pub proof fn law_turns_and_mirrors_undo(x: int, y: int, rotation: int, mirror: Option<MirrorAxis>)
    ensures
        ({
            let t = spec_rotate(x, y, rotation);
            spec_rotate(t.0, t.1, -rotation) == (x, y)
        }),
        ({
            let m = spec_mirror(x, y, mirror);
            spec_mirror(m.0, m.1, mirror) == (x, y)
        }),
{
}

/// `v` brought into `0..360`.
pub fn full_turn(v: i64) -> (r: i32)
    ensures
        r == (v as int) % 360,
        0 <= r < 360,
{
    match v.checked_rem_euclid(360) {
        Some(r) => r as i32,
        None => 0,
    }
}

pub fn rotate_ccw(x: i64, y: i64, rotation: i32) -> (r: (i64, i64))
    requires
        -0x8000_0000 <= x <= 0x8000_0000,
        -0x8000_0000 <= y <= 0x8000_0000,
    ensures
        (r.0 as int, r.1 as int) == spec_rotate(x as int, y as int, rotation as int),
        -0x8000_0000 <= r.0 <= 0x8000_0000,
        -0x8000_0000 <= r.1 <= 0x8000_0000,
{
    let turn: i32 = full_turn(rotation as i64);
    if turn == 90 {
        (-y, x)
    } else if turn == 180 {
        (-x, -y)
    } else if turn == 270 {
        (y, -x)
    } else {
        (x, y)
    }
}

/// Where a symbol placed at `at` puts its point `(x, y)`: mirrored, rotated, and with Y turned down.
pub open spec fn spec_transform(
    x: int,
    y: int,
    at: Point,
    rotation: int,
    mirror: Option<MirrorAxis>,
) -> Point {
    let m = spec_mirror(x, y, mirror);
    let r = spec_rotate(m.0, m.1, rotation);
    pt(at.x + r.0, at.y - r.1)
}

pub fn transform(x: Iu, y: Iu, at: Point, rotation: i32, mirror: Option<MirrorAxis>) -> (p: Point)
    ensures
        p == spec_transform(x as int, y as int, at, rotation as int, mirror),
{
    let m: (i64, i64) = apply_mirror(x as i64, y as i64, mirror);
    let r: (i64, i64) = rotate_ccw(m.0, m.1, rotation);
    point(at.x as i64 + r.0, at.y as i64 - r.1)
}

/// Outward direction of a pin on the sheet, away from the body.
pub open spec fn spec_outward(angle: int, rotation: int, mirror: Option<MirrorAxis>) -> Point {
    let o = (angle + 180) % 360;
    let d: (int, int) = if o == 90 {
        (0, 1)
    } else if o == 180 {
        (-1, 0)
    } else if o == 270 {
        (0, -1)
    } else {
        (1, 0)
    };
    let m = spec_mirror(d.0, d.1, mirror);
    let r = spec_rotate(m.0, m.1, rotation);
    pt(r.0, -r.1)
}

pub fn outward(angle: i32, rotation: i32, mirror: Option<MirrorAxis>) -> (p: Point)
    ensures
        p == spec_outward(angle as int, rotation as int, mirror),
{
    let o: i32 = full_turn(angle as i64 + 180);
    let d: (i64, i64) = if o == 90 {
        (0, 1)
    } else if o == 180 {
        (-1, 0)
    } else if o == 270 {
        (0, -1)
    } else {
        (1, 0)
    };
    let m: (i64, i64) = apply_mirror(d.0, d.1, mirror);
    let r: (i64, i64) = rotate_ccw(m.0, m.1, rotation);
    point(r.0, -r.1)
}

/// Index of the first pin with the given number, at or after `from`.
pub open spec fn pin_index(pins: Seq<PinGeom>, number: Seq<char>, from: int) -> Option<int>
    decreases pins.len() - from,
{
    if from < 0 || from >= pins.len() {
        None
    } else if pins[from].number@ == number {
        Some(from)
    } else {
        pin_index(pins, number, from + 1)
    }
}

pub proof fn lemma_pin_index(pins: Seq<PinGeom>, number: Seq<char>, from: int)
    requires
        0 <= from,
    ensures
        match pin_index(pins, number, from) {
            Some(i) => from <= i < pins.len() && pins[i].number@ == number && (forall|j: int|
                from <= j < i ==> (#[trigger] pins[j]).number@ != number),
            None => forall|j: int| from <= j < pins.len() ==> (#[trigger] pins[j]).number@ != number,
        },
    decreases pins.len() - from,
{
    if from < pins.len() && pins[from].number@ != number {
        lemma_pin_index(pins, number, from + 1);
    }
}

impl SymbolGeom {
    pub open spec fn spec_pin(&self, number: Seq<char>) -> Option<int> {
        pin_index(self.pins@, number, 0)
    }

    /// Index of the first pin with the given number.
    pub fn pin_at(&self, number: &String) -> (r: Option<usize>)
        ensures
            match r {
                Some(i) => self.spec_pin(number@) == Some(i as int) && i < self.pins@.len()
                    && self.pins@[i as int].number@ == number@,
                None => self.spec_pin(number@) is None,
            },
    {
        let mut i: usize = 0;
        while i < self.pins.len()
            invariant
                i <= self.pins.len(),
                self.spec_pin(number@) == pin_index(self.pins@, number@, i as int),
            decreases self.pins.len() - i,
        {
            if self.pins[i].number.is(number.as_str()) {
                return Some(i);
            }
            i = i + 1;
        }
        None
    }

    /// The first pin with the given number.
    pub fn pin(&self, number: &str) -> (r: Option<&PinGeom>)
        ensures
            match r {
                Some(p) => self.spec_pin(number@) is Some && *p == self.pins@[self.spec_pin(
                    number@,
                )->0],
                None => self.spec_pin(number@) is None,
            },
    {
        let owned: String = number.to_owned();
        match self.pin_at(&owned) {
            Some(i) => Some(&self.pins[i]),
            None => None,
        }
    }

    /// Where the pin's connection point lands on the sheet.
    pub open spec fn spec_pin_position(
        &self,
        number: Seq<char>,
        at: Point,
        rotation: int,
        mirror: Option<MirrorAxis>,
    ) -> Option<Point> {
        match self.spec_pin(number) {
            Some(i) => Some(
                spec_transform(
                    self.pins@[i].x as int,
                    self.pins@[i].y as int,
                    at,
                    rotation,
                    mirror,
                ),
            ),
            None => None,
        }
    }

    pub fn pin_position(
        &self,
        number: &String,
        at: Point,
        rotation: i32,
        mirror: Option<MirrorAxis>,
    ) -> (r: Option<Point>)
        ensures
            r == self.spec_pin_position(number@, at, rotation as int, mirror),
    {
        match self.pin_at(number) {
            Some(i) => Some(transform(self.pins[i].x, self.pins[i].y, at, rotation, mirror)),
            None => None,
        }
    }

    /// Unit vector from the pin's connection point away from the body.
    pub open spec fn spec_pin_outward(
        &self,
        number: Seq<char>,
        rotation: int,
        mirror: Option<MirrorAxis>,
    ) -> Option<Point> {
        match self.spec_pin(number) {
            Some(i) => Some(spec_outward(self.pins@[i].angle as int, rotation, mirror)),
            None => None,
        }
    }

    pub fn pin_outward(
        &self,
        number: &String,
        rotation: i32,
        mirror: Option<MirrorAxis>,
    ) -> (r: Option<Point>)
        ensures
            r == self.spec_pin_outward(number@, rotation as int, mirror),
    {
        match self.pin_at(number) {
            Some(i) => Some(outward(self.pins[i].angle, rotation, mirror)),
            None => None,
        }
    }
}

/// The box that the four corners of `lb` span once the symbol is placed.
pub open spec fn spec_placed_box(
    lb: BBox,
    at: Point,
    rotation: int,
    mirror: Option<MirrorAxis>,
) -> BBox {
    let a = spec_transform(lb.x1 as int, lb.y1 as int, at, rotation, mirror);
    let b = spec_transform(lb.x1 as int, lb.y2 as int, at, rotation, mirror);
    let c = spec_transform(lb.x2 as int, lb.y1 as int, at, rotation, mirror);
    let d = spec_transform(lb.x2 as int, lb.y2 as int, at, rotation, mirror);
    grown(grown(grown(grown(empty_box(), a.x, a.y), b.x, b.y), c.x, c.y), d.x, d.y)
}

pub fn placed_box(lb: &BBox, at: Point, rotation: i32, mirror: Option<MirrorAxis>) -> (r: BBox)
    ensures
        r == spec_placed_box(*lb, at, rotation as int, mirror),
{
    let a: Point = transform(lb.x1, lb.y1, at, rotation, mirror);
    let b: Point = transform(lb.x1, lb.y2, at, rotation, mirror);
    let c: Point = transform(lb.x2, lb.y1, at, rotation, mirror);
    let d: Point = transform(lb.x2, lb.y2, at, rotation, mirror);
    let mut out: BBox = BBox::empty();
    out.extend(a.x, a.y);
    out.extend(b.x, b.y);
    out.extend(c.x, c.y);
    out.extend(d.x, d.y);
    out
}

/// Box of the body and pins of a placed symbol.
pub open spec fn spec_raw_box(
    geom: SymbolGeom,
    at: Point,
    rotation: int,
    mirror: Option<MirrorAxis>,
) -> BBox {
    spec_placed_box(geom.full_bbox, at, rotation, mirror)
}

pub fn raw_box(geom: &SymbolGeom, at: Point, rotation: i32, mirror: Option<MirrorAxis>) -> (r: BBox)
    ensures
        r == spec_raw_box(*geom, at, rotation as int, mirror),
{
    placed_box(&geom.full_bbox, at, rotation, mirror)
}

/// Box of the body of a placed symbol.
pub open spec fn spec_body_box(
    geom: SymbolGeom,
    at: Point,
    rotation: int,
    mirror: Option<MirrorAxis>,
) -> BBox {
    spec_placed_box(geom.body_bbox, at, rotation, mirror)
}

pub fn body_box(
    geom: &SymbolGeom,
    at: Point,
    rotation: i32,
    mirror: Option<MirrorAxis>,
) -> (r: BBox)
    ensures
        r == spec_body_box(*geom, at, rotation as int, mirror),
{
    placed_box(&geom.body_bbox, at, rotation, mirror)
}

// ---------------------------------------------------------------- reading a symbol block

/// Why a block is no library symbol.
#[derive(Clone, Copy, Debug, PartialEq, Eq, Structural)]
pub enum SymbolError {
    /// The block is not a list.
    NotAList,
    /// The block does not start with the word `symbol`.
    NotASymbol,
    /// Nothing follows the word `symbol`.
    NoName,
    /// What follows the word `symbol` is no quoted text.
    NameNotString,
}

/// What is gathered from a symbol block: its pins and the box of its body.
pub struct Gathered {
    pub pins: Seq<PinView>,
    pub bbox: BBox,
}

pub open spec fn point_at(items: Seq<SexprView>, key: Seq<char>) -> Option<Point> {
    match child(items, key) {
        Some(l) => match (number_at(l, 1), number_at(l, 2)) {
            (Some(x), Some(y)) => Some(Point { x, y }),
            _ => None,
        },
        None => None,
    }
}

/// `b` grown to the point stored under `key`, where there is one.
pub open spec fn grown_to(b: BBox, items: Seq<SexprView>, key: Seq<char>) -> BBox {
    match point_at(items, key) {
        Some(p) => grown(b, p.x, p.y),
        None => b,
    }
}

/// `b` grown to the first `n` of the `xy` points among `pts`.
pub open spec fn grown_to_xy(b: BBox, pts: Seq<SexprView>, n: int) -> BBox
    decreases n,
{
    if n <= 0 || n > pts.len() {
        b
    } else {
        let before = grown_to_xy(b, pts, n - 1);
        if is_tagged(pts[n - 1], "xy"@) {
            let xy = pts[n - 1]->List_0;
            match (number_at(xy, 1), number_at(xy, 2)) {
                (Some(x), Some(y)) => grown(before, x, y),
                _ => before,
            }
        } else {
            before
        }
    }
}

/// `b` grown to the circle that `items` describe.
pub open spec fn grown_to_circle(b: BBox, items: Seq<SexprView>) -> BBox {
    match (point_at(items, "center"@), child(items, "radius"@)) {
        (Some(c), Some(l)) => match number_at(l, 1) {
            Some(r) => {
                let low = pt(c.x - r, c.y - r);
                let high = pt(c.x + r, c.y + r);
                grown(grown(b, low.x, low.y), high.x, high.y)
            },
            None => b,
        },
        _ => b,
    }
}

/// The text of the quoted atom in second place of the list under `key`.
pub open spec fn quoted_at(items: Seq<SexprView>, key: Seq<char>) -> Option<Seq<char>> {
    match child(items, key) {
        Some(l) => if l.len() > 1 {
            match l[1] {
                SexprView::Str(s) => Some(s),
                _ => None,
            }
        } else {
            None
        },
        None => None,
    }
}

/// A whole number of degrees; fractions are cut off.
pub open spec fn degrees(node: SexprView) -> i32 {
    match node {
        SexprView::Int(v) => sat(v),
        SexprView::Num(v) => if v >= 0 {
            (v / 10000) as i32
        } else {
            (-((-v) / 10000)) as i32
        },
        _ => 0,
    }
}

/// A pin is hidden by the bare word `hide` or by `(hide yes)`.
pub open spec fn hides(items: Seq<SexprView>) -> bool {
    ||| exists|i: int| 0 <= i < items.len() && is_word(#[trigger] items[i], "hide"@)
    ||| match child(items, "hide"@) {
        Some(l) => l.len() > 1 && is_word(l[1], "yes"@),
        None => false,
    }
}

/// The pin that a `(pin ...)` list describes; it needs a position and a number.
pub open spec fn pin_of(items: Seq<SexprView>) -> Option<PinView> {
    match (point_at(items, "at"@), quoted_at(items, "number"@)) {
        (Some(p), Some(number)) => Some(
            PinView {
                number,
                name: match quoted_at(items, "name"@) {
                    Some(n) => n,
                    None => Seq::empty(),
                },
                etype: if items.len() > 1 && items[1] is Symbol {
                    items[1]->Symbol_0
                } else {
                    "passive"@
                },
                x: p.x,
                y: p.y,
                angle: {
                    let at = child(items, "at"@)->0;
                    if at.len() > 3 {
                        degrees(at[3])
                    } else {
                        0
                    }
                },
                length: match child(items, "length"@) {
                    Some(l) => match number_at(l, 1) {
                        Some(v) => v,
                        None => 0,
                    },
                    None => 0,
                },
                hidden: hides(items),
            },
        ),
        _ => None,
    }
}

/// Everything that the block adds to what was gathered before it.
pub open spec fn gather(node: SexprView, g: Gathered) -> Gathered
    decreases
            node,
            if node is List {
                node->List_0.len() + 2
            } else {
                0
            },
{
    match node {
        SexprView::List(items) => {
            if is_tagged(node, "pin"@) {
                match pin_of(items) {
                    Some(p) => Gathered { pins: g.pins.push(p), bbox: g.bbox },
                    None => g,
                }
            } else if is_tagged(node, "rectangle"@) {
                Gathered {
                    pins: g.pins,
                    bbox: grown_to(grown_to(g.bbox, items, "start"@), items, "end"@),
                }
            } else if is_tagged(node, "polyline"@) || is_tagged(node, "bezier"@) {
                match child(items, "pts"@) {
                    Some(pts) => Gathered {
                        pins: g.pins,
                        bbox: grown_to_xy(g.bbox, pts, pts.len() as int),
                    },
                    None => g,
                }
            } else if is_tagged(node, "circle"@) {
                Gathered { pins: g.pins, bbox: grown_to_circle(g.bbox, items) }
            } else if is_tagged(node, "arc"@) {
                Gathered {
                    pins: g.pins,
                    bbox: grown_to(
                        grown_to(grown_to(g.bbox, items, "start"@), items, "mid"@),
                        items,
                        "end"@,
                    ),
                }
            } else if is_tagged(node, "property"@) {
                g
            } else {
                gather_all(node, items.len() as int, g)
            }
        },
        _ => g,
    }
}

/// What the first `n` children of a list add, in order.
pub open spec fn gather_all(node: SexprView, n: int, g: Gathered) -> Gathered
    decreases node, 1 + n,
    when node is List && n <= node->List_0.len()
{
    if n <= 0 {
        g
    } else {
        gather(node->List_0[n - 1], gather_all(node, n - 1, g))
    }
}

pub open spec fn pins_view(pins: Seq<PinGeom>) -> Seq<PinView> {
    Seq::new(pins.len(), |i: int| pins[i]@)
}

fn point_of(items: &Vec<Sexpr>, key: &str) -> (r: Option<Point>)
    ensures
        r == point_at(trees(items@), key@),
{
    match find_child_list(items, key) {
        Some(l) => {
            match (num_at(l, 1), num_at(l, 2)) {
                (Some(x), Some(y)) => Some(Point { x, y }),
                _ => None,
            }
        },
        None => None,
    }
}

fn extend_to(bbox: &mut BBox, items: &Vec<Sexpr>, key: &str)
    ensures
        *final(bbox) == grown_to(*old(bbox), trees(items@), key@),
{
    match point_of(items, key) {
        Some(p) => bbox.extend(p.x, p.y),
        None => {},
    }
}

fn quoted(items: &Vec<Sexpr>, key: &str) -> (r: Option<String>)
    ensures
        match r {
            Some(s) => quoted_at(trees(items@), key@) == Some(s@),
            None => quoted_at(trees(items@), key@) is None,
        },
{
    match find_child_list(items, key) {
        Some(l) => {
            if l.len() > 1 {
                match &l[1] {
                    Sexpr::Str(s) => Some(s.clone()),
                    _ => None,
                }
            } else {
                None
            }
        },
        None => None,
    }
}

fn degrees_of(node: &Sexpr) -> (r: i32)
    ensures
        r == degrees(node@),
{
    match node {
        Sexpr::Int(v) => to_iu(*v),
        Sexpr::Num(v) => {
            let wide: i64 = *v as i64;
            if wide >= 0 {
                (wide / 10000) as i32
            } else {
                (-((-wide) / 10000)) as i32
            }
        },
        _ => 0,
    }
}

fn is_hidden(items: &Vec<Sexpr>) -> (r: bool)
    ensures
        r == hides(trees(items@)),
{
    let mut i: usize = 0;
    while i < items.len()
        invariant
            i <= items.len(),
            forall|j: int| 0 <= j < i ==> !is_word(#[trigger] trees(items@)[j], "hide"@),
        decreases items.len() - i,
    {
        if is_sym(&items[i], "hide") {
            proof {
                assert(is_word(trees(items@)[i as int], "hide"@));
            }
            return true;
        }
        i = i + 1;
    }
    match find_child_list(items, "hide") {
        Some(l) => l.len() > 1 && is_sym(&l[1], "yes"),
        None => false,
    }
}

fn parse_pin(items: &Vec<Sexpr>) -> (r: Option<PinGeom>)
    ensures
        match r {
            Some(p) => pin_of(trees(items@)) == Some(p@),
            None => pin_of(trees(items@)) is None,
        },
{
    let at: Point = match point_of(items, "at") {
        Some(p) => p,
        None => return None,
    };
    let number: Text = match quoted(items, "number") {
        Some(s) => Text::of(s.as_str()),
        None => return None,
    };
    let name: Text = match quoted(items, "name") {
        Some(s) => Text::of(s.as_str()),
        None => Text::of(String::new().as_str()),
    };
    let etype: Text = if items.len() > 1 {
        match &items[1] {
            Sexpr::Symbol(s) => Text::of(s.as_str()),
            _ => Text::of("passive"),
        }
    } else {
        Text::of("passive")
    };
    let angle: i32 = match find_child_list(items, "at") {
        Some(l) => {
            if l.len() > 3 {
                degrees_of(&l[3])
            } else {
                0
            }
        },
        None => 0,
    };
    let length: Iu = match find_child_list(items, "length") {
        Some(l) => {
            match num_at(l, 1) {
                Some(v) => v,
                None => 0,
            }
        },
        None => 0,
    };
    let hidden: bool = is_hidden(items);
    Some(PinGeom { number, name, etype, x: at.x, y: at.y, angle, length, hidden })
}

fn extend_to_xy(bbox: &mut BBox, pts: &Vec<Sexpr>)
    ensures
        *final(bbox) == grown_to_xy(*old(bbox), trees(pts@), pts@.len() as int),
{
    let mut i: usize = 0;
    while i < pts.len()
        invariant
            i <= pts.len(),
            *bbox == grown_to_xy(*old(bbox), trees(pts@), i as int),
        decreases pts.len() - i,
    {
        proof {
            assert(trees(pts@)[i as int] == tree(pts@[i as int]));
        }
        if has_tag(&pts[i], "xy") {
            match &pts[i] {
                Sexpr::List(xy) => {
                    proof {
                        lemma_tree_list(*xy);
                    }
                    match (num_at(xy, 1), num_at(xy, 2)) {
                        (Some(x), Some(y)) => bbox.extend(x, y),
                        _ => {},
                    }
                },
                _ => {},
            }
        }
        i = i + 1;
    }
}

fn extend_to_circle(bbox: &mut BBox, items: &Vec<Sexpr>)
    ensures
        *final(bbox) == grown_to_circle(*old(bbox), trees(items@)),
{
    match (point_of(items, "center"), find_child_list(items, "radius")) {
        (Some(c), Some(l)) => {
            match num_at(l, 1) {
                Some(r) => {
                    let low: Point = point(c.x as i64 - r as i64, c.y as i64 - r as i64);
                    let high: Point = point(c.x as i64 + r as i64, c.y as i64 + r as i64);
                    bbox.extend(low.x, low.y);
                    bbox.extend(high.x, high.y);
                },
                None => {},
            }
        },
        _ => {},
    }
}

/// Add the pins of a block and the extent of its drawing.
pub fn collect_geometry(node: &Sexpr, pins: &mut Vec<PinGeom>, bbox: &mut BBox)
    ensures
        gather(node@, Gathered { pins: pins_view(old(pins)@), bbox: *old(bbox) }) == (Gathered {
            pins: pins_view(final(pins)@),
            bbox: *final(bbox),
        }),
    decreases node,
{
    let ghost g = Gathered { pins: pins_view(pins@), bbox: *bbox };
    match node {
        Sexpr::List(items) => {
            proof {
                lemma_tree_list(*items);
            }
            if has_tag(node, "pin") {
                match parse_pin(items) {
                    Some(p) => {
                        let ghost v = p@;
                        pins.push(p);
                        proof {
                            assert(pins_view(pins@) =~= g.pins.push(v));
                        }
                    },
                    None => {},
                }
            } else if has_tag(node, "rectangle") {
                extend_to(bbox, items, "start");
                extend_to(bbox, items, "end");
            } else if has_tag(node, "polyline") || has_tag(node, "bezier") {
                match find_child_list(items, "pts") {
                    Some(pts) => extend_to_xy(bbox, pts),
                    None => {},
                }
            } else if has_tag(node, "circle") {
                extend_to_circle(bbox, items);
            } else if has_tag(node, "arc") {
                extend_to(bbox, items, "start");
                extend_to(bbox, items, "mid");
                extend_to(bbox, items, "end");
            } else if has_tag(node, "property") {
            } else {
                let mut i: usize = 0;
                while i < items.len()
                    invariant
                        i <= items.len(),
                        *node == Sexpr::List(*items),
                        node@ == SexprView::List(trees(items@)),
                        gather_all(node@, i as int, g) == (Gathered {
                            pins: pins_view(pins@),
                            bbox: *bbox,
                        }),
                    decreases items.len() - i,
                {
                    collect_geometry(&items[i], pins, bbox);
                    i = i + 1;
                }
            }
        },
        _ => {},
    }
}

/// What a block must be to describe a library symbol.
pub open spec fn symbol_error(root: SexprView) -> Option<SymbolError> {
    match root {
        SexprView::List(items) => if !is_tagged(root, "symbol"@) {
            Some(SymbolError::NotASymbol)
        } else if items.len() < 2 {
            Some(SymbolError::NoName)
        } else if !(items[1] is Str) {
            Some(SymbolError::NameNotString)
        } else {
            None
        },
        _ => Some(SymbolError::NotAList),
    }
}

/// The block with the symbol's name replaced, where a new name is given.
pub open spec fn renamed(root: SexprView, rename_to: Option<Seq<char>>) -> SexprView {
    match rename_to {
        Some(n) => SexprView::List(root->List_0.update(1, SexprView::Str(n))),
        None => root,
    }
}

/// The box of the body and of the first `n` pins.
pub open spec fn full_box(body: BBox, pins: Seq<PinView>, n: int) -> BBox
    decreases n,
{
    if n <= 0 || n > pins.len() {
        body
    } else {
        grown(full_box(body, pins, n - 1), pins[n - 1].x, pins[n - 1].y)
    }
}

/// The symbol says `(pin_numbers hide)` or `(pin_numbers (hide yes))`.
pub open spec fn hides_numbers(items: Seq<SexprView>) -> bool {
    match child(items, "pin_numbers"@) {
        Some(l) => hides(l),
        None => false,
    }
}

pub open spec fn opt_view(s: Option<&str>) -> Option<Seq<char>> {
    match s {
        Some(s) => Some(s@),
        None => None,
    }
}

/// The geometry is that of the block.
pub open spec fn is_symbol(geom: SymbolGeom, block: SexprView) -> bool {
    let g = gather(block, Gathered { pins: Seq::empty(), bbox: empty_box() });
    let body = g.bbox.spec_or_default();
    &&& geom.lib_id@ == block->List_0[1]->Str_0
    &&& pins_view(geom.pins@) == g.pins
    &&& geom.body_bbox == body
    &&& geom.full_bbox == full_box(body, g.pins, g.pins.len() as int)
    &&& geom.pin_numbers_hidden == hides_numbers(block->List_0)
}

/// The items of a `(symbol "name" ...)` block, under a new name where one is given.
fn rename_block(root: Sexpr, rename_to: Option<&str>) -> (r: Result<(Text, Vec<Sexpr>), SymbolError>)
    ensures
        match symbol_error(root@) {
            Some(e) => r == Err::<(Text, Vec<Sexpr>), SymbolError>(e),
            None => {
                &&& r is Ok
                &&& SexprView::List(trees(r->Ok_0.1@)) == renamed(root@, opt_view(rename_to))
                &&& r->Ok_0.0@ == renamed(root@, opt_view(rename_to))->List_0[1]->Str_0
            },
        },
{
    let tagged: bool = has_tag(&root, "symbol");
    let ghost before = root@;
    let mut items: Vec<Sexpr> = match root {
        Sexpr::List(items) => {
            proof {
                lemma_tree_list(items);
            }
            items
        },
        _ => return Err(SymbolError::NotAList),
    };
    if !tagged {
        return Err(SymbolError::NotASymbol);
    }
    if items.len() < 2 {
        return Err(SymbolError::NoName);
    }
    let old_name: String = match &items[1] {
        Sexpr::Str(s) => s.clone(),
        _ => return Err(SymbolError::NameNotString),
    };
    let lib_id: Text = match rename_to {
        Some(n) => {
            items[1] = Sexpr::Str(n.to_owned());
            Text::of(n)
        },
        None => Text::of(old_name.as_str()),
    };
    proof {
        assert(trees(items@) =~= renamed(before, opt_view(rename_to))->List_0);
    }
    Ok((lib_id, items))
}

/// The block of a symbol under another name.
pub fn renamed_block(root: Sexpr, name: &str) -> (r: Option<Sexpr>)
    ensures
        match symbol_error(root@) {
            Some(_) => r is None,
            None => r is Some && r->0@ == renamed(root@, Some(name@)),
        },
{
    match rename_block(root, Some(name)) {
        Ok((_, items)) => {
            proof {
                lemma_tree_list(items);
            }
            Some(Sexpr::List(items))
        },
        Err(_) => None,
    }
}

/// Read a `(symbol "name" ...)` block, under a new name where one is given.
pub fn parse_lib_symbol(root: Sexpr, rename_to: Option<&str>) -> (r: Result<
    LibSymbol,
    SymbolError,
>)
    ensures
        match symbol_error(root@) {
            Some(e) => r == Err::<LibSymbol, SymbolError>(e),
            None => {
                &&& r is Ok
                &&& is_symbol(r->Ok_0.geom, renamed(root@, opt_view(rename_to)))
                &&& r->Ok_0.sexpr@ == renamed(root@, opt_view(rename_to))
            },
        },
{
    let (lib_id, items): (Text, Vec<Sexpr>) = match rename_block(root, rename_to) {
        Ok(v) => v,
        Err(e) => return Err(e),
    };
    let pin_numbers_hidden: bool = match find_child_list(&items, "pin_numbers") {
        Some(l) => is_hidden(l),
        None => false,
    };
    proof {
        lemma_tree_list(items);
    }
    let block: Sexpr = Sexpr::List(items);
    let mut pins: Vec<PinGeom> = Vec::new();
    let mut bbox: BBox = BBox::empty();
    proof {
        assert(pins_view(pins@) =~= Seq::empty());
    }
    collect_geometry(&block, &mut pins, &mut bbox);
    let body_bbox: BBox = bbox.or_default();
    let mut full_bbox: BBox = body_bbox;
    let mut i: usize = 0;
    while i < pins.len()
        invariant
            i <= pins.len(),
            full_bbox == full_box(body_bbox, pins_view(pins@), i as int),
        decreases pins.len() - i,
    {
        full_bbox.extend(pins[i].x, pins[i].y);
        i = i + 1;
    }
    let geom: SymbolGeom = SymbolGeom {
        lib_id,
        pins: boxed(pins),
        body_bbox,
        full_bbox,
        pin_numbers_hidden,
    };
    Ok(LibSymbol { geom, sexpr: block })
}

} // verus!
