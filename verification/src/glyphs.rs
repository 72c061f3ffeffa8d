//! Extents of the texts and symbols that are drawn along with wires.

use vstd::prelude::*;
use crate::config::SchConfig;
use crate::geometry::{bx, full_turn, make_box, BBox};
use crate::model::NetClass;
use crate::place::{label_text_width, text_width};
use crate::text::{chars_of, has, has_at, holds, holds_at, to_upper, trim, trimmed, upper, width};
use crate::units::{
    greater, lesser, sat, shift, spec_max, spec_min, spec_shift, spec_steps, steps, to_iu, Iu,
    Point,
};

verus! {

// ---------------------------------------------------------------- power symbols

/// How a power pin is joined to its symbol.
#[derive(Debug)]
pub struct Attachment {
    pub path: Vec<Point>,
    pub symbol_at: Point,
    pub down: bool,
}

pub struct AttachmentView {
    pub path: Seq<Point>,
    pub symbol_at: Point,
    pub down: bool,
}

impl View for Attachment {
    type V = AttachmentView;

    open spec fn view(&self) -> AttachmentView {
        AttachmentView { path: self.path@, symbol_at: self.symbol_at, down: self.down }
    }
}

/// The straight leg out of a power pin, never shorter than the shortest pin exit.
pub open spec fn power_leg(cfg: SchConfig) -> int {
    spec_max(cfg.power_stub_mm as int, cfg.spec_min_pin_exit() as int)
}

/// The connection of a power pin: a straight stub for a vertical pin, an elbow with a vertical
/// return for a horizontal one. `h` and `v` stretch the two legs.
pub open spec fn attachment(
    cfg: SchConfig,
    pin: Point,
    dir: Point,
    down: bool,
    h: int,
    v: int,
) -> AttachmentView {
    let exit = cfg.spec_min_pin_exit() as int;
    let g = power_leg(cfg);
    if dir.x == 0 {
        let end = Point {
            x: pin.x,
            y: spec_shift(pin.y as int, dir.y as int, spec_max(g + v, exit)),
        };
        AttachmentView { path: seq![pin, end], symbol_at: end, down }
    } else {
        let knee = Point {
            x: spec_shift(pin.x as int, dir.x as int, spec_max(g + h, exit)),
            y: pin.y,
        };
        let end = Point {
            x: knee.x,
            y: sat(
                if down {
                    knee.y + (g + v)
                } else {
                    knee.y - (g + v)
                },
            ),
        };
        AttachmentView { path: seq![pin, knee, end], symbol_at: end, down }
    }
}

/// A power pin is left straight, along its own direction, for at least the shortest pin exit before
/// its wire turns.
pub proof fn law_power_pin_exits_straight(
    cfg: SchConfig,
    pin: Point,
    dir: Point,
    down: bool,
    h: int,
    v: int,
)
    requires
        (dir.x == 0 && (dir.y == 1 || dir.y == -1)) || (dir.y == 0 && (dir.x == 1 || dir.x == -1)),
        dir.x == 0 ==> i32::MIN <= pin.y - spec_max(power_leg(cfg) + v, cfg.spec_min_pin_exit() as int)
            && pin.y + spec_max(power_leg(cfg) + v, cfg.spec_min_pin_exit() as int) <= i32::MAX,
        dir.x != 0 ==> i32::MIN <= pin.x - spec_max(power_leg(cfg) + h, cfg.spec_min_pin_exit() as int)
            && pin.x + spec_max(power_leg(cfg) + h, cfg.spec_min_pin_exit() as int) <= i32::MAX,
        cfg.spec_min_pin_exit() >= 0,
    ensures
        ({
            let p = attachment(cfg, pin, dir, down, h, v).path;
            &&& p[0] == pin
            &&& dir.x == 0 ==> p[1].x == pin.x && (dir.y == 1 ==> p[1].y - pin.y
                >= cfg.spec_min_pin_exit()) && (dir.y == -1 ==> pin.y - p[1].y
                >= cfg.spec_min_pin_exit())
            &&& dir.y == 0 ==> p[1].y == pin.y && (dir.x == 1 ==> p[1].x - pin.x
                >= cfg.spec_min_pin_exit()) && (dir.x == -1 ==> pin.x - p[1].x
                >= cfg.spec_min_pin_exit())
        }),
{
    let a = spec_max(power_leg(cfg) + v, cfg.spec_min_pin_exit() as int);
    let b = spec_max(power_leg(cfg) + h, cfg.spec_min_pin_exit() as int);
    assert(dir.y == 1 ==> dir.y * a == a) by (nonlinear_arith);
    assert(dir.y == -1 ==> dir.y * a == -a) by (nonlinear_arith);
    assert(dir.x == 1 ==> dir.x * b == b) by (nonlinear_arith);
    assert(dir.x == -1 ==> dir.x * b == -b) by (nonlinear_arith);
}

fn larger(a: i64, b: i64) -> (r: i64)
    ensures
        r == spec_max(a as int, b as int),
{
    if a >= b {
        a
    } else {
        b
    }
}

pub fn power_attachment(
    cfg: &SchConfig,
    pin: Point,
    dir: Point,
    down: bool,
    h: Iu,
    v: Iu,
) -> (r: Attachment)
    ensures
        r@ == attachment(*cfg, pin, dir, down, h as int, v as int),
{
    let exit: i64 = cfg.min_pin_exit_mm() as i64;
    let g: i64 = larger(cfg.power_stub_mm as i64, exit);
    if dir.x == 0 {
        let end: Point = Point { x: pin.x, y: shift(pin.y, dir.y, larger(g + v as i64, exit)) };
        let path: Vec<Point> = vec![pin, end];
        proof {
            assert(path@ =~= seq![pin, end]);
        }
        return Attachment { path, symbol_at: end, down };
    }
    let knee: Point = Point { x: shift(pin.x, dir.x, larger(g + h as i64, exit)), y: pin.y };
    let rise: i64 = g + v as i64;
    let end: Point = Point {
        x: knee.x,
        y: to_iu(
            if down {
                knee.y as i64 + rise
            } else {
                knee.y as i64 - rise
            },
        ),
    };
    let path: Vec<Point> = vec![pin, knee, end];
    proof {
        assert(path@ =~= seq![pin, knee, end]);
    }
    Attachment { path, symbol_at: end, down }
}

/// Half the width of a power symbol whose name has `n` characters.
pub open spec fn half_text(n: int) -> int {
    spec_max(spec_steps(n, 7620) + 12700, 25400)
}

pub fn half_text_of(name: &str) -> (r: i64)
    ensures
        r == half_text(name@.len() as int),
        25400 <= r <= 0x8000_8000,
{
    larger(steps(width(name), 7620) as i64 + 12700, 25400)
}

/// Extent of a power symbol and its name around its connection point.
pub open spec fn power_box(n: int, at: Point, down: bool) -> BBox {
    let h = half_text(n);
    if down {
        bx(at.x - h, at.y as int, at.x + h, at.y + 63500)
    } else {
        bx(at.x - h, at.y - 76200, at.x + h, at.y as int)
    }
}

pub fn power_symbol_graphic_box(name: &str, at: Point, down: bool) -> (b: BBox)
    ensures
        b == power_box(name@.len() as int, at, down),
{
    let h: i64 = half_text_of(name);
    let x: i64 = at.x as i64;
    let y: i64 = at.y as i64;
    if down {
        make_box(x - h, y, x + h, y + 63500)
    } else {
        make_box(x - h, y - 76200, x + h, y)
    }
}

/// Does a rail of this name lie below ground?
pub open spec fn negative_rail(name: Seq<char>) -> bool {
    let u = upper(trimmed(name));
    holds_at(u, "-"@, 0) || holds_at(u, "V-"@, 0) || holds(u, "VEE"@) || holds(u, "VNEG"@)
}

pub fn is_negative_rail_name(name: &str) -> (r: bool)
    ensures
        r == negative_rail(name@),
{
    let cs: Vec<char> = trim(&chars_of(name));
    let text: String = crate::text::text_of(&cs);
    let u: Vec<char> = to_upper(text.as_str());
    has_at(&u, &chars_of("-"), 0) || has_at(&u, &chars_of("V-"), 0) || has(&u, &chars_of("VEE")) || has(
        &u,
        &chars_of("VNEG"),
    )
}

/// Rank of a net by potential: a higher rank is drawn higher.
pub open spec fn potential_rank(name: Seq<char>, class: NetClass) -> int {
    if class == NetClass::Power {
        if negative_rail(name) {
            -1
        } else {
            1
        }
    } else {
        0
    }
}

pub fn power_potential_rank(name: &str, class: NetClass) -> (r: i32)
    ensures
        r == potential_rank(name@, class),
{
    match class {
        NetClass::Power => {
            if is_negative_rail_name(name) {
                -1
            } else {
                1
            }
        },
        NetClass::Ground => 0,
        NetClass::Signal => 0,
    }
}

/// Does the symbol of this net hang below its pin? Grounds and negative rails do.
pub fn power_points_down(name: &str, class: NetClass) -> (r: bool)
    ensures
        r == (potential_rank(name@, class) <= 0),
{
    power_potential_rank(name, class) <= 0
}

/// Positive rails outrank grounds, and grounds outrank negative rails.
pub proof fn law_potential_order(rail: Seq<char>, ground: Seq<char>, negative: Seq<char>)
    requires
        !negative_rail(rail),
        negative_rail(negative),
    ensures
        potential_rank(rail, NetClass::Power) > potential_rank(ground, NetClass::Ground),
        potential_rank(ground, NetClass::Ground) > potential_rank(negative, NetClass::Power),
{
}

/// Extent of a power flag: above its point, or below it when turned round.
pub open spec fn flag_box(at: Point, rotation: int) -> BBox {
    if rotation == 180 {
        bx(at.x - 25400, at.y - 5000, at.x + 25400, at.y + 50800)
    } else {
        bx(at.x - 25400, at.y - 50800, at.x + 25400, at.y + 5000)
    }
}

pub fn pwr_flag_box(at: Point, rotation: i32) -> (b: BBox)
    ensures
        b == flag_box(at, rotation as int),
{
    let x: i64 = at.x as i64;
    let y: i64 = at.y as i64;
    if rotation == 180 {
        make_box(x - 25400, y - 5000, x + 25400, y + 50800)
    } else {
        make_box(x - 25400, y - 50800, x + 25400, y + 5000)
    }
}

// ---------------------------------------------------------------- labels

/// Rotation of a label whose stub runs outward at `outward` degrees: ports read outward, local
/// labels read back over their wire.
pub open spec fn label_rotation(global: bool, outward: int) -> int {
    if global {
        outward
    } else {
        (outward + 180) % 360
    }
}

pub fn net_label_rotation(global: bool, outward: i32) -> (r: i32)
    ensures
        r == label_rotation(global, outward as int),
{
    if global {
        outward
    } else {
        full_turn(outward as i64 + 180)
    }
}

/// Extent of a net label of `n` characters.
pub open spec fn label_box(n: int, at: Point, rotation: int) -> BBox {
    if rotation == 0 {
        bx(at.x as int, at.y - 22000, at.x + text_width(n), at.y + 4000)
    } else {
        bx(at.x - text_width(n), at.y - 22000, at.x as int, at.y + 4000)
    }
}

pub fn label_text_box(name: &str, at: Point, rotation: i32) -> (b: BBox)
    ensures
        b == label_box(name@.len() as int, at, rotation as int),
{
    let w: i64 = label_text_width(name) as i64;
    let x: i64 = at.x as i64;
    let y: i64 = at.y as i64;
    if rotation == 0 {
        make_box(x, y - 22000, x + w, y + 4000)
    } else {
        make_box(x - w, y - 22000, x, y + 4000)
    }
}

/// Extent of a hierarchical label of `n` characters.
pub open spec fn hier_box(n: int, at: Point, rotation: int) -> BBox {
    let w = text_width(n) + 12700;
    if rotation == 0 {
        bx(at.x as int, at.y - 12700, at.x + w, at.y + 12700)
    } else {
        bx(at.x - w, at.y - 12700, at.x as int, at.y + 12700)
    }
}

pub fn hier_text_box(name: &str, at: Point, rotation: i32) -> (b: BBox)
    ensures
        b == hier_box(name@.len() as int, at, rotation as int),
{
    let w: i64 = label_text_width(name) as i64 + 12700;
    let x: i64 = at.x as i64;
    let y: i64 = at.y as i64;
    if rotation == 0 {
        make_box(x, y - 12700, x + w, y + 12700)
    } else {
        make_box(x - w, y - 12700, x, y + 12700)
    }
}

/// Extent of a component's reference of `n` characters, left or right of its anchor.
pub open spec fn ref_box(n: int, at: Point, right: bool) -> BBox {
    if right {
        bx(at.x - text_width(n), at.y - 22000, at.x as int, at.y + 4000)
    } else {
        bx(at.x as int, at.y - 22000, at.x + text_width(n), at.y + 4000)
    }
}

pub fn ref_text_box(name: &str, at: Point, right: bool) -> (b: BBox)
    ensures
        b == ref_box(name@.len() as int, at, right),
{
    let w: i64 = label_text_width(name) as i64;
    let x: i64 = at.x as i64;
    let y: i64 = at.y as i64;
    if right {
        make_box(x - w, y - 22000, x, y + 4000)
    } else {
        make_box(x, y - 22000, x + w, y + 4000)
    }
}

/// Extent of a component's value of `n` characters, left or right of its anchor.
pub open spec fn value_box(n: int, at: Point, right: bool) -> BBox {
    if right {
        bx(at.x - text_width(n), at.y - 4000, at.x as int, at.y + 22000)
    } else {
        bx(at.x as int, at.y - 4000, at.x + text_width(n), at.y + 22000)
    }
}

pub fn value_text_box(name: &str, at: Point, right: bool) -> (b: BBox)
    ensures
        b == value_box(name@.len() as int, at, right),
{
    let w: i64 = label_text_width(name) as i64;
    let x: i64 = at.x as i64;
    let y: i64 = at.y as i64;
    if right {
        make_box(x - w, y - 4000, x, y + 22000)
    } else {
        make_box(x, y - 4000, x + w, y + 22000)
    }
}

/// Two boxes that overlap by more than `tol` along both axes.
pub open spec fn collide(a: BBox, b: BBox, tol: int) -> bool {
    &&& spec_min(a.x2 as int, b.x2 as int) - spec_max(a.x1 as int, b.x1 as int) > tol
    &&& spec_min(a.y2 as int, b.y2 as int) - spec_max(a.y1 as int, b.y1 as int) > tol
}

pub fn boxes_collide_tol(a: &BBox, b: &BBox, tol: Iu) -> (r: bool)
    ensures
        r == collide(*a, *b, tol as int),
{
    lesser(a.x2, b.x2) as i64 - greater(a.x1, b.x1) as i64 > tol as i64 && lesser(
        a.y2,
        b.y2,
    ) as i64 - greater(a.y1, b.y1) as i64 > tol as i64
}

/// Collision is symmetric.
pub proof fn law_collision_symmetric(a: BBox, b: BBox, tol: int)
    ensures
        collide(a, b, tol) == collide(b, a, tol),
{
}

/// A local label reads opposite to a port on the same stub, and turning twice changes nothing.
pub proof fn law_label_rotation(outward: int)
    requires
        0 <= outward < 360,
    ensures
        label_rotation(false, label_rotation(false, outward)) == outward,
        label_rotation(true, outward) == outward,
        label_rotation(false, outward) != outward,
{
}

} // verus!
