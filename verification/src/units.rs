//! Lengths and points on a sheet.
//!
//! Every length is a whole number of KiCad internal units, ten thousand to the
//! millimetre, held in 32 bits. Sums are formed in 64 bits and brought back to
//! the range with [`to_iu`], which saturates at its two ends.

use vstd::prelude::*;

verus! {

/// A length in KiCad internal units: `10_000` of them make a millimetre.
pub type Iu = i32;

/// Two coordinates closer than this are one coordinate (a micrometre).
pub const EPS: i64 = 10;

/// A position on a sheet, or a direction with both parts in `-1..=1`.
#[derive(Clone, Copy, Debug, PartialEq, Eq, Structural)]
pub struct Point {
    pub x: Iu,
    pub y: Iu,
}

/// The length nearest to `v` among those that can be represented.
pub open spec fn sat(v: int) -> Iu {
    if v > i32::MAX {
        i32::MAX
    } else if v < i32::MIN {
        i32::MIN
    } else {
        v as i32
    }
}

pub fn to_iu(v: i64) -> (r: Iu)
    ensures
        r == sat(v as int),
{
    if v > 2147483647 {
        2147483647
    } else if v < -2147483648 {
        -2147483648
    } else {
        v as i32
    }
}

/// The point with the given coordinates, each brought into range.
pub open spec fn pt(x: int, y: int) -> Point {
    Point { x: sat(x), y: sat(y) }
}

pub fn point(x: i64, y: i64) -> (p: Point)
    ensures
        p == pt(x as int, y as int),
{
    Point { x: to_iu(x), y: to_iu(y) }
}

pub open spec fn spec_min(a: int, b: int) -> int {
    if a <= b {
        a
    } else {
        b
    }
}

pub open spec fn spec_max(a: int, b: int) -> int {
    if a >= b {
        a
    } else {
        b
    }
}

/// Distance of two coordinates.
pub open spec fn spec_gap(a: int, b: int) -> int {
    if a >= b {
        a - b
    } else {
        b - a
    }
}

pub fn lesser(a: Iu, b: Iu) -> (r: Iu)
    ensures
        r == spec_min(a as int, b as int),
{
    if a <= b {
        a
    } else {
        b
    }
}

pub fn greater(a: Iu, b: Iu) -> (r: Iu)
    ensures
        r == spec_max(a as int, b as int),
{
    if a >= b {
        a
    } else {
        b
    }
}

pub fn gap(a: Iu, b: Iu) -> (r: i64)
    ensures
        r == spec_gap(a as int, b as int),
        0 <= r <= 0xffff_ffff,
{
    let d: i64 = a as i64 - b as i64;
    if d >= 0 {
        d
    } else {
        -d
    }
}

/// Two coordinates that count as one.
pub open spec fn spec_near(a: int, b: int) -> bool {
    spec_gap(a, b) < EPS
}

pub fn near_coord(a: Iu, b: Iu) -> (r: bool)
    ensures
        r == spec_near(a as int, b as int),
{
    gap(a, b) < EPS
}

/// Square of the distance of two points.
pub open spec fn dist_sq(a: Point, b: Point) -> int {
    (a.x - b.x) * (a.x - b.x) + (a.y - b.y) * (a.y - b.y)
}

/// Two points that count as one: less than [`EPS`] apart.
pub open spec fn spec_meet(a: Point, b: Point) -> bool {
    dist_sq(a, b) < EPS * EPS
}

/// Two points that are certainly two: more than [`EPS`] apart.
pub open spec fn spec_apart(a: Point, b: Point) -> bool {
    dist_sq(a, b) > EPS * EPS
}

proof fn lemma_square(d: int)
    ensures
        d * d >= 0,
        spec_gap(d, 0) > EPS ==> d * d > EPS * EPS,
        spec_gap(d, 0) <= EPS ==> d * d <= EPS * EPS,
{
    assert(d * d >= 0) by (nonlinear_arith);
    if d > EPS {
        assert(d * d > 100) by (nonlinear_arith)
            requires
                d > 10,
        ;
    }
    if d < -EPS {
        assert(d * d > 100) by (nonlinear_arith)
            requires
                d < -10,
        ;
    }
    if -10 <= d <= 10 {
        assert(d * d <= 100) by (nonlinear_arith)
            requires
                -10 <= d <= 10,
        ;
    }
}

/// Are the two points less than [`EPS`] apart?
pub fn meet(a: Point, b: Point) -> (r: bool)
    ensures
        r == spec_meet(a, b),
{
    let dx: i64 = a.x as i64 - b.x as i64;
    let dy: i64 = a.y as i64 - b.y as i64;
    proof {
        lemma_square(dx as int);
        lemma_square(dy as int);
    }
    if dx > EPS || dx < -EPS || dy > EPS || dy < -EPS {
        return false;
    }
    proof {
        assert(-100 <= dx * dx <= 100 && -100 <= dy * dy <= 100);
    }
    dx * dx + dy * dy < EPS * EPS
}

/// Are the two points more than [`EPS`] apart?
pub fn apart(a: Point, b: Point) -> (r: bool)
    ensures
        r == spec_apart(a, b),
{
    let dx: i64 = a.x as i64 - b.x as i64;
    let dy: i64 = a.y as i64 - b.y as i64;
    proof {
        lemma_square(dx as int);
        lemma_square(dy as int);
    }
    if dx > EPS || dx < -EPS || dy > EPS || dy < -EPS {
        return true;
    }
    dx * dx + dy * dy > EPS * EPS
}

/// Both coordinates of two points count as one.
pub open spec fn spec_near_point(a: Point, b: Point) -> bool {
    spec_near(a.x as int, b.x as int) && spec_near(a.y as int, b.y as int)
}

pub fn near(a: Point, b: Point) -> (r: bool)
    ensures
        r == spec_near_point(a, b),
{
    near_coord(a.x, b.x) && near_coord(a.y, b.y)
}

/// The multiple of `g` nearest to `v`, as a number of steps; halves go away from zero.
pub open spec fn round_steps(v: int, g: int) -> int {
    if v >= 0 {
        (2 * v + g) / (2 * g)
    } else {
        -((2 * (-v) + g) / (2 * g))
    }
}

/// The least number of steps of `g` that reaches `v`.
pub open spec fn ceil_steps(v: int, g: int) -> int {
    if v >= 0 {
        (v + g - 1) / g
    } else {
        -(-v / g)
    }
}

/// The greatest number of steps of `g` that does not pass `v`.
pub open spec fn floor_steps(v: int, g: int) -> int {
    -ceil_steps(-v, g)
}

/// Bound on the 64-bit sums that are brought onto a grid.
pub open spec fn summable(v: int) -> bool {
    -0x1000_0000_0000_0000 <= v <= 0x1000_0000_0000_0000
}

proof fn lemma_quotient(n: int, d: int)
    requires
        n >= 0,
        d > 0,
    ensures
        0 <= n / d <= n,
        (n / d) * d <= n,
        (n / d) * d >= 0,
        n < (n / d) * d + d,
{
    vstd::arithmetic::div_mod::lemma_fundamental_div_mod(n, d);
    vstd::arithmetic::div_mod::lemma_mod_bound(n, d);
    vstd::arithmetic::div_mod::lemma_div_pos_is_pos(n, d);
    assert(d * (n / d) == (n / d) * d) by (nonlinear_arith);
    assert(n / d <= d * (n / d)) by (nonlinear_arith)
        requires
            n / d >= 0,
            d >= 1,
    ;
}

pub proof fn lemma_round_steps(v: int, g: int)
    requires
        g > 0,
    ensures
        -g < 2 * (v - round_steps(v, g) * g) <= g || -g <= 2 * (v - round_steps(v, g) * g) < g,
{
    let n = if v >= 0 {
        2 * v + g
    } else {
        2 * (-v) + g
    };
    let q = n / (2 * g);
    lemma_quotient(n, 2 * g);
    assert(q * (2 * g) == 2 * (q * g)) by (nonlinear_arith);
    assert((-q) * g == -(q * g)) by (nonlinear_arith);
}

pub proof fn lemma_ceil_steps(v: int, g: int)
    requires
        g > 0,
    ensures
        0 <= ceil_steps(v, g) * g - v < g,
        0 <= v - floor_steps(v, g) * g < g,
{
    lemma_ceil_half(v, g);
    lemma_ceil_half(-v, g);
    let c = ceil_steps(-v, g);
    assert((-c) * g == -(c * g)) by (nonlinear_arith);
}

proof fn lemma_ceil_half(v: int, g: int)
    requires
        g > 0,
    ensures
        0 <= ceil_steps(v, g) * g - v < g,
{
    if v >= 0 {
        lemma_quotient(v + g - 1, g);
    } else {
        lemma_quotient(-v, g);
        let q = (-v) / g;
        assert((-q) * g == -(q * g)) by (nonlinear_arith);
    }
}

/// `v` rounded to the nearest multiple of `g`, halves away from zero.
pub open spec fn spec_snap_to(v: int, g: int) -> Iu {
    sat(round_steps(v, g) * g)
}

pub fn snap_to(v: i64, g: Iu) -> (r: Iu)
    requires
        g > 0,
        summable(v as int),
    ensures
        r == spec_snap_to(v as int, g as int),
{
    let gg: i64 = g as i64;
    let n: i64 = if v >= 0 {
        2 * v + gg
    } else {
        2 * (-v) + gg
    };
    let q: i64 = n / (2 * gg);
    let steps: i64 = if v >= 0 {
        q
    } else {
        -q
    };
    proof {
        assert(steps == round_steps(v as int, g as int));
        lemma_round_steps(v as int, g as int);
        lemma_quotient(n as int, 2 * gg as int);
    }
    to_iu(steps * gg)
}

/// The number of steps of `g` nearest to `v`.
pub fn nearest_steps(v: Iu, g: i64) -> (r: i64)
    requires
        0 < g <= 0x7fff_ffff,
    ensures
        r == round_steps(v as int, g as int),
{
    let v: i64 = v as i64;
    if v >= 0 {
        (2 * v + g) / (2 * g)
    } else {
        -((2 * (-v) + g) / (2 * g))
    }
}

/// The multiple of `g` nearest to half of `v`, halves away from zero.
pub open spec fn spec_snap_half(v: int, g: int) -> Iu {
    sat(round_steps(v, 2 * g) * g)
}

pub fn snap_half(v: i64, g: Iu) -> (r: Iu)
    requires
        g > 0,
        summable(v as int),
    ensures
        r == spec_snap_half(v as int, g as int),
{
    let gg: i64 = 2 * g as i64;
    let n: i64 = if v >= 0 {
        2 * v + gg
    } else {
        2 * (-v) + gg
    };
    let q: i64 = n / (2 * gg);
    let steps: i64 = if v >= 0 {
        q
    } else {
        -q
    };
    proof {
        assert(steps == round_steps(v as int, gg as int));
        lemma_round_steps(v as int, gg as int);
        lemma_quotient(n as int, 2 * gg as int);
        assert(steps * gg == 2 * (steps * g)) by (nonlinear_arith)
            requires
                gg == 2 * g,
        ;
    }
    to_iu(steps * g as i64)
}

/// The coordinate `len` away from `p` along the direction part `d`.
pub open spec fn spec_shift(p: int, d: int, len: int) -> Iu {
    sat(p + d * len)
}

pub fn shift(p: Iu, d: Iu, len: i64) -> (r: Iu)
    ensures
        r == spec_shift(p as int, d as int, len as int),
{
    proof {
        assert(-0x1_0000_0000_0000_0000_0000_0000 <= d * len <= 0x1_0000_0000_0000_0000_0000_0000)
            by (nonlinear_arith)
            requires
                -0x8000_0000_0000_0000 <= len <= 0x7fff_ffff_ffff_ffff,
                -0x8000_0000 <= d <= 0x7fff_ffff,
        ;
    }
    to_iu_wide(p as i128 + d as i128 * len as i128)
}

/// Does `v` lie more than [`EPS`] ahead along the direction part `d`?
pub open spec fn spec_ahead(v: int, d: int) -> bool {
    v * d > EPS
}

pub fn ahead(v: i64, d: Iu) -> (r: bool)
    ensures
        r == spec_ahead(v as int, d as int),
{
    proof {
        assert(-0x1_0000_0000_0000_0000_0000_0000 <= v * d <= 0x1_0000_0000_0000_0000_0000_0000)
            by (nonlinear_arith)
            requires
                -0x8000_0000_0000_0000 <= v <= 0x7fff_ffff_ffff_ffff,
                -0x8000_0000 <= d <= 0x7fff_ffff,
        ;
    }
    v as i128 * d as i128 > EPS as i128
}

/// `v` rounded up to a multiple of `g`.
pub open spec fn spec_snap_up_to(v: int, g: int) -> Iu {
    sat(ceil_steps(v, g) * g)
}

fn ceil_of(v: i64, g: Iu) -> (r: i64)
    requires
        g > 0,
        summable(v as int),
    ensures
        r == ceil_steps(v as int, g as int),
        0 <= r * g - v < g,
{
    let gg: i64 = g as i64;
    proof {
        lemma_ceil_steps(v as int, g as int);
        if v < 0 {
            lemma_quotient(-v as int, gg as int);
        }
    }
    if v >= 0 {
        (v + gg - 1) / gg
    } else {
        -((-v) / gg)
    }
}

pub fn snap_up_to(v: i64, g: Iu) -> (r: Iu)
    requires
        g > 0,
        summable(v as int),
    ensures
        r == spec_snap_up_to(v as int, g as int),
{
    let q: i64 = ceil_of(v, g);
    to_iu(q * g as i64)
}

/// `v` rounded down to a multiple of `g`.
pub open spec fn spec_snap_down_to(v: int, g: int) -> Iu {
    sat(floor_steps(v, g) * g)
}

pub fn snap_down_to(v: i64, g: Iu) -> (r: Iu)
    requires
        g > 0,
        summable(v as int),
    ensures
        r == spec_snap_down_to(v as int, g as int),
{
    let q: i64 = ceil_of(-v, g);
    proof {
        assert((-q) * g == -(q * g)) by (nonlinear_arith);
    }
    to_iu(-(q * g as i64))
}

/// Half of `v`; an odd `v` goes away from zero.
pub open spec fn spec_half(v: int) -> Iu {
    sat(round_steps(v, 2))
}

pub fn half(v: i64) -> (r: Iu)
    requires
        summable(v as int),
    ensures
        r == spec_half(v as int),
{
    if v >= 0 {
        to_iu((2 * v + 2) / 4)
    } else {
        to_iu(-((2 * (-v) + 2) / 4))
    }
}

/// `n` steps of length `pitch`, brought into range.
pub open spec fn spec_steps(n: int, pitch: int) -> Iu {
    sat(n * pitch)
}

pub fn steps(n: usize, pitch: Iu) -> (r: Iu)
    ensures
        r == spec_steps(n as int, pitch as int),
{
    proof {
        assert(-0x1_0000_0000_0000_0000_0000_0000 <= n * pitch <= 0x1_0000_0000_0000_0000_0000_0000)
            by (nonlinear_arith)
            requires
                0 <= n <= 0xffff_ffff_ffff_ffff,
                -0x8000_0000 <= pitch <= 0x7fff_ffff,
        ;
    }
    to_iu_wide(n as i128 * pitch as i128)
}

/// A wide number brought into range.
pub fn to_iu_wide(v: i128) -> (r: Iu)
    ensures
        r == sat(v as int),
{
    if v > 2147483647 {
        2147483647
    } else if v < -2147483648 {
        -2147483648
    } else {
        v as i32
    }
}

} // verus!
