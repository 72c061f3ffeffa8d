//! Wire geometry: how segments touch and cross, and which wires can join two pins.

use vstd::prelude::*;
use crate::config::SchConfig;
use crate::geometry::BBox;
use crate::units::{
    ahead, gap, greater, lesser, meet, near_coord, snap_half, snap_to, spec_ahead, spec_gap,
    spec_max, spec_meet, spec_min, spec_near, spec_snap_half, spec_snap_to, Iu, Point, EPS,
};

verus! {

/// A straight run between two points.
#[derive(Clone, Copy, Debug, PartialEq, Eq, Structural)]
pub struct Span {
    pub x1: Iu,
    pub y1: Iu,
    pub x2: Iu,
    pub y2: Iu,
}

pub open spec fn span(a: Point, b: Point) -> Span {
    Span { x1: a.x, y1: a.y, x2: b.x, y2: b.y }
}

pub fn mk_span(a: Point, b: Point) -> (s: Span)
    ensures
        s == span(a, b),
{
    Span { x1: a.x, y1: a.y, x2: b.x, y2: b.y }
}

/// A straight run of wire that belongs to a net.
#[derive(Debug)]
pub struct Seg {
    pub span: Span,
    pub net: String,
}

impl Span {
    pub open spec fn spec_horizontal(self) -> bool {
        spec_near(self.y1 as int, self.y2 as int)
    }

    pub open spec fn spec_vertical(self) -> bool {
        spec_near(self.x1 as int, self.x2 as int)
    }

    pub fn horizontal(&self) -> (r: bool)
        ensures
            r == self.spec_horizontal(),
    {
        near_coord(self.y1, self.y2)
    }

    pub fn vertical(&self) -> (r: bool)
        ensures
            r == self.spec_vertical(),
    {
        near_coord(self.x1, self.x2)
    }
}

/// Is `v` between the two bounds, or as good as on one of them?
pub open spec fn spec_within(v: int, a: int, b: int) -> bool {
    spec_min(a, b) - EPS <= v <= spec_max(a, b) + EPS
}

pub fn within(v: Iu, a: Iu, b: Iu) -> (r: bool)
    ensures
        r == spec_within(v as int, a as int, b as int),
{
    let v: i64 = v as i64;
    lesser(a, b) as i64 - EPS <= v && v <= greater(a, b) as i64 + EPS
}

/// Is `v` between the two bounds and clear of both?
pub open spec fn spec_inside(v: int, a: int, b: int) -> bool {
    spec_min(a, b) + EPS < v < spec_max(a, b) - EPS
}

pub fn strictly_inside(v: Iu, a: Iu, b: Iu) -> (r: bool)
    ensures
        r == spec_inside(v as int, a as int, b as int),
{
    let v: i64 = v as i64;
    lesser(a, b) as i64 + EPS < v && v < greater(a, b) as i64 - EPS
}

/// Does the point lie on the run? Runs that are neither horizontal nor vertical hold no point.
pub open spec fn spec_on(x: int, y: int, s: Span) -> bool {
    if s.spec_horizontal() {
        spec_near(y, s.y1 as int) && spec_within(x, s.x1 as int, s.x2 as int)
    } else if s.spec_vertical() {
        spec_near(x, s.x1 as int) && spec_within(y, s.y1 as int, s.y2 as int)
    } else {
        false
    }
}

pub fn point_on_seg(x: Iu, y: Iu, s: &Span) -> (r: bool)
    ensures
        r == spec_on(x as int, y as int, *s),
{
    if s.horizontal() {
        near_coord(y, s.y1) && within(x, s.x1, s.x2)
    } else if s.vertical() {
        near_coord(x, s.x1) && within(y, s.y1, s.y2)
    } else {
        false
    }
}

/// Where a horizontal and a vertical run would meet.
pub open spec fn cross_x(a: Span, b: Span) -> Iu {
    if a.spec_horizontal() {
        b.x1
    } else {
        a.x1
    }
}

pub open spec fn cross_y(a: Span, b: Span) -> Iu {
    if a.spec_horizontal() {
        a.y1
    } else {
        b.y1
    }
}

/// Is the point, known to be on the line of the run, clear of both its ends?
pub open spec fn interior(s: Span, x: int, y: int) -> bool {
    if s.spec_horizontal() {
        spec_inside(x, s.x1 as int, s.x2 as int)
    } else {
        spec_inside(y, s.y1 as int, s.y2 as int)
    }
}

fn is_interior(s: &Span, x: Iu, y: Iu) -> (r: bool)
    ensures
        r == interior(*s, x as int, y as int),
{
    if s.horizontal() {
        strictly_inside(x, s.x1, s.x2)
    } else {
        strictly_inside(y, s.y1, s.y2)
    }
}

/// Two perpendicular runs that cross in the interior of both: they do not connect.
pub open spec fn spec_cross(a: Span, b: Span) -> bool {
    let x = cross_x(a, b) as int;
    let y = cross_y(a, b) as int;
    a.spec_horizontal() != b.spec_horizontal() && interior(a, x, y) && interior(b, x, y)
}

pub fn segs_cross_frank(a: &Span, b: &Span) -> (r: bool)
    ensures
        r == spec_cross(*a, *b),
{
    let a_h: bool = a.horizontal();
    let b_h: bool = b.horizontal();
    if a_h == b_h {
        return false;
    }
    let x: Iu = if a_h {
        b.x1
    } else {
        a.x1
    };
    let y: Iu = if a_h {
        a.y1
    } else {
        b.y1
    };
    is_interior(a, x, y) && is_interior(b, x, y)
}

/// Two runs that touch in a way that connects them: at an end, or along a common line.
pub open spec fn spec_touch(a: Span, b: Span) -> bool {
    if a.spec_horizontal() != b.spec_horizontal() {
        let x = cross_x(a, b) as int;
        let y = cross_y(a, b) as int;
        spec_on(x, y, a) && spec_on(x, y, b) && !(interior(a, x, y) && interior(b, x, y))
    } else if a.spec_horizontal() {
        spec_gap(a.y1 as int, b.y1 as int) <= EPS && (spec_within(
            a.x1 as int,
            b.x1 as int,
            b.x2 as int,
        ) || spec_within(a.x2 as int, b.x1 as int, b.x2 as int) || spec_within(
            b.x1 as int,
            a.x1 as int,
            a.x2 as int,
        ))
    } else {
        spec_gap(a.x1 as int, b.x1 as int) <= EPS && (spec_within(
            a.y1 as int,
            b.y1 as int,
            b.y2 as int,
        ) || spec_within(a.y2 as int, b.y1 as int, b.y2 as int) || spec_within(
            b.y1 as int,
            a.y1 as int,
            a.y2 as int,
        ))
    }
}

pub fn segs_touch_forbidden(a: &Span, b: &Span) -> (r: bool)
    ensures
        r == spec_touch(*a, *b),
{
    let a_h: bool = a.horizontal();
    let b_h: bool = b.horizontal();
    if a_h != b_h {
        let x: Iu = if a_h {
            b.x1
        } else {
            a.x1
        };
        let y: Iu = if a_h {
            a.y1
        } else {
            b.y1
        };
        return point_on_seg(x, y, a) && point_on_seg(x, y, b) && !(is_interior(a, x, y)
            && is_interior(b, x, y));
    }
    if a_h {
        if gap(a.y1, b.y1) > EPS {
            return false;
        }
        within(a.x1, b.x1, b.x2) || within(a.x2, b.x1, b.x2) || within(b.x1, a.x1, a.x2)
    } else {
        if gap(a.x1, b.x1) > EPS {
            return false;
        }
        within(a.y1, b.y1, b.y2) || within(a.y2, b.y1, b.y2) || within(b.y1, a.y1, a.y2)
    }
}

/// Does the run pass through the interior of the box?
pub open spec fn spec_cuts(s: Span, b: BBox) -> bool {
    &&& spec_min(s.x1 as int, s.x2 as int) < b.x2 - EPS
    &&& spec_max(s.x1 as int, s.x2 as int) > b.x1 + EPS
    &&& spec_min(s.y1 as int, s.y2 as int) < b.y2 - EPS
    &&& spec_max(s.y1 as int, s.y2 as int) > b.y1 + EPS
}

pub fn seg_intersects_box(s: &Span, b: &BBox) -> (r: bool)
    ensures
        r == spec_cuts(*s, *b),
{
    (lesser(s.x1, s.x2) as i64) < b.x2 as i64 - EPS && greater(s.x1, s.x2) as i64 > b.x1 as i64
        + EPS && (lesser(s.y1, s.y2) as i64) < b.y2 as i64 - EPS && greater(s.y1, s.y2) as i64
        > b.y1 as i64 + EPS
}

// ---------------------------------------------------------------- measures of a path

/// Distance of two points along the axes.
pub open spec fn manhattan(a: Point, b: Point) -> int {
    spec_gap(a.x as int, b.x as int) + spec_gap(a.y as int, b.y as int)
}

/// Length of the first `n` legs of a path.
pub open spec fn length_upto(path: Seq<Point>, n: int) -> int
    decreases n,
{
    if n <= 0 || n >= path.len() {
        0
    } else {
        length_upto(path, n - 1) + manhattan(path[n - 1], path[n])
    }
}

/// Length of a path, measured along the axes.
pub open spec fn path_length(path: Seq<Point>) -> int {
    length_upto(path, path.len() - 1)
}

/// Length of a path, measured along the axes.
pub fn path_length_mm(path: &Vec<Point>) -> (r: i128)
    ensures
        r == path_length(path@),
        0 <= r <= path@.len() * 0x2_0000_0000,
{
    let mut total: i128 = 0;
    if path.len() < 2 {
        return 0;
    }
    let mut i: usize = 1;
    while i < path.len()
        invariant
            1 <= i <= path.len(),
            total == length_upto(path@, i - 1),
            0 <= total <= i * 0x2_0000_0000,
        decreases path.len() - i,
    {
        let leg: i64 = gap(path[i - 1].x, path[i].x) + gap(path[i - 1].y, path[i].y);
        total = total + leg as i128;
        i = i + 1;
    }
    total
}

/// Does the path turn at its point `i`? Legs of no length do not turn.
pub open spec fn bends_at(path: Seq<Point>, i: int) -> bool {
    &&& !spec_meet(path[i - 1], path[i])
    &&& !spec_meet(path[i], path[i + 1])
    &&& spec_near(path[i].y as int, path[i - 1].y as int) != spec_near(
        path[i + 1].y as int,
        path[i].y as int,
    )
}

/// Turns at the points before point `n`.
pub open spec fn bends_upto(path: Seq<Point>, n: int) -> nat
    decreases n,
{
    if n <= 1 || n >= path.len() {
        0
    } else {
        bends_upto(path, n - 1) + (if bends_at(path, n - 1) {
            1nat
        } else {
            0
        })
    }
}

/// Number of turns of a path.
pub open spec fn spec_bends(path: Seq<Point>) -> nat {
    bends_upto(path, path.len() - 1)
}

pub fn path_bends(path: &Vec<Point>) -> (r: usize)
    ensures
        r == spec_bends(path@),
{
    let mut n: usize = 0;
    if path.len() < 3 {
        return 0;
    }
    let mut i: usize = 1;
    while i < path.len() - 1
        invariant
            1 <= i <= path.len() - 1,
            n == bends_upto(path@, i as int),
            n <= i,
        decreases path.len() - i,
    {
        if !meet(path[i - 1], path[i]) && !meet(path[i], path[i + 1]) && near_coord(
            path[i].y,
            path[i - 1].y,
        ) != near_coord(path[i + 1].y, path[i].y) {
            n = n + 1;
        }
        i = i + 1;
    }
    n
}

// ---------------------------------------------------------------- candidate wires

/// The paths behind a vector of paths.
pub open spec fn paths(v: Seq<Vec<Point>>) -> Seq<Seq<Point>> {
    Seq::new(v.len(), |i: int| v[i]@)
}

pub proof fn lemma_paths_push(v: Seq<Vec<Point>>, p: Vec<Point>)
    ensures
        paths(v.push(p)) == paths(v).push(p@),
{
    assert(paths(v.push(p)) =~= paths(v).push(p@));
}

/// Exchange of the two axes.
pub open spec fn flip(p: Point) -> Point {
    Point { x: p.y, y: p.x }
}

pub open spec fn flip_path(path: Seq<Point>) -> Seq<Point> {
    Seq::new(path.len(), |i: int| flip(path[i]))
}

pub open spec fn flip_paths(ps: Seq<Seq<Point>>) -> Seq<Seq<Point>> {
    Seq::new(ps.len(), |i: int| flip_path(ps[i]))
}

pub fn flipped(p: Point) -> (r: Point)
    ensures
        r == flip(p),
{
    Point { x: p.y, y: p.x }
}

pub fn flipped_paths(ps: &Vec<Vec<Point>>) -> (r: Vec<Vec<Point>>)
    ensures
        paths(r@) == flip_paths(paths(ps@)),
{
    let mut out: Vec<Vec<Point>> = Vec::new();
    let mut i: usize = 0;
    while i < ps.len()
        invariant
            i <= ps.len(),
            paths(out@) =~= flip_paths(paths(ps@)).take(i as int),
        decreases ps.len() - i,
    {
        let mut path: Vec<Point> = Vec::new();
        let mut j: usize = 0;
        while j < ps[i].len()
            invariant
                i < ps.len(),
                j <= ps[i as int].len(),
                path@ =~= flip_path(ps[i as int]@).take(j as int),
            decreases ps[i as int].len() - j,
        {
            path.push(flipped(ps[i][j]));
            j = j + 1;
        }
        proof {
            assert(path@ =~= flip_paths(paths(ps@))[i as int]);
            lemma_paths_push(out@, path);
        }
        out.push(path);
        i = i + 1;
    }
    out
}

/// 0, 1, -1, 2, -2 and so on.
pub open spec fn zigzag(i: int) -> int {
    if i % 2 == 1 {
        (i + 1) / 2
    } else {
        -(i / 2)
    }
}

/// Sideways offset of the detour `i`: up and down in turn, farther after each pair.
pub open spec fn detour_offset(i: int) -> int {
    let far = 76200 + ((i % 6) / 2) * 25400;
    if i % 2 == 0 {
        -far
    } else {
        far
    }
}

/// The first `n` detours between two aligned pins: out, sideways, along and back.
pub open spec fn detours(g: int, a: Point, b: Point, n: int) -> Seq<Seq<Point>>
    decreases n,
{
    if n <= 0 {
        Seq::empty()
    } else {
        let before = detours(g, a, b, n - 1);
        let inset = 25400 * (1 + (n - 1) / 6);
        let x1 = spec_snap_to(a.x + inset, g);
        let x2 = spec_snap_to(b.x - inset, g);
        let y = spec_snap_to(a.y + detour_offset(n - 1), g);
        if x2 - x1 < EPS {
            before
        } else {
            before.push(
                seq![
                    a,
                    Point { x: x1, y: a.y },
                    Point { x: x1, y },
                    Point { x: x2, y },
                    Point { x: x2, y: b.y },
                    b,
                ],
            )
        }
    }
}

/// The first `n` Z shapes between two pins that are not aligned, the middle leg first.
pub open spec fn zees(g: int, a: Point, b: Point, n: int) -> Seq<Seq<Point>>
    decreases n,
{
    if n <= 0 {
        Seq::empty()
    } else {
        let before = zees(g, a, b, n - 1);
        let x = spec_snap_half(a.x + b.x + 2 * (zigzag(n - 1) * 25400), g);
        if x < a.x + 25400 - EPS || x > b.x - 25400 + EPS {
            before
        } else {
            before.push(seq![a, Point { x, y: a.y }, Point { x, y: b.y }, b])
        }
    }
}

/// Wires between a pin `a` that exits to the right and a pin `b` that exits to the left.
pub open spec fn facing(g: int, a: Point, b: Point) -> Seq<Seq<Point>> {
    if b.x - a.x <= EPS {
        Seq::empty()
    } else if spec_near(a.y as int, b.y as int) {
        seq![seq![a, b]] + detours(g, a, b, 12)
    } else {
        zees(g, a, b, 7)
    }
}

pub fn facing_paths(g: Iu, a: Point, b: Point) -> (r: Vec<Vec<Point>>)
    requires
        g > 0,
    ensures
        paths(r@) == facing(g as int, a, b),
{
    let mut out: Vec<Vec<Point>> = Vec::new();
    if b.x as i64 - a.x as i64 <= EPS {
        proof {
            assert(paths(out@) =~= Seq::empty());
        }
        return out;
    }
    if near_coord(a.y, b.y) {
        let straight: Vec<Point> = vec![a, b];
        proof {
            assert(straight@ =~= seq![a, b]);
            lemma_paths_push(out@, straight);
        }
        out.push(straight);
        proof {
            assert(paths(out@) =~= seq![seq![a, b]] + detours(g as int, a, b, 0));
        }
        let mut i: i64 = 0;
        while i < 12
            invariant
                0 <= i <= 12,
                g > 0,
                paths(out@) == seq![seq![a, b]] + detours(g as int, a, b, i as int),
            decreases 12 - i,
        {
            let inset: i64 = 25400 * (1 + i / 6);
            let x1: Iu = snap_to(a.x as i64 + inset, g);
            let x2: Iu = snap_to(b.x as i64 - inset, g);
            let far: i64 = 76200 + ((i % 6) / 2) * 25400;
            let y: Iu = if i % 2 == 0 {
                snap_to(a.y as i64 - far, g)
            } else {
                snap_to(a.y as i64 + far, g)
            };
            if x2 as i64 - x1 as i64 >= EPS {
                let path: Vec<Point> = vec![
                    a,
                    Point { x: x1, y: a.y },
                    Point { x: x1, y },
                    Point { x: x2, y },
                    Point { x: x2, y: b.y },
                    b,
                ];
                proof {
                    lemma_paths_push(out@, path);
                    assert(path@ =~= detours(g as int, a, b, i + 1).last());
                    assert(paths(out@).push(path@) =~= seq![seq![a, b]] + detours(
                        g as int,
                        a,
                        b,
                        i + 1,
                    ));
                }
                out.push(path);
            }
            i = i + 1;
        }
        return out;
    }
    proof {
        assert(paths(out@) =~= Seq::empty());
    }
    let mut i: i64 = 0;
    while i < 7
        invariant
            0 <= i <= 7,
            g > 0,
            paths(out@) == zees(g as int, a, b, i as int),
        decreases 7 - i,
    {
        let k: i64 = if i % 2 == 1 {
            (i + 1) / 2
        } else {
            -(i / 2)
        };
        let x: Iu = snap_half(a.x as i64 + b.x as i64 + 2 * (k * 25400), g);
        if !((x as i64) < a.x as i64 + 25400 - EPS || x as i64 > b.x as i64 - 25400 + EPS) {
            let path: Vec<Point> = vec![a, Point { x, y: a.y }, Point { x, y: b.y }, b];
            proof {
                lemma_paths_push(out@, path);
                assert(path@ =~= seq![a, Point { x, y: a.y }, Point { x, y: b.y }, b]);
            }
            out.push(path);
        }
        i = i + 1;
    }
    out
}

/// The first `n` hooks around two pins that exit to the same side `d`.
pub open spec fn hooks(g: int, a: Point, b: Point, d: int, n: int) -> Seq<Seq<Point>>
    decreases n,
{
    if n <= 0 {
        Seq::empty()
    } else {
        let base = if d > 0 {
            spec_max(a.x as int, b.x as int)
        } else {
            spec_min(a.x as int, b.x as int)
        };
        let x = spec_snap_to(base + d * (25400 * n), g);
        hooks(g, a, b, d, n - 1).push(seq![a, Point { x, y: a.y }, Point { x, y: b.y }, b])
    }
}

/// Wires around two pins that exit to the same side `d`; none where they share a row.
pub open spec fn same_side(g: int, a: Point, b: Point, d: int) -> Seq<Seq<Point>> {
    if spec_near(a.y as int, b.y as int) {
        Seq::empty()
    } else {
        hooks(g, a, b, d, 5)
    }
}

fn hook_paths(g: Iu, a: Point, b: Point, d: Iu) -> (r: Vec<Vec<Point>>)
    requires
        g > 0,
    ensures
        paths(r@) == same_side(g as int, a, b, d as int),
{
    let mut out: Vec<Vec<Point>> = Vec::new();
    proof {
        assert(paths(out@) =~= Seq::empty());
    }
    if near_coord(a.y, b.y) {
        return out;
    }
    let base: Iu = if d > 0 {
        greater(a.x, b.x)
    } else {
        lesser(a.x, b.x)
    };
    let mut i: i64 = 0;
    while i < 5
        invariant
            0 <= i <= 5,
            g > 0,
            base == (if d > 0 {
                spec_max(a.x as int, b.x as int)
            } else {
                spec_min(a.x as int, b.x as int)
            }),
            paths(out@) == hooks(g as int, a, b, d as int, i as int),
        decreases 5 - i,
    {
        let reach: i64 = 25400 * (i + 1);
        proof {
            assert(-0x1000_0000_0000_000 <= d * reach <= 0x1000_0000_0000_000) by (nonlinear_arith)
                requires
                    -0x8000_0000 <= d <= 0x7fff_ffff,
                    0 <= reach <= 127000,
            ;
        }
        let x: Iu = snap_to(base as i64 + d as i64 * reach, g);
        let path: Vec<Point> = vec![a, Point { x, y: a.y }, Point { x, y: b.y }, b];
        proof {
            lemma_paths_push(out@, path);
            assert(path@ =~= seq![a, Point { x, y: a.y }, Point { x, y: b.y }, b]);
        }
        out.push(path);
        i = i + 1;
    }
    out
}

/// The one-corner wire between a pin `a` that exits sideways and a pin `b` that exits
/// up or down; none where the corner would lie behind one of them.
pub open spec fn elbow(a: Point, da: Point, b: Point, db: Point) -> Seq<Seq<Point>> {
    if spec_ahead(b.x - a.x, da.x as int) && spec_ahead(a.y - b.y, db.y as int) {
        seq![seq![a, Point { x: b.x, y: a.y }, b]]
    } else {
        Seq::empty()
    }
}

/// The wires that may join two pins, given by position and outward direction,
/// in order of preference.
pub open spec fn pair_paths(g: int, a: (Point, Point), b: (Point, Point)) -> Seq<Seq<Point>> {
    let h_a = a.1.x != 0;
    let h_b = b.1.x != 0;
    if h_a && h_b && a.1.x != b.1.x {
        if a.1.x < 0 {
            facing(g, b.0, a.0)
        } else {
            facing(g, a.0, b.0)
        }
    } else if !h_a && !h_b && a.1.y != b.1.y {
        if a.1.y < 0 {
            flip_paths(facing(g, flip(b.0), flip(a.0)))
        } else {
            flip_paths(facing(g, flip(a.0), flip(b.0)))
        }
    } else {
        let (p, q) = if !h_a && h_b {
            (b, a)
        } else {
            (a, b)
        };
        if p.1.x != 0 && q.1.y != 0 {
            elbow(p.0, p.1, q.0, q.1)
        } else if p.1.x != 0 && p.1.x == q.1.x {
            same_side(g, p.0, q.0, p.1.x as int)
        } else if p.1.y != 0 && p.1.y == q.1.y {
            flip_paths(same_side(g, flip(p.0), flip(q.0), p.1.y as int))
        } else {
            Seq::empty()
        }
    }
}

/// The wires that may join two pins, given by position and outward direction,
/// in order of preference.
pub fn tree_pair_candidates(cfg: &SchConfig, a: (Point, Point), b: (Point, Point)) -> (r: Vec<
    Vec<Point>,
>)
    requires
        cfg.wf(),
    ensures
        paths(r@) == pair_paths(cfg.grid_mm as int, a, b),
{
    let g: Iu = cfg.grid_mm;
    let h_a: bool = a.1.x != 0;
    let h_b: bool = b.1.x != 0;
    if h_a && h_b && a.1.x != b.1.x {
        return if a.1.x < 0 {
            facing_paths(g, b.0, a.0)
        } else {
            facing_paths(g, a.0, b.0)
        };
    }
    if !h_a && !h_b && a.1.y != b.1.y {
        let turned: Vec<Vec<Point>> = if a.1.y < 0 {
            facing_paths(g, flipped(b.0), flipped(a.0))
        } else {
            facing_paths(g, flipped(a.0), flipped(b.0))
        };
        return flipped_paths(&turned);
    }
    let (p, q): ((Point, Point), (Point, Point)) = if !h_a && h_b {
        (b, a)
    } else {
        (a, b)
    };
    if p.1.x != 0 && q.1.y != 0 {
        let mut out: Vec<Vec<Point>> = Vec::new();
        proof {
            assert(paths(out@) =~= Seq::empty());
        }
        if ahead(q.0.x as i64 - p.0.x as i64, p.1.x) && ahead(
            p.0.y as i64 - q.0.y as i64,
            q.1.y,
        ) {
            let path: Vec<Point> = vec![p.0, Point { x: q.0.x, y: p.0.y }, q.0];
            proof {
                lemma_paths_push(out@, path);
                assert(path@ =~= seq![p.0, Point { x: q.0.x, y: p.0.y }, q.0]);
                assert(paths(out@).push(path@) =~= elbow(p.0, p.1, q.0, q.1));
            }
            out.push(path);
        }
        return out;
    }
    if p.1.x != 0 && p.1.x == q.1.x {
        return hook_paths(g, p.0, q.0, p.1.x);
    }
    if p.1.y != 0 && p.1.y == q.1.y {
        let turned: Vec<Vec<Point>> = hook_paths(g, flipped(p.0), flipped(q.0), p.1.y);
        return flipped_paths(&turned);
    }
    let out: Vec<Vec<Point>> = Vec::new();
    proof {
        assert(paths(out@) =~= Seq::empty());
    }
    out
}

// ---------------------------------------------------------------- what the candidates have in common

/// A wire from `a` to `b` or from `b` to `a`, every leg along an axis.
pub open spec fn joins_pins(path: Seq<Point>, a: Point, b: Point) -> bool {
    &&& path.len() >= 2
    &&& (path[0] == a && path.last() == b) || (path[0] == b && path.last() == a)
    &&& forall|i: int|
        0 <= i < path.len() - 1 ==> spec_near(#[trigger] path[i].x as int, path[i + 1].x as int)
            || spec_near(path[i].y as int, path[i + 1].y as int)
}

pub open spec fn all_join_pins(ps: Seq<Seq<Point>>, a: Point, b: Point) -> bool {
    forall|k: int| 0 <= k < ps.len() ==> joins_pins(#[trigger] ps[k], a, b)
}

proof fn lemma_detours(g: int, a: Point, b: Point, n: int)
    requires
        spec_near(a.y as int, b.y as int),
    ensures
        all_join_pins(detours(g, a, b, n), a, b),
    decreases n,
{
    if n > 0 {
        lemma_detours(g, a, b, n - 1);
    }
}

proof fn lemma_zees(g: int, a: Point, b: Point, n: int)
    ensures
        all_join_pins(zees(g, a, b, n), a, b),
    decreases n,
{
    if n > 0 {
        lemma_zees(g, a, b, n - 1);
    }
}

proof fn lemma_hooks(g: int, a: Point, b: Point, d: int, n: int)
    ensures
        all_join_pins(hooks(g, a, b, d, n), a, b),
    decreases n,
{
    if n > 0 {
        lemma_hooks(g, a, b, d, n - 1);
    }
}

pub proof fn lemma_facing(g: int, a: Point, b: Point)
    ensures
        all_join_pins(facing(g, a, b), a, b),
{
    if b.x - a.x > EPS {
        if spec_near(a.y as int, b.y as int) {
            lemma_detours(g, a, b, 12);
            let d = detours(g, a, b, 12);
            let f = facing(g, a, b);
            assert forall|k: int| 0 <= k < f.len() implies joins_pins(#[trigger] f[k], a, b) by {
                if k > 0 {
                    assert(f[k] == d[k - 1]);
                } else {
                    assert(f[0] == seq![a, b]);
                }
            }
        } else {
            lemma_zees(g, a, b, 7);
        }
    }
}

pub proof fn lemma_flip_paths(ps: Seq<Seq<Point>>, a: Point, b: Point)
    requires
        all_join_pins(ps, flip(a), flip(b)),
    ensures
        all_join_pins(flip_paths(ps), a, b),
{
    let fs = flip_paths(ps);
    assert forall|k: int| 0 <= k < fs.len() implies joins_pins(#[trigger] fs[k], a, b) by {
        let p = ps[k];
        assert(joins_pins(p, flip(a), flip(b)));
        assert(fs[k] == flip_path(p));
        assert forall|i: int| 0 <= i < fs[k].len() - 1 implies spec_near(
            #[trigger] fs[k][i].x as int,
            fs[k][i + 1].x as int,
        ) || spec_near(fs[k][i].y as int, fs[k][i + 1].y as int) by {
            assert(fs[k][i] == flip(p[i]));
            assert(spec_near(p[i].x as int, p[i + 1].x as int) || spec_near(
                p[i].y as int,
                p[i + 1].y as int,
            ));
        }
    }
}

pub proof fn lemma_swap_pins(ps: Seq<Seq<Point>>, a: Point, b: Point)
    requires
        all_join_pins(ps, a, b),
    ensures
        all_join_pins(ps, b, a),
{
    assert forall|k: int| 0 <= k < ps.len() implies joins_pins(#[trigger] ps[k], b, a) by {
        assert(joins_pins(ps[k], a, b));
    }
}

/// Every wire that may join two pins runs from one pin to the other along the axes.
pub proof fn law_pair_paths_join(g: int, a: (Point, Point), b: (Point, Point))
    ensures
        all_join_pins(pair_paths(g, a, b), a.0, b.0),
{
    let h_a = a.1.x != 0;
    let h_b = b.1.x != 0;
    lemma_facing(g, a.0, b.0);
    lemma_facing(g, b.0, a.0);
    lemma_swap_pins(facing(g, b.0, a.0), b.0, a.0);
    let fa = flip(a.0);
    let fb = flip(b.0);
    lemma_facing(g, fa, fb);
    lemma_flip_paths(facing(g, fa, fb), a.0, b.0);
    lemma_facing(g, fb, fa);
    lemma_swap_pins(facing(g, fb, fa), fb, fa);
    lemma_flip_paths(facing(g, fb, fa), a.0, b.0);
    if !(h_a && h_b && a.1.x != b.1.x) && !(!h_a && !h_b && a.1.y != b.1.y) {
        let (p, q) = if !h_a && h_b {
            (b, a)
        } else {
            (a, b)
        };
        lemma_hooks(g, p.0, q.0, p.1.x as int, 5);
        lemma_hooks(g, flip(p.0), flip(q.0), p.1.y as int, 5);
        lemma_flip_paths(same_side(g, flip(p.0), flip(q.0), p.1.y as int), p.0, q.0);
        assert(all_join_pins(pair_paths(g, a, b), p.0, q.0));
        if !h_a && h_b {
            lemma_swap_pins(pair_paths(g, a, b), p.0, q.0);
        }
    }
}

pub proof fn lemma_pair_paths_nonempty(g: int, a: (Point, Point), b: (Point, Point))
    ensures
        forall|k: int|
            0 <= k < pair_paths(g, a, b).len() ==> (#[trigger] pair_paths(g, a, b)[k]).len() >= 2,
{
    law_pair_paths_join(g, a, b);
    assert forall|k: int| 0 <= k < pair_paths(g, a, b).len() implies (#[trigger] pair_paths(
        g,
        a,
        b,
    )[k]).len() >= 2 by {
        assert(joins_pins(pair_paths(g, a, b)[k], a.0, b.0));
    }
}

} // verus!
