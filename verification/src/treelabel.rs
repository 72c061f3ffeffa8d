//! Labels on wire trees: along a wire of the tree, or on a stub that branches off it.

use vstd::prelude::*;
use crate::canvas::{stubs, text_fits, Canvas, Drawing, HierLabel, NetLabel, Scene, Stub, StubView};
use crate::geometry::BBox;
use crate::glyphs::{hier_box, hier_text_box, label_box, label_text_box};
use crate::grow::net_runs;
use crate::order::{sort_by, sorted_by};
use crate::place::{label_text_width, text_width};
use crate::registry::crossings;
use crate::tree::feasible;
use crate::units::{
    gap, greater, lesser, near_coord, sat, spec_gap, spec_max, spec_min, spec_near, spec_snap_to,
    to_iu, Iu, Point, EPS,
};
use crate::wiring::{seg_intersects_box, spec_cuts, Seg, Span};
use crate::writer::PortDirection;

verus! {

// ---------------------------------------------------------------- wires under a label

/// The two runs are one run, drawn in the same direction.
pub open spec fn same_run(a: Span, b: Span) -> bool {
    spec_near(a.x1 as int, b.x1 as int) && spec_near(a.y1 as int, b.y1 as int) && spec_near(
        a.x2 as int,
        b.x2 as int,
    ) && spec_near(a.y2 as int, b.y2 as int)
}

/// No wire passes through the box, but for the given run.
pub open spec fn box_clear_of_runs(segs: Seq<Seg>, b: BBox, skip: Option<Span>) -> bool {
    forall|i: int|
        0 <= i < segs.len() ==> (match skip {
            Some(s) => same_run((#[trigger] segs[i]).span, s),
            None => false,
        }) || !spec_cuts(segs[i].span, b)
}

impl Canvas {
    pub fn box_clear_of_all_segs(&self, b: &BBox, skip: Option<Span>) -> (r: bool)
        ensures
            r == box_clear_of_runs(self@.reg.segs, *b, skip),
    {
        let mut i: usize = 0;
        while i < self.reg.segs.len()
            invariant
                i <= self.reg.segs.len(),
                forall|k: int|
                    0 <= k < i ==> (match skip {
                        Some(s) => same_run((#[trigger] self.reg.segs@[k]).span, s),
                        None => false,
                    }) || !spec_cuts(self.reg.segs@[k].span, *b),
            decreases self.reg.segs.len() - i,
        {
            let own: bool = match skip {
                Some(s) => {
                    let o: Span = self.reg.segs[i].span;
                    near_coord(o.x1, s.x1) && near_coord(o.y1, s.y1) && near_coord(o.x2, s.x2)
                        && near_coord(o.y2, s.y2)
                },
                None => false,
            };
            if !own && seg_intersects_box(&self.reg.segs[i].span, b) {
                return false;
            }
            i = i + 1;
        }
        true
    }
}

// ---------------------------------------------------------------- a label along a wire

/// A place and rotation for a label.
#[derive(Clone, Copy, Debug, PartialEq, Eq, Structural)]
pub struct Site {
    pub at: Point,
    pub rotation: i32,
}

/// What is left of a walk from `v` to `hi`.
pub open spec fn ahead_of(v: int, hi: int) -> int {
    if v > hi {
        0
    } else {
        hi - v + 1
    }
}

/// Sites from `x` rightward to `hi`, a grid step apart, read to the left.
pub open spec fn rightward(x: int, hi: int, g: int, y: Iu) -> Seq<Site>
    decreases ahead_of(x as int, hi + EPS),
{
    if g <= 0 || x > hi + EPS {
        Seq::empty()
    } else {
        seq![Site { at: Point { x: sat(x), y }, rotation: 180 }] + rightward(x + g, hi, g, y)
    }
}

/// Sites from `x` leftward to `lo`, a grid step apart, read to the right.
pub open spec fn leftward(x: int, lo: int, g: int, y: Iu) -> Seq<Site>
    decreases ahead_of(lo - EPS, x as int),
{
    if g <= 0 || x < lo - EPS {
        Seq::empty()
    } else {
        seq![Site { at: Point { x: sat(x), y }, rotation: 0 }] + leftward(x - g, lo, g, y)
    }
}

/// The sites along a level run for a text of width `w`; with `ends` its two ends as well.
pub open spec fn run_sites(g: int, s: Span, w: int, ends: bool) -> Seq<Site> {
    let lo = spec_min(s.x1 as int, s.x2 as int);
    let hi = spec_max(s.x1 as int, s.x2 as int);
    rightward(spec_snap_to(lo + w, g) as int, hi, g, s.y1) + leftward(
        spec_snap_to(hi - w, g) as int,
        lo,
        g,
        s.y1,
    ) + (if ends {
        seq![
            Site { at: Point { x: sat(hi), y: s.y1 }, rotation: 180 },
            Site { at: Point { x: sat(lo), y: s.y1 }, rotation: 0 },
        ]
    } else {
        Seq::empty()
    })
}

fn sites_along(g: Iu, s: &Span, w: Iu, ends: bool) -> (r: Vec<Site>)
    requires
        g > 0,
    ensures
        r@ == run_sites(g as int, *s, w as int, ends),
{
    let lo: i64 = lesser(s.x1, s.x2) as i64;
    let hi: i64 = greater(s.x1, s.x2) as i64;
    let mut out: Vec<Site> = Vec::new();
    let mut x: i64 = crate::units::snap_to(lo + w as i64, g) as i64;
    let ghost first = rightward(x as int, hi as int, g as int, s.y1);
    proof {
        assert(out@ + rightward(x as int, hi as int, g as int, s.y1) =~= first);
    }
    while x <= hi + EPS
        invariant
            g > 0,
            -0x8000_0000 <= hi <= 0x7fff_ffff,
            -0x8000_0000 <= x <= 0x1_0000_1000,
            out@ + rightward(x as int, hi as int, g as int, s.y1) == first,
        decreases ahead_of(x as int, hi + EPS),
    {
        let ghost before = out@;
        out.push(Site { at: Point { x: to_iu(x), y: s.y1 }, rotation: 180 });
        proof {
            let one = Site { at: Point { x: sat(x as int), y: s.y1 }, rotation: 180 };
            assert(before + rightward(x as int, hi as int, g as int, s.y1) =~= out@ + rightward(
                x + g,
                hi as int,
                g as int,
                s.y1,
            ));
        }
        x = x + g as i64;
    }
    proof {
        assert(out@ =~= first);
    }
    let mut x: i64 = crate::units::snap_to(hi - w as i64, g) as i64;
    let ghost second = leftward(x as int, lo as int, g as int, s.y1);
    while x >= lo - EPS
        invariant
            g > 0,
            -0x8000_0000 <= lo <= 0x7fff_ffff,
            -0x1_0000_1000 <= x <= 0x7fff_ffff,
            out@ + leftward(x as int, lo as int, g as int, s.y1) == first + second,
        decreases ahead_of(lo - EPS, x as int),
    {
        let ghost before = out@;
        out.push(Site { at: Point { x: to_iu(x), y: s.y1 }, rotation: 0 });
        proof {
            assert(before + leftward(x as int, lo as int, g as int, s.y1) =~= out@ + leftward(
                x - g,
                lo as int,
                g as int,
                s.y1,
            ));
        }
        x = x - g as i64;
    }
    proof {
        assert(out@ =~= first + second);
    }
    if ends {
        out.push(Site { at: Point { x: to_iu(hi), y: s.y1 }, rotation: 180 });
        out.push(Site { at: Point { x: to_iu(lo), y: s.y1 }, rotation: 0 });
    }
    proof {
        assert(out@ =~= run_sites(g as int, *s, w as int, ends));
    }
    out
}

/// Does a label fit at the site of the run? Its text may hang over the run by `over`.
pub open spec fn site_fits(
    sc: Scene<'_>,
    d: Drawing,
    net: Seq<char>,
    s: Span,
    over: int,
    site: Site,
) -> bool {
    let b = label_box(net.len() as int, site.at, site.rotation as int);
    &&& b.x1 >= spec_min(s.x1 as int, s.x2 as int) - over - EPS
    &&& b.x2 <= spec_max(s.x1 as int, s.x2 as int) + over + EPS
    &&& text_fits(sc, d, b, net, true)
    &&& box_clear_of_runs(d.reg.segs, b, Some(s))
}

/// The first site, at or after site `k`, where the label fits.
pub open spec fn first_site(
    sc: Scene<'_>,
    d: Drawing,
    net: Seq<char>,
    s: Span,
    over: int,
    sites: Seq<Site>,
    k: int,
) -> Option<Site>
    decreases sites.len() - k,
{
    if k < 0 || k >= sites.len() {
        None
    } else if site_fits(sc, d, net, s, over, sites[k]) {
        Some(sites[k])
    } else {
        first_site(sc, d, net, s, over, sites, k + 1)
    }
}

/// Shortest run that carries a label of its tree.
pub open spec fn least_run(sc: Scene<'_>, n: int, branch: bool) -> int {
    if branch {
        text_width(n) as int
    } else {
        sc.cfg.label_elbow_mm as int
    }
}

/// How far a label may hang over its run.
pub open spec fn overhang(n: int, branch: bool) -> int {
    if branch {
        12700
    } else {
        text_width(n) as int
    }
}

/// The level runs among the first `n` that are long enough for the label.
pub open spec fn label_runs(runs: Seq<Span>, least: int, n: int) -> Seq<Span>
    decreases n,
{
    if n <= 0 || n > runs.len() {
        Seq::empty()
    } else {
        let r = runs[n - 1];
        if r.spec_horizontal() && spec_gap(r.x2 as int, r.x1 as int) >= least - EPS {
            label_runs(runs, least, n - 1).push(r)
        } else {
            label_runs(runs, least, n - 1)
        }
    }
}

/// Order of runs: longest first, then topmost, then leftmost.
pub open spec fn run_after(a: Span, b: Span) -> bool {
    let la = spec_gap(a.x2 as int, a.x1 as int);
    let lb = spec_gap(b.x2 as int, b.x1 as int);
    if la != lb {
        la < lb
    } else if a.y1 != b.y1 {
        a.y1 > b.y1
    } else {
        a.x1 > b.x1
    }
}

pub open spec fn sorted_runs(runs: Seq<Span>) -> Seq<Span> {
    sorted_by(runs, |a: Span, b: Span| run_after(a, b))
}

/// The first site on the runs, from run `k` on.
pub open spec fn run_site(
    sc: Scene<'_>,
    d: Drawing,
    net: Seq<char>,
    runs: Seq<Span>,
    branch: bool,
    k: int,
) -> Option<Site>
    decreases runs.len() - k,
{
    if k < 0 || k >= runs.len() {
        None
    } else {
        let n = net.len() as int;
        let sites = run_sites(sc.cfg.grid_mm as int, runs[k], text_width(n) as int, !branch);
        match first_site(sc, d, net, runs[k], overhang(n, branch), sites, 0) {
            Some(s) => Some(s),
            None => run_site(sc, d, net, runs, branch, k + 1),
        }
    }
}

impl Canvas {
    fn site_ok(&self, sc: &Scene, net: &String, s: &Span, over: i64, site: Site) -> (r: bool)
        requires
            sc.wf(),
            -0x8000_0000 <= over <= 0x8000_0000,
        ensures
            r == site_fits(*sc, self@, net@, *s, over as int, site),
    {
        let b: BBox = label_text_box(net.as_str(), site.at, site.rotation);
        let lo: i64 = lesser(s.x1, s.x2) as i64;
        let hi: i64 = greater(s.x1, s.x2) as i64;
        b.x1 as i64 >= lo - over - EPS && b.x2 as i64 <= hi + over + EPS && self.text_ok(
            sc,
            &b,
            net,
            true,
        ) && self.box_clear_of_all_segs(&b, Some(*s))
    }

    fn find_run_site(&self, sc: &Scene, net: &String, runs: &Vec<Span>, branch: bool) -> (r: Option<
        Site,
    >)
        requires
            sc.wf(),
        ensures
            r == run_site(*sc, self@, net@, runs@, branch, 0),
    {
        let w: Iu = label_text_width(net.as_str());
        let over: i64 = if branch {
            12700
        } else {
            w as i64
        };
        let mut k: usize = 0;
        while k < runs.len()
            invariant
                k <= runs.len(),
                sc.wf(),
                w == text_width(net@.len() as int),
                over == overhang(net@.len() as int, branch),
                -0x8000_0000 <= over <= 0x8000_0000,
                run_site(*sc, self@, net@, runs@, branch, 0) == run_site(
                    *sc,
                    self@,
                    net@,
                    runs@,
                    branch,
                    k as int,
                ),
            decreases runs.len() - k,
        {
            let sites: Vec<Site> = sites_along(sc.cfg.grid_mm, &runs[k], w, !branch);
            let ghost s = runs@[k as int];
            let mut i: usize = 0;
            while i < sites.len()
                invariant
                    i <= sites.len(),
                    k < runs.len(),
                    s == runs@[k as int],
                    sc.wf(),
                    over == overhang(net@.len() as int, branch),
                    -0x8000_0000 <= over <= 0x8000_0000,
                    sites@ == run_sites(
                        sc.cfg.grid_mm as int,
                        s,
                        text_width(net@.len() as int) as int,
                        !branch,
                    ),
                    run_site(*sc, self@, net@, runs@, branch, 0) == run_site(
                        *sc,
                        self@,
                        net@,
                        runs@,
                        branch,
                        k as int,
                    ),
                    first_site(*sc, self@, net@, s, over as int, sites@, 0) == first_site(
                        *sc,
                        self@,
                        net@,
                        s,
                        over as int,
                        sites@,
                        i as int,
                    ),
                decreases sites.len() - i,
            {
                if self.site_ok(sc, net, &runs[k], over, sites[i]) {
                    return Some(sites[i]);
                }
                i = i + 1;
            }
            k = k + 1;
        }
        None
    }
}

// ---------------------------------------------------------------- a stub off the tree

/// Stub `i` off a level run at `x`: down and up, short and long, right and left.
pub open spec fn level_branch(s: Span, x: int, w: int, i: int) -> StubView {
    let rise = if (i / 2) % 2 == 0 {
        50800
    } else {
        76200int
    };
    let y = sat(
        if i / 4 == 0 {
            s.y1 + rise
        } else {
            s.y1 - rise
        },
    );
    let at = Point {
        x: sat(
            if i % 2 == 0 {
                x + w
            } else {
                x - w
            },
        ),
        y,
    };
    StubView {
        path: seq![Point { x: sat(x), y: s.y1 }, Point { x: sat(x), y }, at],
        at,
        rotation: if i % 2 == 0 {
            180
        } else {
            0
        },
        from: 0,
        placed: 0,
    }
}

/// Stub `i` off an upright run at `y`: right and left.
pub open spec fn upright_branch(s: Span, y: int, w: int, i: int) -> StubView {
    let at = Point {
        x: sat(
            if i % 2 == 0 {
                s.x1 + w
            } else {
                s.x1 - w
            },
        ),
        y: sat(y),
    };
    StubView {
        path: seq![Point { x: s.x1, y: sat(y) }, at],
        at,
        rotation: if i % 2 == 0 {
            180
        } else {
            0
        },
        from: 0,
        placed: 0,
    }
}

/// Does the stub fit off the tree of its net?
pub open spec fn branch_fits(
    sc: Scene<'_>,
    d: Drawing,
    net: Seq<char>,
    analog: bool,
    b: StubView,
) -> bool {
    let t = label_box(net.len() as int, b.at, b.rotation as int);
    feasible(sc, d, b.path, net, analog) && crossings(d.reg.segs, b.path, None) == 0 && text_fits(
        sc,
        d,
        t,
        net,
        true,
    ) && box_clear_of_runs(d.reg.segs, t, None)
}

/// The stub `i` at coordinate `v` of a run.
pub open spec fn branch_at(s: Span, v: int, w: int, i: int) -> StubView {
    if s.spec_horizontal() {
        level_branch(s, v, w, i)
    } else {
        upright_branch(s, v, w, i)
    }
}

/// How many stubs start at one place of the run.
pub open spec fn branch_count(s: Span) -> int {
    if s.spec_horizontal() {
        8
    } else {
        2
    }
}

/// The first stub, from stub `i` on, that fits at coordinate `v` of a run.
pub open spec fn branch_here(
    sc: Scene<'_>,
    d: Drawing,
    net: Seq<char>,
    analog: bool,
    s: Span,
    v: int,
    w: int,
    i: int,
) -> Option<StubView>
    decreases branch_count(s) - i,
{
    if i >= branch_count(s) {
        None
    } else if branch_fits(sc, d, net, analog, branch_at(s, v, w, i)) {
        Some(branch_at(s, v, w, i))
    } else {
        branch_here(sc, d, net, analog, s, v, w, i + 1)
    }
}

/// The first stub off a run, from coordinate `v` up to `hi` a grid step at a time.
pub open spec fn branch_along(
    sc: Scene<'_>,
    d: Drawing,
    net: Seq<char>,
    analog: bool,
    s: Span,
    w: int,
    v: int,
    hi: int,
) -> Option<StubView>
    decreases ahead_of(v as int, hi - 25400 + EPS),
{
    if sc.cfg.grid_mm <= 0 || v > hi - 25400 + EPS {
        None
    } else {
        match branch_here(sc, d, net, analog, s, v, w, 0) {
            Some(b) => Some(b),
            None => branch_along(sc, d, net, analog, s, w, v + sc.cfg.grid_mm, hi),
        }
    }
}

/// Lowest and highest coordinate along the run.
pub open spec fn run_low(s: Span) -> int {
    if s.spec_horizontal() {
        spec_min(s.x1 as int, s.x2 as int)
    } else {
        spec_min(s.y1 as int, s.y2 as int)
    }
}

pub open spec fn run_high(s: Span) -> int {
    if s.spec_horizontal() {
        spec_max(s.x1 as int, s.x2 as int)
    } else {
        spec_max(s.y1 as int, s.y2 as int)
    }
}

/// Length of a run along both axes.
pub open spec fn run_length(s: Span) -> int {
    spec_gap(s.x2 as int, s.x1 as int) + spec_gap(s.y2 as int, s.y1 as int)
}

/// The runs, longest first.
pub open spec fn longest_runs(runs: Seq<Span>) -> Seq<Span> {
    sorted_by(runs, |a: Span, b: Span| run_length(a) < run_length(b))
}

/// The first stub off the runs, from run `k` on.
pub open spec fn branch_off(
    sc: Scene<'_>,
    d: Drawing,
    net: Seq<char>,
    analog: bool,
    runs: Seq<Span>,
    k: int,
) -> Option<StubView>
    decreases runs.len() - k,
{
    if k < 0 || k >= runs.len() {
        None
    } else {
        let w = spec_max(text_width(net.len() as int) as int, sc.cfg.label_elbow_mm as int);
        let start = spec_snap_to(run_low(runs[k]) + 25400, sc.cfg.grid_mm as int) as int;
        match branch_along(sc, d, net, analog, runs[k], w, start, run_high(runs[k])) {
            Some(b) => Some(b),
            None => branch_off(sc, d, net, analog, runs, k + 1),
        }
    }
}

/// A stub off the tree drawn since there were `from` wires.
pub open spec fn tree_branch(
    sc: Scene<'_>,
    d: Drawing,
    net: Seq<char>,
    from: int,
    analog: bool,
) -> Option<StubView> {
    let runs = longest_runs(net_runs(d.reg.segs, net, from, d.reg.segs.len() as int));
    branch_off(sc, d, net, analog, runs, 0)
}

fn branch_of(s: &Span, v: i64, w: i64, i: i64) -> (b: Stub)
    requires
        -0x2_0000_0000 <= v <= 0x2_0000_0000,
        -0x8000_0000 <= w <= 0x8000_0000,
        0 <= i < branch_count(*s),
    ensures
        b@ == branch_at(*s, v as int, w as int, i as int),
{
    let rotation: i32 = if i % 2 == 0 {
        180
    } else {
        0
    };
    if s.horizontal() {
        let rise: i64 = if (i / 2) % 2 == 0 {
            50800
        } else {
            76200
        };
        let y: Iu = to_iu(
            if i / 4 == 0 {
                s.y1 as i64 + rise
            } else {
                s.y1 as i64 - rise
            },
        );
        let at: Point = Point {
            x: to_iu(
                if i % 2 == 0 {
                    v + w
                } else {
                    v - w
                },
            ),
            y,
        };
        let path: Vec<Point> = vec![Point { x: to_iu(v), y: s.y1 }, Point { x: to_iu(v), y }, at];
        proof {
            assert(path@ =~= branch_at(*s, v as int, w as int, i as int).path);
        }
        Stub { path, at, rotation, from: 0, placed: 0 }
    } else {
        let at: Point = Point {
            x: to_iu(
                if i % 2 == 0 {
                    s.x1 as i64 + w
                } else {
                    s.x1 as i64 - w
                },
            ),
            y: to_iu(v),
        };
        let path: Vec<Point> = vec![Point { x: s.x1, y: to_iu(v) }, at];
        proof {
            assert(path@ =~= branch_at(*s, v as int, w as int, i as int).path);
        }
        Stub { path, at, rotation, from: 0, placed: 0 }
    }
}

impl Canvas {
    fn branch_ok(&self, sc: &Scene, net: &String, analog: bool, b: &Stub) -> (r: bool)
        requires
            sc.wf(),
        ensures
            r == branch_fits(*sc, self@, net@, analog, b@),
    {
        let t: BBox = label_text_box(net.as_str(), b.at, b.rotation);
        self.tree_candidate_feasible(sc, &b.path, net, analog) && self.reg.count_crossings(&b.path)
            == 0 && self.text_ok(sc, &t, net, true) && self.box_clear_of_all_segs(&t, None)
    }

    fn find_branch_along(
        &self,
        sc: &Scene,
        net: &String,
        analog: bool,
        s: &Span,
        w: i64,
        start: i64,
        hi: i64,
    ) -> (r: Option<Stub>)
        requires
            sc.wf(),
            -0x8000_0000 <= w <= 0x8000_0000,
            -0x8000_0000 <= start <= 0x8000_0000,
            -0x8000_0000 <= hi <= 0x8000_0000,
        ensures
            match r {
                Some(b) => branch_along(
                    *sc,
                    self@,
                    net@,
                    analog,
                    *s,
                    w as int,
                    start as int,
                    hi as int,
                ) == Some(b@),
                None => branch_along(
                    *sc,
                    self@,
                    net@,
                    analog,
                    *s,
                    w as int,
                    start as int,
                    hi as int,
                ) is None,
            },
    {
        let mut v: i64 = start;
        let count: i64 = if s.horizontal() {
            8
        } else {
            2
        };
        while v <= hi - 25400 + EPS
            invariant
                sc.wf(),
                -0x8000_0000 <= w <= 0x8000_0000,
                -0x8000_0000 <= hi <= 0x8000_0000,
                -0x8000_0000 <= v <= 0x1_8000_1000,
                count == branch_count(*s),
                branch_along(*sc, self@, net@, analog, *s, w as int, start as int, hi as int)
                    == branch_along(*sc, self@, net@, analog, *s, w as int, v as int, hi as int),
            decreases ahead_of(v as int, hi - 25400 + EPS),
        {
            let mut i: i64 = 0;
            while i < count
                invariant
                    0 <= i <= count,
                    sc.wf(),
                    -0x8000_0000 <= w <= 0x8000_0000,
                    -0x8000_0000 <= v <= 0x1_8000_1000,
                    v <= hi - 25400 + EPS,
                    count == branch_count(*s),
                    branch_along(*sc, self@, net@, analog, *s, w as int, start as int, hi as int)
                        == branch_along(
                        *sc,
                        self@,
                        net@,
                        analog,
                        *s,
                        w as int,
                        v as int,
                        hi as int,
                    ),
                    branch_here(*sc, self@, net@, analog, *s, v as int, w as int, 0)
                        == branch_here(
                        *sc,
                        self@,
                        net@,
                        analog,
                        *s,
                        v as int,
                        w as int,
                        i as int,
                    ),
                decreases count - i,
            {
                let b: Stub = branch_of(s, v, w, i);
                if self.branch_ok(sc, net, analog, &b) {
                    return Some(b);
                }
                i = i + 1;
            }
            v = v + sc.cfg.grid_mm as i64;
        }
        None
    }

    /// A stub off the tree of a net that can carry its label.
    pub fn tree_branch_stub(&self, sc: &Scene, net: &String, from: usize, analog: bool) -> (r:
        Option<Stub>)
        requires
            sc.wf(),
        ensures
            match r {
                Some(b) => tree_branch(*sc, self@, net@, from as int, analog) == Some(b@),
                None => tree_branch(*sc, self@, net@, from as int, analog) is None,
            },
    {
        let raw: Vec<Span> = self.runs_since(net, from);
        let ghost gt = |a: Span, b: Span| run_length(a) < run_length(b);
        let after = |a: Span, b: Span| -> (r: bool)
            ensures
                r == (run_length(a) < run_length(b)),
            { gap(a.x2, a.x1) + gap(a.y2, a.y1) < gap(b.x2, b.x1) + gap(b.y2, b.y1) };
        let runs: Vec<Span> = sort_by(&raw, after, Ghost(gt));
        let w: i64 = greater(label_text_width(net.as_str()), sc.cfg.label_elbow_mm) as i64;
        let mut k: usize = 0;
        while k < runs.len()
            invariant
                k <= runs.len(),
                sc.wf(),
                w == spec_max(
                    text_width(net@.len() as int) as int,
                    sc.cfg.label_elbow_mm as int,
                ),
                -0x8000_0000 <= w <= 0x8000_0000,
                branch_off(*sc, self@, net@, analog, runs@, 0) == branch_off(
                    *sc,
                    self@,
                    net@,
                    analog,
                    runs@,
                    k as int,
                ),
                tree_branch(*sc, self@, net@, from as int, analog) == branch_off(
                    *sc,
                    self@,
                    net@,
                    analog,
                    runs@,
                    0,
                ),
            decreases runs.len() - k,
        {
            let s: Span = runs[k];
            let (lo, hi): (i64, i64) = if s.horizontal() {
                (lesser(s.x1, s.x2) as i64, greater(s.x1, s.x2) as i64)
            } else {
                (lesser(s.y1, s.y2) as i64, greater(s.y1, s.y2) as i64)
            };
            let start: i64 = crate::units::snap_to(lo + 25400, sc.cfg.grid_mm) as i64;
            match self.find_branch_along(sc, net, analog, &s, w, start, hi) {
                Some(b) => {
                    return Some(b);
                },
                None => {},
            }
            k = k + 1;
        }
        None
    }
}

// ---------------------------------------------------------------- the label of a tree

impl Drawing {
    /// With a local label at the site, and its text kept free.
    pub open spec fn with_net_label(self, net: String, s: Site) -> Drawing {
        let d = self.reserved(label_box(net@.len() as int, s.at, s.rotation as int), net);
        Drawing {
            net_labels: d.net_labels.push(NetLabel { net, at: s.at, rotation: s.rotation }),
            ..d
        }
    }

    /// With a hierarchical label at the site, and its text kept free.
    pub open spec fn with_hier_label(self, net: String, direction: PortDirection, s: Site) -> Drawing {
        let d = self.reserved(hier_box(net@.len() as int, s.at, s.rotation as int), net);
        Drawing {
            hier_labels: d.hier_labels.push(
                HierLabel { net, direction, at: s.at, rotation: s.rotation },
            ),
            anchored: d.anchored.push(net),
            ..d
        }
    }
}

/// The tree with its local label, on a run or (where allowed) on a branch; none where neither
/// has room.
#[verifier::opaque]
pub open spec fn tree_labelled(
    sc: Scene<'_>,
    d: Drawing,
    net: String,
    from: int,
    branch: bool,
    analog: bool,
) -> Option<Drawing> {
    let n = net@.len() as int;
    let all = net_runs(d.reg.segs, net@, from, d.reg.segs.len() as int);
    let runs = sorted_runs(label_runs(all, least_run(sc, n, branch), all.len() as int));
    match run_site(sc, d, net@, runs, branch, 0) {
        Some(s) => Some(d.with_net_label(net, s)),
        None => if !branch {
            None
        } else {
            match tree_branch(sc, d, net@, from, analog) {
                Some(b) => Some(
                    d.wired(b.path, net).joined(b.path[0]).with_net_label(
                        net,
                        Site { at: b.at, rotation: b.rotation },
                    ),
                ),
                None => None,
            }
        },
    }
}

impl Canvas {
    pub fn add_net_label(&mut self, net: &String, s: Site)
        ensures
            final(self)@ == old(self)@.with_net_label(*net, s),
    {
        self.reserve(label_text_box(net.as_str(), s.at, s.rotation), net);
        self.out.net_labels.push(NetLabel { net: net.clone(), at: s.at, rotation: s.rotation });
    }

    pub fn add_hier_label(&mut self, net: &String, direction: PortDirection, s: Site)
        ensures
            final(self)@ == old(self)@.with_hier_label(*net, direction, s),
    {
        self.reserve(hier_text_box(net.as_str(), s.at, s.rotation), net);
        self.out.hier_labels.push(
            HierLabel { net: net.clone(), direction, at: s.at, rotation: s.rotation },
        );
        self.port_anchored.push(net.clone());
    }

    /// Label the tree of a net that was drawn since there were `from` wires.
    pub fn place_tree_net_label(
        &mut self,
        sc: &Scene,
        net: &String,
        from: usize,
        branch: bool,
        analog: bool,
    ) -> (r: bool)
        requires
            sc.wf(),
        ensures
            match tree_labelled(*sc, old(self)@, *net, from as int, branch, analog) {
                Some(d) => r && final(self)@ == d,
                None => !r && final(self)@ == old(self)@,
            },
    {
        proof {
            reveal(tree_labelled);
        }
        let least: i64 = if branch {
            label_text_width(net.as_str()) as i64
        } else {
            sc.cfg.label_elbow_mm as i64
        };
        let all: Vec<Span> = self.runs_since(net, from);
        let mut long: Vec<Span> = Vec::new();
        let mut n: usize = 0;
        while n < all.len()
            invariant
                n <= all.len(),
                -0x8000_0000 <= least <= 0x8000_0000,
                long@ == label_runs(all@, least as int, n as int),
            decreases all.len() - n,
        {
            if all[n].horizontal() && gap(all[n].x2, all[n].x1) >= least - EPS {
                long.push(all[n]);
            }
            n = n + 1;
        }
        let ghost gt = |a: Span, b: Span| run_after(a, b);
        let after = |a: Span, b: Span| -> (r: bool)
            ensures
                r == run_after(a, b),
            {
                let la: i64 = gap(a.x2, a.x1);
                let lb: i64 = gap(b.x2, b.x1);
                if la != lb {
                    la < lb
                } else if a.y1 != b.y1 {
                    a.y1 > b.y1
                } else {
                    a.x1 > b.x1
                }
            };
        let runs: Vec<Span> = sort_by(&long, after, Ghost(gt));
        match self.find_run_site(sc, net, &runs, branch) {
            Some(s) => {
                self.add_net_label(net, s);
                return true;
            },
            None => {},
        }
        if !branch {
            return false;
        }
        match self.tree_branch_stub(sc, net, from, analog) {
            Some(b) => {
                proof {
                    lemma_branch_path(*sc, self@, net@, from as int, analog);
                }
                let start: Point = b.path[0];
                let s: Site = Site { at: b.at, rotation: b.rotation };
                self.wire(b.path, net);
                self.push_junction(start);
                self.add_net_label(net, s);
                true
            },
            None => false,
        }
    }
}

proof fn lemma_branch_here(
    sc: Scene<'_>,
    d: Drawing,
    net: Seq<char>,
    analog: bool,
    s: Span,
    v: int,
    w: int,
    i: int,
)
    ensures
        match branch_here(sc, d, net, analog, s, v, w, i) {
            Some(b) => b.path.len() >= 2,
            None => true,
        },
    decreases branch_count(s) - i,
{
    if i < branch_count(s) {
        lemma_branch_here(sc, d, net, analog, s, v, w, i + 1);
    }
}

proof fn lemma_branch_along(
    sc: Scene<'_>,
    d: Drawing,
    net: Seq<char>,
    analog: bool,
    s: Span,
    w: int,
    v: int,
    hi: int,
)
    ensures
        match branch_along(sc, d, net, analog, s, w, v, hi) {
            Some(b) => b.path.len() >= 2,
            None => true,
        },
    decreases ahead_of(v as int, hi - 25400 + EPS),
{
    if sc.cfg.grid_mm > 0 && v <= hi - 25400 + EPS {
        lemma_branch_here(sc, d, net, analog, s, v, w, 0);
        lemma_branch_along(sc, d, net, analog, s, w, v + sc.cfg.grid_mm, hi);
    }
}

proof fn lemma_branch_off(
    sc: Scene<'_>,
    d: Drawing,
    net: Seq<char>,
    analog: bool,
    runs: Seq<Span>,
    k: int,
)
    ensures
        match branch_off(sc, d, net, analog, runs, k) {
            Some(b) => b.path.len() >= 2,
            None => true,
        },
    decreases runs.len() - k,
{
    if 0 <= k < runs.len() {
        let w = spec_max(text_width(net.len() as int) as int, sc.cfg.label_elbow_mm as int);
        let start = spec_snap_to(run_low(runs[k]) + 25400, sc.cfg.grid_mm as int) as int;
        lemma_branch_along(sc, d, net, analog, runs[k], w, start, run_high(runs[k]));
        lemma_branch_off(sc, d, net, analog, runs, k + 1);
    }
}

pub proof fn lemma_branch_path(
    sc: Scene<'_>,
    d: Drawing,
    net: Seq<char>,
    from: int,
    analog: bool,
)
    ensures
        match tree_branch(sc, d, net, from, analog) {
            Some(b) => b.path.len() >= 2,
            None => true,
        },
{
    let runs = longest_runs(net_runs(d.reg.segs, net, from, d.reg.segs.len() as int));
    lemma_branch_off(sc, d, net, analog, runs, 0);
}

} // verus!
