//! The utility band: capacitors between rails, in a row to the right of everything else.

use vstd::prelude::*;
use crate::anchors::below;
use crate::arrange::{pose_all, posed_all};
use crate::compose::{lemma_same_parts, lemma_same_parts_update, same_part, same_parts};
use crate::config::SchConfig;
use crate::geometry::BBox;
use crate::keepout::{
    hull_of_rooms, move_to, moved, rooms, rooms_hull, solids, TaggedBox,
};
use crate::model::DesignModel;
use crate::orientation::with_placed;
use crate::place::{placed_wf, PlacedComp, SheetNet};
use crate::texts::{nets_wf, Board, BoardView};
use crate::units::{sat, spec_steps, steps, to_iu, Iu, Point};

verus! {

/// Those of the first `n` components that go into the band, or those that do not.
pub open spec fn in_band(placed: Seq<PlacedComp>, band: bool, n: int) -> Seq<usize>
    decreases n,
{
    if n <= 0 || n > placed.len() {
        Seq::empty()
    } else if placed[n - 1].relegated == band {
        in_band(placed, band, n - 1).push((n - 1) as usize)
    } else {
        in_band(placed, band, n - 1)
    }
}

pub fn list_band(placed: &[PlacedComp], band: bool) -> (r: Vec<usize>)
    ensures
        r@ == in_band(placed@, band, placed@.len() as int),
        below(r@, placed@.len() as int),
{
    let mut out: Vec<usize> = Vec::new();
    let mut n: usize = 0;
    while n < placed.len()
        invariant
            n <= placed.len(),
            out@ == in_band(placed@, band, n as int),
            below(out@, placed@.len() as int),
        decreases placed.len() - n,
    {
        if placed[n].relegated == band {
            out.push(n);
        }
        n = n + 1;
    }
    out
}

/// The box around the rooms of the first `n` of the list.
pub open spec fn list_content(b: BoardView, list: Seq<usize>, n: int) -> Option<BBox>
    decreases n,
{
    if n <= 0 || n > list.len() {
        None
    } else {
        let r = rooms(b, list[n - 1] as int);
        rooms_hull(list_content(b, list, n - 1), r, r.len() as int)
    }
}

fn content_of_list(b: &Board, list: &Vec<usize>) -> (r: Option<BBox>)
    requires
        b.wf(),
        below(list@, b.placed@.len() as int),
    ensures
        r == list_content(b@, list@, list@.len() as int),
{
    let mut out: Option<BBox> = None;
    let mut n: usize = 0;
    while n < list.len()
        invariant
            n <= list.len(),
            b.wf(),
            below(list@, b.placed@.len() as int),
            out == list_content(b@, list@, n as int),
        decreases list.len() - n,
    {
        let r: Vec<TaggedBox> = solids(b, list[n]);
        out = hull_of_rooms(out, &r);
        n = n + 1;
    }
    out
}

pub open spec fn box_or_origin(b: Option<BBox>) -> BBox {
    match b {
        Some(c) => c,
        None => BBox { x1: 0, y1: 0, x2: 0, y2: 0 },
    }
}

fn or_origin(b: Option<BBox>) -> (r: BBox)
    ensures
        r == box_or_origin(b),
{
    match b {
        Some(c) => c,
        None => BBox { x1: 0, y1: 0, x2: 0, y2: 0 },
    }
}

/// The first `n` of the list in a row from `at` on.
pub open spec fn row_placed(b: BoardView, list: Seq<usize>, at: Point, n: int) -> Seq<PlacedComp>
    decreases n,
{
    if n <= 0 || n > list.len() {
        b.placed
    } else {
        let before = row_placed(b, list, at, n - 1);
        let pi = list[n - 1] as int;
        let x = sat(at.x + spec_steps(n - 1, b.cfg.utility_pitch_mm as int));
        before.update(pi, moved(with_placed(b, before), pi, Point { x, y: at.y }))
    }
}

/// Where the row starts: its room begins behind the gap, level with the top of the rest.
pub open spec fn row_start(b: BoardView, list: Seq<usize>, rest: Seq<usize>) -> Point {
    let own = box_or_origin(list_content(b, list, list.len() as int));
    let free = box_or_origin(list_content(b, rest, rest.len() as int));
    Point {
        x: b.cfg.spec_snap_up(free.x2 + b.cfg.utility_gap_mm - own.x1),
        y: b.cfg.spec_snap(free.y1 - own.y1),
    }
}

/// The placement with the capacitors of the band in their row.
#[verifier::opaque]
pub open spec fn band_placed(b: BoardView) -> Seq<PlacedComp> {
    let n = b.placed.len() as int;
    let list = in_band(b.placed, true, n);
    let rest = in_band(b.placed, false, n);
    let posed = with_placed(b, posed_all(b, list));
    row_placed(posed, list, row_start(posed, list, rest), list.len() as int)
}

/// Put the capacitors of the band in their row.
pub fn place_band(
    cfg: &SchConfig,
    design: &DesignModel,
    placed: &mut Vec<PlacedComp>,
    nets: &[SheetNet],
)
    requires
        cfg.wf(),
        placed_wf(*design, old(placed)@),
        nets_wf(nets@, old(placed)@.len() as int),
    ensures
        final(placed)@ == band_placed(
            (BoardView { cfg: *cfg, design: *design, placed: old(placed)@, nets: nets@ }),
        ),
        same_parts(final(placed)@, old(placed)@),
{
    proof {
        reveal(band_placed);
    }
    let ghost b = BoardView { cfg: *cfg, design: *design, placed: placed@, nets: nets@ };
    let list: Vec<usize> = list_band(placed, true);
    let rest: Vec<usize> = list_band(placed, false);
    pose_all(cfg, design, placed, nets, &list);
    let ghost posed = with_placed(b, placed@);
    proof {
        lemma_same_parts(b, placed@);
    }
    let board: Board = Board { cfg, design, placed: &*placed, nets };
    proof {
        assert(board@ == posed);
    }
    let own: BBox = or_origin(content_of_list(&board, &list));
    let free: BBox = or_origin(content_of_list(&board, &rest));
    let at: Point = Point {
        x: cfg.snap_up(free.x2 as i64 + cfg.utility_gap_mm as i64 - own.x1 as i64),
        y: cfg.snap(free.y1 as i64 - own.y1 as i64),
    };
    let mut n: usize = 0;
    while n < list.len()
        invariant
            n <= list.len(),
            posed.cfg == *cfg,
            posed.design == *design,
            b.design == *design,
            b.wf(),
            below(list@, b.placed.len() as int),
            same_parts(placed@, b.placed),
            placed@ == row_placed(posed, list@, at, n as int),
        decreases list.len() - n,
    {
        let pi: usize = list[n];
        proof {
            assert(same_part(placed@[pi as int], b.placed[pi as int]));
            assert(b.placed[pi as int].comp < b.design.comps@.len());
        }
        let p: PlacedComp = placed[pi];
        let x: Iu = to_iu(at.x as i64 + steps(n, cfg.utility_pitch_mm) as i64);
        let q: PlacedComp = move_to(cfg, design, &p, Point { x, y: at.y });
        proof {
            lemma_same_parts_update(placed@, b.placed, pi as int, q);
        }
        placed.set(pi, q);
        n = n + 1;
    }
}

} // verus!
