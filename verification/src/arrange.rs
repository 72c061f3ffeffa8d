//! The arrangement of a sheet: groups in columns, then everything out of each other's way.

use vstd::prelude::*;
use crate::anchors::{anchors_wf, below};
use crate::compose::{
    lemma_place_is_part, lemma_same_parts, lemma_same_parts_trans, lemma_same_parts_update,
    orient_two_pin, place_satellites, same_part, same_parts, satellites_lost, satellites_placed,
    turned,
};
use crate::config::SchConfig;
use crate::filters::{filters_lined, line_filters};
use crate::geometry::{inflate, spec_inflate, BBox};
use crate::keepout::{
    crowded, hull_of_rooms, move_to, resolve_collisions, room_queue, room_upto, rooms, rooms_hull,
    solids, with_moved, TaggedBox,
};
use crate::model::DesignModel;
use crate::order::rows;
use crate::orientation::with_placed;
use crate::place::{placed_wf, solid_box_for, solid_of, PlacedComp, SheetNet};
use crate::texts::{nets_wf, Board, BoardView};
use crate::units::Point;
use crate::warning::Warning;

verus! {

// ---------------------------------------------------------------- one group

/// The members of the list but the root.
pub open spec fn others_of(members: Seq<usize>, root: int, n: int) -> Seq<usize>
    decreases n,
{
    if n <= 0 || n > members.len() {
        Seq::empty()
    } else if members[n - 1] == root {
        others_of(members, root, n - 1)
    } else {
        others_of(members, root, n - 1).push(members[n - 1])
    }
}

/// The first `n` of the list turned, one after the other.
pub open spec fn turned_upto(b: BoardView, list: Seq<usize>, n: int) -> Seq<PlacedComp>
    decreases n,
{
    if n <= 0 || n > list.len() {
        b.placed
    } else {
        let before = turned_upto(b, list, n - 1);
        let pi = list[n - 1] as int;
        before.update(pi, turned(with_placed(b, before), pi))
    }
}

pub open spec fn sized(cfg: SchConfig, design: DesignModel, p: PlacedComp) -> PlacedComp {
    PlacedComp { bbox: solid_of(cfg, design, p), ..p }
}

/// The first `n` of the list with their extents brought up to date.
pub open spec fn sized_upto(b: BoardView, list: Seq<usize>, n: int) -> Seq<PlacedComp>
    decreases n,
{
    if n <= 0 || n > list.len() {
        b.placed
    } else {
        let before = sized_upto(b, list, n - 1);
        let pi = list[n - 1] as int;
        before.update(pi, sized(b.cfg, b.design, before[pi]))
    }
}

/// The listed components turned, with their extents.
pub open spec fn posed_all(b: BoardView, list: Seq<usize>) -> Seq<PlacedComp> {
    sized_upto(
        with_placed(b, turned_upto(b, list, list.len() as int)),
        list,
        list.len() as int,
    )
}

/// A group before its members make room for each other: the root at the origin, the satellites
/// in rows, and the two-pin parts turned.
pub open spec fn group_laid(b: BoardView, root: int, members: Seq<usize>) -> BoardView {
    let start = with_moved(b, root, Point { x: 0, y: 0 });
    let sats = others_of(members, root, members.len() as int);
    let laid = with_placed(b, satellites_placed(start, sats, false));
    with_placed(b, posed_all(laid, members))
}

/// A group around its root, with its filters in line.
#[verifier::opaque]
pub open spec fn composed(b: BoardView, root: int, members: Seq<usize>) -> Seq<PlacedComp> {
    let laid = group_laid(b, root, members);
    let queue = room_queue(laid.placed, members);
    filters_lined(with_placed(b, room_upto(laid, queue, queue.len() as int)), root, members)
}

#[verifier::opaque]
pub open spec fn composed_said(b: BoardView, root: int, members: Seq<usize>) -> Seq<Warning> {
    let start = with_moved(b, root, Point { x: 0, y: 0 });
    let sats = others_of(members, root, members.len() as int);
    let laid = group_laid(b, root, members);
    let queue = room_queue(laid.placed, members);
    satellites_lost(start, sats, false) + crowded(laid, queue, queue.len() as int)
}

/// The box around the root and the room of the first `n` members.
pub open spec fn group_hull(b: BoardView, root: int, members: Seq<usize>, n: int) -> Option<BBox>
    decreases n,
{
    if n <= 0 || n > members.len() {
        Some(spec_inflate(b.placed[root].bbox, b.cfg.component_pad_mm as int))
    } else {
        let r = rooms(b, members[n - 1] as int);
        rooms_hull(group_hull(b, root, members, n - 1), r, r.len() as int)
    }
}

#[verifier::opaque]
pub open spec fn group_box(b: BoardView, root: int, members: Seq<usize>) -> BBox {
    match group_hull(b, root, members, members.len() as int) {
        Some(r) => r,
        None => BBox { x1: 0, y1: 0, x2: 0, y2: 0 },
    }
}

/// Turn the listed components and bring their extents up to date.
pub fn pose_all(
    cfg: &SchConfig,
    design: &DesignModel,
    placed: &mut Vec<PlacedComp>,
    nets: &[SheetNet],
    list: &Vec<usize>,
)
    requires
        cfg.wf(),
        placed_wf(*design, old(placed)@),
        nets_wf(nets@, old(placed)@.len() as int),
        below(list@, old(placed)@.len() as int),
    ensures
        final(placed)@ == posed_all(
            (BoardView { cfg: *cfg, design: *design, placed: old(placed)@, nets: nets@ }),
            list@,
        ),
        same_parts(final(placed)@, old(placed)@),
{
    let ghost b = BoardView { cfg: *cfg, design: *design, placed: placed@, nets: nets@ };
    let mut n: usize = 0;
    proof {
        lemma_parts_refl(placed@);
    }
    while n < list.len()
        invariant
            n <= list.len(),
            b.cfg == *cfg,
            b.design == *design,
            b.nets == nets@,
            b.wf(),
            below(list@, b.placed.len() as int),
            same_parts(placed@, b.placed),
            placed@ == turned_upto(b, list@, n as int),
        decreases list.len() - n,
    {
        let pi: usize = list[n];
        let ghost now = with_placed(b, placed@);
        proof {
            lemma_same_parts(b, placed@);
        }
        let board: Board = Board { cfg, design, placed: &*placed, nets };
        proof {
            assert(board@ == now);
        }
        let q: PlacedComp = orient_two_pin(&board, pi);
        proof {
            lemma_same_parts_update(placed@, b.placed, pi as int, q);
        }
        placed.set(pi, q);
        n = n + 1;
    }
    let ghost mid = with_placed(b, placed@);
    let mut n: usize = 0;
    while n < list.len()
        invariant
            n <= list.len(),
            mid.cfg == *cfg,
            mid.design == *design,
            b.design == *design,
            b.wf(),
            below(list@, b.placed.len() as int),
            same_parts(placed@, b.placed),
            placed@ == sized_upto(mid, list@, n as int),
        decreases list.len() - n,
    {
        let pi: usize = list[n];
        proof {
            assert(same_part(placed@[pi as int], b.placed[pi as int]));
            assert(b.placed[pi as int].comp < b.design.comps@.len());
        }
        let p: PlacedComp = placed[pi];
        let q: PlacedComp = PlacedComp { bbox: solid_box_for(cfg, design, &p), ..p };
        proof {
            lemma_same_parts_update(placed@, b.placed, pi as int, q);
        }
        placed.set(pi, q);
        n = n + 1;
    }
}

pub proof fn lemma_parts_refl(a: Seq<PlacedComp>)
    ensures
        same_parts(a, a),
{
    assert forall|i: int| 0 <= i < a.len() implies #[trigger] same_part(a[i], a[i]) by {}
}

fn list_others(members: &Vec<usize>, root: usize, Ghost(top): Ghost<int>) -> (r: Vec<usize>)
    requires
        below(members@, top),
    ensures
        r@ == others_of(members@, root as int, members@.len() as int),
        below(r@, top),
{
    let mut out: Vec<usize> = Vec::new();
    let mut n: usize = 0;
    while n < members.len()
        invariant
            n <= members.len(),
            below(members@, top),
            out@ == others_of(members@, root as int, n as int),
            below(out@, top),
        decreases members.len() - n,
    {
        if members[n] != root {
            out.push(members[n]);
        }
        n = n + 1;
    }
    out
}

fn box_of_group(b: &Board, root: usize, members: &Vec<usize>) -> (r: BBox)
    requires
        b.wf(),
        root < b.placed@.len(),
        below(members@, b.placed@.len() as int),
    ensures
        r == group_box(b@, root as int, members@),
{
    proof {
        reveal(group_box);
    }
    let mut out: Option<BBox> = Some(inflate(&b.placed[root].bbox, b.cfg.component_pad_mm));
    let mut n: usize = 0;
    while n < members.len()
        invariant
            n <= members.len(),
            b.wf(),
            below(members@, b.placed@.len() as int),
            out == group_hull(b@, root as int, members@, n as int),
        decreases members.len() - n,
    {
        let r: Vec<TaggedBox> = solids(b, members[n]);
        out = hull_of_rooms(out, &r);
        n = n + 1;
    }
    match out {
        Some(r) => r,
        None => BBox { x1: 0, y1: 0, x2: 0, y2: 0 },
    }
}

/// Lay out a group around its root at the origin; the box that it takes.
pub fn compose_group(
    cfg: &SchConfig,
    design: &DesignModel,
    placed: &mut Vec<PlacedComp>,
    nets: &[SheetNet],
    root: usize,
    members: &Vec<usize>,
    warnings: &mut Vec<Warning>,
) -> (r: BBox)
    requires
        cfg.wf(),
        placed_wf(*design, old(placed)@),
        nets_wf(nets@, old(placed)@.len() as int),
        anchors_wf(old(placed)@),
        root < old(placed)@.len(),
        below(members@, old(placed)@.len() as int),
    ensures
        ({
            let b = BoardView { cfg: *cfg, design: *design, placed: old(placed)@, nets: nets@ };
            &&& final(placed)@ == composed(b, root as int, members@)
            &&& final(warnings)@ == old(warnings)@ + composed_said(b, root as int, members@)
            &&& r == group_box(with_placed(b, final(placed)@), root as int, members@)
        }),
        same_parts(final(placed)@, old(placed)@),
{
    proof {
        reveal(composed);
        reveal(composed_said);
    }
    let ghost b = BoardView { cfg: *cfg, design: *design, placed: placed@, nets: nets@ };
    let ghost w0 = warnings@;
    let p: PlacedComp = placed[root];
    let q: PlacedComp = move_to(cfg, design, &p, Point { x: 0, y: 0 });
    proof {
        lemma_parts_refl(b.placed);
        lemma_same_parts_update(b.placed, b.placed, root as int, q);
    }
    placed.set(root, q);
    let ghost p1 = placed@;
    proof {
        lemma_same_parts(b, p1);
        assert(with_placed(b, p1) == with_moved(b, root as int, Point { x: 0, y: 0 }));
    }
    let sats: Vec<usize> = list_others(members, root, Ghost(placed@.len() as int));
    place_satellites(cfg, design, placed, nets, &sats, false, warnings);
    let ghost p2 = placed@;
    let ghost w2 = warnings@;
    proof {
        lemma_same_parts_trans(p2, p1, b.placed);
        lemma_same_parts(b, p2);
    }
    pose_all(cfg, design, placed, nets, members);
    let ghost p3 = placed@;
    proof {
        lemma_same_parts_trans(p3, p2, b.placed);
        lemma_same_parts(b, p3);
        assert(with_placed(b, p3) == group_laid(b, root as int, members@));
    }
    resolve_collisions(cfg, design, placed, nets, members, warnings);
    let ghost p4 = placed@;
    proof {
        lemma_place_is_part(p4, p3);
        lemma_same_parts_trans(p4, p3, b.placed);
        lemma_same_parts(b, p4);
        assert(with_placed(b, p4) == (BoardView {
            cfg: *cfg,
            design: *design,
            placed: p4,
            nets: nets@,
        }));
    }
    line_filters(cfg, design, placed, nets, root, members);
    proof {
        lemma_same_parts_trans(placed@, p4, b.placed);
        lemma_same_parts(b, placed@);
        assert(warnings@ =~= w0 + composed_said(b, root as int, members@));
    }
    let board: Board = Board { cfg, design, placed: &*placed, nets };
    proof {
        assert(board@ == with_placed(b, placed@));
    }
    box_of_group(&board, root, members)
}

} // verus!
