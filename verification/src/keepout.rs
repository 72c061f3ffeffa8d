//! The room that a placed component needs, and moving components out of each other's room.

use vstd::prelude::*;
use crate::anchors::{anchors_wf, below};
use crate::config::SchConfig;
use crate::geometry::{
    hull, inflate, overlaps, point_box, spec_inflate, spec_overlaps, spec_point_box, union_box,
    BBox,
};
use crate::glyphs::{
    attachment, potential_rank, power_attachment, power_box, power_points_down,
    power_symbol_graphic_box, Attachment,
};
use crate::model::{DesignModel, NetClass, Side};
use crate::orientation::{lemma_wf_update, with_placed};
use crate::pins::{geom_of, is_pair_net, is_pair_net_static, is_seen, seen};
use crate::place::{
    label_stub_len, placed_wf, solid_box_for, solid_of, spec_stub_len, PlacedComp, SheetNet,
};
use crate::texts::{find_pin_on_net, nets_wf, pin_on_net, Board, BoardView, PinOnNet};
use crate::units::{shift, spec_shift, Iu, Point};
use crate::warning::Warning;

verus! {

// ---------------------------------------------------------------- room

/// A box, with the net that it belongs to where it is a connection.
#[derive(Debug)]
pub struct TaggedBox {
    pub bbox: BBox,
    pub net: Option<String>,
}

/// The box around the first `n` points of a path.
pub open spec fn path_box(path: Seq<Point>, n: int) -> BBox
    decreases n,
{
    if n <= 1 {
        spec_point_box(path[0], 12700)
    } else {
        hull(path_box(path, n - 1), spec_point_box(path[n - 1], 12700))
    }
}

/// The room of a power connection: its path and its symbol.
pub open spec fn power_room(b: BoardView, p: PinOnNet) -> Seq<TaggedBox> {
    let net = b.nets[p.sn];
    let down = potential_rank(net.name@, net.class) <= 0;
    let att = attachment(b.cfg, p.pos, p.dir, down, 0, 0);
    seq![
        TaggedBox { bbox: path_box(att.path, att.path.len() as int), net: Some(net.name) },
        TaggedBox {
            bbox: power_box(net.name@.len() as int, att.symbol_at, att.down),
            net: Some(net.name),
        },
    ]
}

/// The room of the power connections of the first `n` pins, one for each position; the positions.
pub open spec fn power_rooms(b: BoardView, pi: int, n: int) -> (Seq<TaggedBox>, Seq<Point>)
    decreases n,
{
    if n <= 0 || n > geom_of(b.design, b.placed[pi]).pins@.len() {
        (Seq::empty(), Seq::empty())
    } else {
        let before = power_rooms(b, pi, n - 1);
        match pin_on_net(b, pi, n - 1) {
            Some(p) => if b.nets[p.sn].class == NetClass::Signal || seen(before.1, p.pos) {
                before
            } else {
                (before.0 + power_room(b, p), before.1.push(p.pos))
            },
            None => before,
        }
    }
}

/// The room of a label and its stub.
pub open spec fn label_room(b: BoardView, p: PinOnNet) -> TaggedBox {
    let net = b.nets[p.sn];
    let end = if p.dir.y != 0 {
        Point {
            x: p.pos.x,
            y: spec_shift(p.pos.y as int, p.dir.y as int, b.cfg.stub_mm + 25400),
        }
    } else {
        Point {
            x: spec_shift(
                p.pos.x as int,
                p.dir.x as int,
                spec_stub_len(b.cfg, net.name@.len() as int) + 12700,
            ),
            y: p.pos.y,
        }
    };
    TaggedBox {
        bbox: hull(spec_point_box(p.pos, 15240), spec_point_box(end, 15240)),
        net: Some(net.name),
    }
}

/// The room of the labels of the first `n` pins, one for each position; the positions.
pub open spec fn label_rooms(b: BoardView, pi: int, n: int) -> (Seq<TaggedBox>, Seq<Point>)
    decreases n,
{
    if n <= 0 || n > geom_of(b.design, b.placed[pi]).pins@.len() {
        (Seq::empty(), Seq::empty())
    } else {
        let before = label_rooms(b, pi, n - 1);
        match pin_on_net(b, pi, n - 1) {
            Some(p) => if b.nets[p.sn].class != NetClass::Signal || is_pair_net(
                b.cfg,
                b.design,
                b.placed,
                b.nets[p.sn],
            ) || seen(before.1, p.pos) {
                before
            } else {
                (before.0.push(label_room(b, p)), before.1.push(p.pos))
            },
            None => before,
        }
    }
}

/// All the room that a component needs.
pub open spec fn rooms(b: BoardView, pi: int) -> Seq<TaggedBox> {
    let n = geom_of(b.design, b.placed[pi]).pins@.len() as int;
    seq![
        TaggedBox {
            bbox: spec_inflate(b.placed[pi].bbox, b.cfg.component_pad_mm as int),
            net: None,
        },
    ] + power_rooms(b, pi, n).0 + label_rooms(b, pi, n).0
}

fn box_of_path(path: &Vec<Point>) -> (r: BBox)
    requires
        path@.len() > 0,
    ensures
        r == path_box(path@, path@.len() as int),
{
    let mut out: BBox = point_box(path[0], 12700);
    let mut n: usize = 1;
    while n < path.len()
        invariant
            1 <= n <= path.len(),
            out == path_box(path@, n as int),
        decreases path.len() - n,
    {
        out = union_box(&out, &point_box(path[n], 12700));
        n = n + 1;
    }
    out
}

/// The room of the power connections of a component.
pub fn power_keepouts(b: &Board, pi: usize) -> (r: Vec<TaggedBox>)
    requires
        b.wf(),
        pi < b.placed@.len(),
    ensures
        r@ == power_rooms(
            b@,
            pi as int,
            geom_of(*b.design, b.placed@[pi as int]).pins@.len() as int,
        ).0,
{
    let mut out: Vec<TaggedBox> = Vec::new();
    let mut met: Vec<Point> = Vec::new();
    let count: usize = b.design.comps[b.placed[pi].comp].geom.pins.len();
    let mut n: usize = 0;
    while n < count
        invariant
            n <= count,
            b.wf(),
            pi < b.placed@.len(),
            count == geom_of(*b.design, b.placed@[pi as int]).pins@.len(),
            (out@, met@) == power_rooms(b@, pi as int, n as int),
        decreases count - n,
    {
        let ghost before = out@;
        match find_pin_on_net(b, pi, n) {
            Some((sn, pos, dir)) => {
                let net: &SheetNet = &b.nets[sn];
                if net.class != NetClass::Signal && !is_seen(&met, pos) {
                    let att: Attachment = power_attachment(
                        b.cfg,
                        pos,
                        dir,
                        power_points_down(net.name.as_str(), net.class),
                        0,
                        0,
                    );
                    out.push(
                        TaggedBox { bbox: box_of_path(&att.path), net: Some(net.name.clone()) },
                    );
                    out.push(
                        TaggedBox {
                            bbox: power_symbol_graphic_box(
                                net.name.as_str(),
                                att.symbol_at,
                                att.down,
                            ),
                            net: Some(net.name.clone()),
                        },
                    );
                    met.push(pos);
                    proof {
                        assert(out@ =~= before + power_room(
                            b@,
                            PinOnNet { sn: sn as int, pos, dir },
                        ));
                    }
                }
            },
            None => {},
        }
        n = n + 1;
    }
    out
}

/// The room of the labels of a component.
pub fn label_keepouts(b: &Board, pi: usize) -> (r: Vec<TaggedBox>)
    requires
        b.wf(),
        pi < b.placed@.len(),
    ensures
        r@ == label_rooms(
            b@,
            pi as int,
            geom_of(*b.design, b.placed@[pi as int]).pins@.len() as int,
        ).0,
{
    let mut out: Vec<TaggedBox> = Vec::new();
    let mut met: Vec<Point> = Vec::new();
    let count: usize = b.design.comps[b.placed[pi].comp].geom.pins.len();
    let mut n: usize = 0;
    while n < count
        invariant
            n <= count,
            b.wf(),
            pi < b.placed@.len(),
            count == geom_of(*b.design, b.placed@[pi as int]).pins@.len(),
            (out@, met@) == label_rooms(b@, pi as int, n as int),
        decreases count - n,
    {
        match find_pin_on_net(b, pi, n) {
            Some((sn, pos, dir)) => {
                let net: &SheetNet = &b.nets[sn];
                proof {
                    assert forall|e: int| 0 <= e < net.endpoints@.len() implies (
                    #[trigger] net.endpoints@[e]).placed < b.placed@.len() by {
                        assert(b.nets@[sn as int].endpoints@[e].placed < b.placed@.len());
                    }
                }
                if net.class == NetClass::Signal && !is_pair_net_static(
                    b.cfg,
                    b.design,
                    b.placed,
                    net,
                ) && !is_seen(&met, pos) {
                    let end: Point = if dir.y != 0 {
                        Point { x: pos.x, y: shift(pos.y, dir.y, b.cfg.stub_mm as i64 + 25400) }
                    } else {
                        let len: i64 = label_stub_len(b.cfg, net.name.as_str()) as i64 + 12700;
                        Point { x: shift(pos.x, dir.x, len), y: pos.y }
                    };
                    out.push(
                        TaggedBox {
                            bbox: union_box(&point_box(pos, 15240), &point_box(end, 15240)),
                            net: Some(net.name.clone()),
                        },
                    );
                    met.push(pos);
                }
            },
            None => {},
        }
        n = n + 1;
    }
    out
}

/// All the room that a component needs.
pub fn solids(b: &Board, pi: usize) -> (r: Vec<TaggedBox>)
    requires
        b.wf(),
        pi < b.placed@.len(),
    ensures
        r@ == rooms(b@, pi as int),
        r@.len() > 0,
{
    let mut out: Vec<TaggedBox> = Vec::new();
    out.push(
        TaggedBox { bbox: inflate(&b.placed[pi].bbox, b.cfg.component_pad_mm), net: None },
    );
    let mut power: Vec<TaggedBox> = power_keepouts(b, pi);
    let mut labels: Vec<TaggedBox> = label_keepouts(b, pi);
    out.append(&mut power);
    out.append(&mut labels);
    proof {
        assert(out@ =~= rooms(b@, pi as int));
    }
    out
}

// ---------------------------------------------------------------- extents

/// The box around the first `n` rooms.
pub open spec fn rooms_hull(start: Option<BBox>, r: Seq<TaggedBox>, n: int) -> Option<BBox>
    decreases n,
{
    if n <= 0 || n > r.len() {
        start
    } else {
        Some(
            match rooms_hull(start, r, n - 1) {
                Some(b) => hull(b, r[n - 1].bbox),
                None => r[n - 1].bbox,
            },
        )
    }
}

/// The box around the rooms of the first `n` components, all of them or those placed by hand.
pub open spec fn content_upto(b: BoardView, by_hand: bool, n: int) -> Option<BBox>
    decreases n,
{
    if n <= 0 || n > b.placed.len() {
        None
    } else {
        let before = content_upto(b, by_hand, n - 1);
        if by_hand && !b.placed[n - 1].pinned {
            before
        } else {
            rooms_hull(before, rooms(b, n - 1), rooms(b, n - 1).len() as int)
        }
    }
}

pub fn hull_of_rooms(start: Option<BBox>, r: &Vec<TaggedBox>) -> (out: Option<BBox>)
    ensures
        out == rooms_hull(start, r@, r@.len() as int),
{
    let mut out: Option<BBox> = start;
    let mut n: usize = 0;
    while n < r.len()
        invariant
            n <= r.len(),
            out == rooms_hull(start, r@, n as int),
        decreases r.len() - n,
    {
        out = Some(
            match out {
                Some(cur) => union_box(&cur, &r[n].bbox),
                None => r[n].bbox,
            },
        );
        n = n + 1;
    }
    out
}

fn content_of(b: &Board, by_hand: bool) -> (r: Option<BBox>)
    requires
        b.wf(),
    ensures
        r == content_upto(b@, by_hand, b.placed@.len() as int),
{
    let mut out: Option<BBox> = None;
    let mut n: usize = 0;
    while n < b.placed.len()
        invariant
            n <= b.placed.len(),
            b.wf(),
            out == content_upto(b@, by_hand, n as int),
        decreases b.placed.len() - n,
    {
        if !by_hand || b.placed[n].pinned {
            let r: Vec<TaggedBox> = solids(b, n);
            out = hull_of_rooms(out, &r);
        }
        n = n + 1;
    }
    out
}

/// The box around everything that was placed by hand.
pub fn pinned_content_box(b: &Board) -> (r: Option<BBox>)
    requires
        b.wf(),
    ensures
        r == content_upto(b@, true, b.placed@.len() as int),
{
    content_of(b, true)
}

/// The box around the whole content of the sheet.
pub open spec fn content(b: BoardView) -> BBox {
    match content_upto(b, false, b.placed.len() as int) {
        Some(c) => c,
        None => BBox { x1: 0, y1: 0, x2: 0, y2: 0 },
    }
}

/// The box around the whole content of the sheet.
pub fn content_box(b: &Board) -> (r: BBox)
    requires
        b.wf(),
    ensures
        r == content(b@),
{
    match content_of(b, false) {
        Some(c) => c,
        None => BBox { x1: 0, y1: 0, x2: 0, y2: 0 },
    }
}

// ---------------------------------------------------------------- conflicts

/// Two rooms overlap that are not connections of one net.
pub open spec fn rooms_clash(x: TaggedBox, y: TaggedBox) -> bool {
    !(x.net matches Some(a) && y.net matches Some(c) && a@ == c@) && spec_overlaps(x.bbox, y.bbox)
}

pub open spec fn any_clash(mine: Seq<TaggedBox>, theirs: Seq<TaggedBox>) -> bool {
    exists|i: int, j: int|
        0 <= i < mine.len() && 0 <= j < theirs.len() && #[trigger] rooms_clash(mine[i], theirs[j])
}

/// The component needs room that one of the others takes.
#[verifier::opaque]
pub open spec fn in_conflict(b: BoardView, pi: int, others: Seq<usize>) -> bool {
    exists|k: int|
        0 <= k < others.len() && any_clash(rooms(b, pi), rooms(b, #[trigger] others[k] as int))
}

fn do_rooms_clash(x: &TaggedBox, y: &TaggedBox) -> (r: bool)
    ensures
        r == rooms_clash(*x, *y),
{
    match (&x.net, &y.net) {
        (Some(a), Some(c)) => {
            if *a == *c {
                return false;
            }
        },
        _ => {},
    }
    overlaps(&x.bbox, &y.bbox)
}

fn do_any_clash(mine: &Vec<TaggedBox>, theirs: &Vec<TaggedBox>) -> (r: bool)
    ensures
        r == any_clash(mine@, theirs@),
{
    let mut i: usize = 0;
    while i < mine.len()
        invariant
            i <= mine.len(),
            forall|a: int, c: int|
                0 <= a < i && 0 <= c < theirs@.len() ==> !#[trigger] rooms_clash(
                    mine@[a],
                    theirs@[c],
                ),
        decreases mine.len() - i,
    {
        let mut j: usize = 0;
        while j < theirs.len()
            invariant
                i < mine.len(),
                j <= theirs.len(),
                forall|c: int|
                    0 <= c < j ==> !#[trigger] rooms_clash(mine@[i as int], theirs@[c]),
            decreases theirs.len() - j,
        {
            if do_rooms_clash(&mine[i], &theirs[j]) {
                return true;
            }
            j = j + 1;
        }
        i = i + 1;
    }
    false
}

/// Does the component need room that one of the others takes?
pub fn conflicts(b: &Board, pi: usize, others: &Vec<usize>) -> (r: bool)
    requires
        b.wf(),
        pi < b.placed@.len(),
        below(others@, b.placed@.len() as int),
    ensures
        r == in_conflict(b@, pi as int, others@),
{
    proof {
        reveal(in_conflict);
    }
    let mine: Vec<TaggedBox> = solids(b, pi);
    let mut k: usize = 0;
    while k < others.len()
        invariant
            k <= others.len(),
            b.wf(),
            below(others@, b.placed@.len() as int),
            mine@ == rooms(b@, pi as int),
            forall|c: int|
                0 <= c < k ==> !any_clash(mine@, rooms(b@, #[trigger] others@[c] as int)),
        decreases others.len() - k,
    {
        let theirs: Vec<TaggedBox> = solids(b, others[k]);
        if do_any_clash(&mine, &theirs) {
            proof {
                reveal(in_conflict);
            }
            return true;
        }
        k = k + 1;
    }
    false
}

// ---------------------------------------------------------------- making room

/// The four directions that a satellite is pushed in, the preferred one first.
pub open spec fn pushes(p: PlacedComp, anchor_at: Point) -> Seq<(int, int)> {
    if p.side == Side::Left {
        seq![(-1int, 0int), (0, 1), (0, -1), (1, 0)]
    } else if p.side == Side::Right {
        seq![(1int, 0int), (0, 1), (0, -1), (-1, 0)]
    } else {
        let dx = if p.at.x < anchor_at.x {
            -1int
        } else {
            1
        };
        let dy = if p.side == Side::Above {
            -1int
        } else {
            1
        };
        seq![(dx, 0int), (-dx, 0), (0, dy), (0, -dy)]
    }
}

/// Place `k` to try for a satellite: first along its row, then in rings of all four directions.
pub open spec fn satellite_spot(cfg: SchConfig, p: PlacedComp, anchor_at: Point, k: int) -> Point {
    let dirs = pushes(p, anchor_at);
    if k < 16 {
        let lead = dirs[0].0;
        let d = if k % 2 == 0 {
            lead
        } else {
            -lead
        };
        Point { x: cfg.spec_snap(p.at.x + d * (k / 2 + 1) * 25400), y: p.at.y }
    } else {
        let d = dirs[(k - 16) % 4];
        let far = (k - 16) / 4 + 1;
        Point {
            x: cfg.spec_snap(p.at.x + d.0 * far * 25400),
            y: cfg.spec_snap(p.at.y + d.1 * far * 25400),
        }
    }
}

/// Place `k` to try for a component of its own: further down.
pub open spec fn flow_spot(cfg: SchConfig, p: PlacedComp, k: int) -> Point {
    Point { x: p.at.x, y: cfg.spec_snap(p.at.y + (k + 1) * 25400) }
}

pub open spec fn spot(b: BoardView, pi: int, k: int) -> Point {
    let p = b.placed[pi];
    match p.anchor {
        Some(a) => satellite_spot(b.cfg, p, b.placed[a as int].at, k),
        None => flow_spot(b.cfg, p, k),
    }
}

/// The number of places to try.
pub open spec fn spot_count(p: PlacedComp) -> int {
    if p.anchor is Some {
        176
    } else {
        200
    }
}

/// The component moved, with its extent.
pub open spec fn moved(b: BoardView, pi: int, at: Point) -> PlacedComp {
    let q = PlacedComp { at, ..b.placed[pi] };
    PlacedComp { bbox: solid_of(b.cfg, b.design, q), ..q }
}

/// The placement with one component moved.
pub open spec fn with_moved(b: BoardView, pi: int, at: Point) -> BoardView {
    with_placed(b, b.placed.update(pi, moved(b, pi, at)))
}

/// The first place, from `k` on, where the component takes nobody's room.
pub open spec fn free_spot(b: BoardView, pi: int, others: Seq<usize>, k: int) -> Option<int>
    decreases spot_count(b.placed[pi]) - k,
{
    if k < 0 || k >= spot_count(b.placed[pi]) {
        None
    } else if !in_conflict(with_moved(b, pi, spot(b, pi, k)), pi, others) {
        Some(k)
    } else {
        free_spot(b, pi, others, k + 1)
    }
}

/// The component must move: it was not placed by hand, and takes the room of another.
pub open spec fn must_move(b: BoardView, pi: int, others: Seq<usize>) -> bool {
    !b.placed[pi].pinned && in_conflict(b, pi, others)
}

/// The component must move, and no place is free.
#[verifier::opaque]
pub open spec fn finds_no_room(b: BoardView, pi: int, others: Seq<usize>) -> bool {
    must_move(b, pi, others) && free_spot(b, pi, others, 0) is None
}

/// The component where it takes nobody's room, or where it was.
#[verifier::opaque]
pub open spec fn made_room(b: BoardView, pi: int, others: Seq<usize>) -> PlacedComp {
    if !must_move(b, pi, others) {
        b.placed[pi]
    } else {
        match free_spot(b, pi, others, 0) {
            Some(k) => moved(b, pi, spot(b, pi, k)),
            None => moved(b, pi, b.placed[pi].at),
        }
    }
}

/// The first `n` of the queue moved out of the room of those before them.
pub open spec fn room_upto(b: BoardView, queue: Seq<usize>, n: int) -> Seq<PlacedComp>
    decreases n,
{
    if n <= 0 || n > queue.len() {
        b.placed
    } else {
        let before = with_placed(b, room_upto(b, queue, n - 1));
        let pi = queue[n - 1] as int;
        before.placed.update(pi, made_room(before, pi, queue.take(n - 1)))
    }
}

/// The remarks on those of the first `n` that found no room.
pub open spec fn crowded(b: BoardView, queue: Seq<usize>, n: int) -> Seq<Warning>
    decreases n,
{
    if n <= 0 || n > queue.len() {
        Seq::empty()
    } else {
        let now = with_placed(b, room_upto(b, queue, n - 1));
        let pi = queue[n - 1] as int;
        let others = queue.take(n - 1);
        if finds_no_room(now, pi, others) {
            crowded(b, queue, n - 1).push(
                Warning::Overlap { refdes: b.design.comps@[b.placed[pi].comp as int].refdes },
            )
        } else {
            crowded(b, queue, n - 1)
        }
    }
}

/// Those of the first `n` that were placed by hand, or those that were not.
pub open spec fn by_hand(placed: Seq<PlacedComp>, order: Seq<usize>, pinned: bool, n: int) -> Seq<usize>
    decreases n,
{
    if n <= 0 || n > order.len() {
        Seq::empty()
    } else {
        let before = by_hand(placed, order, pinned, n - 1);
        if placed[order[n - 1] as int].pinned == pinned {
            before.push(order[n - 1])
        } else {
            before
        }
    }
}

/// What was placed by hand comes first.
pub open spec fn room_queue(placed: Seq<PlacedComp>, order: Seq<usize>) -> Seq<usize> {
    by_hand(placed, order, true, order.len() as int) + by_hand(
        placed,
        order,
        false,
        order.len() as int,
    )
}

/// Everything but position and extent stays.
pub open spec fn same_but_place(a: PlacedComp, c: PlacedComp) -> bool {
    a == (PlacedComp { at: a.at, bbox: a.bbox, ..c })
}

pub open spec fn all_same_but_place(a: Seq<PlacedComp>, c: Seq<PlacedComp>) -> bool {
    a.len() == c.len() && forall|i: int|
        0 <= i < a.len() ==> #[trigger] same_but_place(a[i], c[i])
}

pub proof fn lemma_same_but_place(b: BoardView, placed: Seq<PlacedComp>)
    requires
        b.wf(),
        all_same_but_place(placed, b.placed),
    ensures
        with_placed(b, placed).wf(),
        anchors_wf(b.placed) ==> anchors_wf(placed),
{
    assert forall|i: int| 0 <= i < placed.len() implies (#[trigger] placed[i]).comp
        < b.design.comps@.len() by {
        assert(same_but_place(placed[i], b.placed[i]));
        assert(b.placed[i].comp < b.design.comps@.len());
    }
    if anchors_wf(b.placed) {
        assert forall|i: int| 0 <= i < placed.len() implies ((
        #[trigger] placed[i]).anchor matches Some(a) ==> a < placed.len()) by {
            assert(same_but_place(placed[i], b.placed[i]));
            assert(b.placed[i].anchor == placed[i].anchor);
        }
    }
}

pub proof fn lemma_room_upto(b: BoardView, queue: Seq<usize>, n: int)
    requires
        below(queue, b.placed.len() as int),
        0 <= n <= queue.len(),
    ensures
        all_same_but_place(room_upto(b, queue, n), b.placed),
        forall|i: int|
            0 <= i < b.placed.len() && b.placed[i].pinned ==> #[trigger] room_upto(b, queue, n)[i]
                == b.placed[i],
    decreases n,
{
    if n > 0 {
        reveal(made_room);
        lemma_room_upto(b, queue, n - 1);
        let before = room_upto(b, queue, n - 1);
        let r = room_upto(b, queue, n);
        let pi = queue[n - 1] as int;
        assert(same_but_place(before[pi], b.placed[pi]));
        assert forall|i: int| 0 <= i < r.len() implies #[trigger] same_but_place(
            r[i],
            b.placed[i],
        ) by {
            assert(same_but_place(before[i], b.placed[i]));
        }
    }
}

/// Making room never moves what was placed by hand, and changes nothing but positions.
pub proof fn law_room_keeps_pinned(b: BoardView, order: Seq<usize>)
    requires
        below(order, b.placed.len() as int),
    ensures
        ({
            let queue = room_queue(b.placed, order);
            let r = room_upto(b, queue, queue.len() as int);
            &&& all_same_but_place(r, b.placed)
            &&& forall|i: int|
                0 <= i < b.placed.len() && b.placed[i].pinned ==> #[trigger] r[i] == b.placed[i]
        }),
{
    let queue = room_queue(b.placed, order);
    lemma_by_hand(b.placed, order, true, order.len() as int);
    lemma_by_hand(b.placed, order, false, order.len() as int);
    lemma_room_upto(b, queue, queue.len() as int);
}

proof fn lemma_by_hand(placed: Seq<PlacedComp>, order: Seq<usize>, pinned: bool, n: int)
    requires
        below(order, placed.len() as int),
        0 <= n <= order.len(),
    ensures
        below(by_hand(placed, order, pinned, n), placed.len() as int),
    decreases n,
{
    if n > 0 {
        lemma_by_hand(placed, order, pinned, n - 1);
    }
}

/// A component that made room takes the room of none of those before it, unless no place to try
/// was free; one that was placed by hand stays whatever it covers.
pub proof fn law_made_room_is_free(b: BoardView, pi: int, others: Seq<usize>)
    requires
        0 <= pi < b.placed.len(),
        !b.placed[pi].pinned,
    ensures
        !in_conflict(with_placed(b, b.placed.update(pi, made_room(b, pi, others))), pi, others)
            || free_spot(b, pi, others, 0) is None,
{
    reveal(made_room);
    if must_move(b, pi, others) {
        lemma_free_spot(b, pi, others, 0);
    } else {
        assert(b.placed.update(pi, b.placed[pi]) =~= b.placed);
    }
}

proof fn lemma_free_spot(b: BoardView, pi: int, others: Seq<usize>, k: int)
    ensures
        free_spot(b, pi, others, k) matches Some(f) ==> !in_conflict(
            with_moved(b, pi, spot(b, pi, f)),
            pi,
            others,
        ),
    decreases spot_count(b.placed[pi]) - k,
{
    if 0 <= k < spot_count(b.placed[pi]) && in_conflict(
        with_moved(b, pi, spot(b, pi, k)),
        pi,
        others,
    ) {
        lemma_free_spot(b, pi, others, k + 1);
    }
}

/// The four directions that a satellite is pushed in, the preferred one first.
pub fn push_directions(p: &PlacedComp, anchor_at: Point) -> (r: Vec<(i64, i64)>)
    ensures
        r@.len() == 4,
        forall|i: int|
            0 <= i < 4 ==> (#[trigger] r@[i]).0 as int == pushes(*p, anchor_at)[i].0 && r@[i].1
                as int == pushes(*p, anchor_at)[i].1 && -1 <= r@[i].0 <= 1 && -1 <= r@[i].1 <= 1,
{
    match p.side {
        Side::Left => vec![(-1, 0), (0, 1), (0, -1), (1, 0)],
        Side::Right => vec![(1, 0), (0, 1), (0, -1), (-1, 0)],
        _ => {
            let dx: i64 = if p.at.x < anchor_at.x {
                -1
            } else {
                1
            };
            let dy: i64 = if p.side == Side::Above {
                -1
            } else {
                1
            };
            let back: i64 = -dx;
            let up: i64 = -dy;
            vec![(dx, 0), (back, 0), (0, dy), (0, up)]
        },
    }
}

fn along(cfg: &SchConfig, from: Iu, d: i64, far: i64) -> (r: Iu)
    requires
        cfg.wf(),
        -1 <= d <= 1,
        0 <= far <= 1000,
    ensures
        r == cfg.spec_snap(from + d * far * 25400),
{
    proof {
        assert(-1000 <= d * far <= 1000) by (nonlinear_arith)
            requires
                -1 <= d <= 1,
                0 <= far <= 1000,
        ;
    }
    cfg.snap(from as i64 + d * far * 25400)
}

fn spot_of(b: &Board, pi: usize, k: usize) -> (r: Point)
    requires
        b.wf(),
        anchors_wf(b.placed@),
        pi < b.placed@.len(),
        k < spot_count(b.placed@[pi as int]),
    ensures
        r == spot(b@, pi as int, k as int),
{
    let p: &PlacedComp = &b.placed[pi];
    match p.anchor {
        Some(a) => {
            let anchor_at: Point = b.placed[a].at;
            let dirs: Vec<(i64, i64)> = push_directions(p, anchor_at);
            if k < 16 {
                let d: i64 = if k % 2 == 0 {
                    dirs[0].0
                } else {
                    -dirs[0].0
                };
                Point { x: along(b.cfg, p.at.x, d, (k / 2 + 1) as i64), y: p.at.y }
            } else {
                let d: (i64, i64) = dirs[(k - 16) % 4];
                let far: i64 = ((k - 16) / 4 + 1) as i64;
                Point { x: along(b.cfg, p.at.x, d.0, far), y: along(b.cfg, p.at.y, d.1, far) }
            }
        },
        None => Point { x: p.at.x, y: along(b.cfg, p.at.y, 1, k as i64 + 1) },
    }
}

/// The component moved, with its extent.
pub fn move_to(cfg: &SchConfig, design: &DesignModel, p: &PlacedComp, at: Point) -> (r: PlacedComp)
    requires
        p.comp < design.comps@.len(),
    ensures
        r == (PlacedComp {
            at,
            bbox: solid_of(*cfg, *design, (PlacedComp { at, ..*p })),
            ..*p
        }),
{
    let q: PlacedComp = PlacedComp { at, ..*p };
    PlacedComp { bbox: solid_box_for(cfg, design, &q), ..q }
}

/// Move a component out of the room of the others; `false` where no place is free.
fn make_room(
    cfg: &SchConfig,
    design: &DesignModel,
    placed: &mut Vec<PlacedComp>,
    nets: &[SheetNet],
    pi: usize,
    others: &Vec<usize>,
    Ghost(b): Ghost<BoardView>,
) -> (ok: bool)
    requires
        b == (BoardView { cfg: *cfg, design: *design, placed: old(placed)@, nets: nets@ }),
        b.wf(),
        anchors_wf(b.placed),
        pi < b.placed.len(),
        below(others@, b.placed.len() as int),
    ensures
        final(placed)@ == b.placed.update(pi as int, made_room(b, pi as int, others@)),
        ok == !finds_no_room(b, pi as int, others@),
{
    let p: PlacedComp = placed[pi];
    proof {
        reveal(made_room);
        reveal(finds_no_room);
        assert(b.placed.update(pi as int, p) =~= b.placed);
    }
    if p.pinned {
        return true;
    }
    let board: Board = Board { cfg, design, placed: &*placed, nets };
    proof {
        assert(board@ == b);
    }
    if !conflicts(&board, pi, others) {
        return true;
    }
    let count: usize = if p.anchor.is_some() {
        176
    } else {
        200
    };
    let mut spots: Vec<Point> = Vec::new();
    let mut k: usize = 0;
    while k < count
        invariant
            k <= count,
            count == spot_count(p),
            board.wf(),
            anchors_wf(board.placed@),
            pi < board.placed@.len(),
            p == board.placed@[pi as int],
            board@ == b,
            spots@.len() == k,
            forall|i: int| 0 <= i < k ==> #[trigger] spots@[i] == spot(b, pi as int, i),
        decreases count - k,
    {
        spots.push(spot_of(&board, pi, k));
        k = k + 1;
    }
    let mut k: usize = 0;
    while k < spots.len()
        invariant
            k <= spots.len(),
            spots@.len() == spot_count(p),
            forall|i: int| 0 <= i < spots@.len() ==> #[trigger] spots@[i] == spot(b, pi as int, i),
            b.cfg == *cfg,
            b.design == *design,
            b.nets == nets@,
            b.wf(),
            pi < b.placed.len(),
            p == b.placed[pi as int],
            must_move(b, pi as int, others@),
            below(others@, b.placed.len() as int),
            placed@.len() == b.placed.len(),
            forall|i: int| 0 <= i < placed@.len() && i != pi ==> placed@[i] == b.placed[i],
            free_spot(b, pi as int, others@, 0) == free_spot(b, pi as int, others@, k as int),
        decreases spots.len() - k,
    {
        let q: PlacedComp = move_to(cfg, design, &p, spots[k]);
        proof {
            assert(q == moved(b, pi as int, spot(b, pi as int, k as int)));
            lemma_wf_update(b, pi as int, q);
        }
        placed.set(pi, q);
        let board: Board = Board { cfg, design, placed: &*placed, nets };
        proof {
            assert(placed@ =~= b.placed.update(pi as int, q));
            assert(board@ == with_moved(b, pi as int, spot(b, pi as int, k as int)));
        }
        if !conflicts(&board, pi, others) {
            proof {
                reveal(made_room);
                reveal(finds_no_room);
                assert(free_spot(b, pi as int, others@, 0) == Some(k as int));
            }
            return true;
        }
        k = k + 1;
    }
    placed.set(pi, move_to(cfg, design, &p, p.at));
    proof {
        assert(placed@ =~= b.placed.update(pi as int, made_room(b, pi as int, others@)));
    }
    false
}

fn queue_for_room(placed: &[PlacedComp], order: &Vec<usize>) -> (r: Vec<usize>)
    requires
        below(order@, placed@.len() as int),
    ensures
        r@ == room_queue(placed@, order@),
        below(r@, placed@.len() as int),
{
    let mut queue: Vec<usize> = Vec::new();
    let mut rest: Vec<usize> = Vec::new();
    let mut n: usize = 0;
    while n < order.len()
        invariant
            n <= order.len(),
            below(order@, placed@.len() as int),
            queue@ == by_hand(placed@, order@, true, n as int),
            rest@ == by_hand(placed@, order@, false, n as int),
        decreases order.len() - n,
    {
        if placed[order[n]].pinned {
            queue.push(order[n]);
        } else {
            rest.push(order[n]);
        }
        n = n + 1;
    }
    proof {
        lemma_by_hand(placed@, order@, true, order@.len() as int);
        lemma_by_hand(placed@, order@, false, order@.len() as int);
    }
    queue.append(&mut rest);
    proof {
        assert(queue@ =~= room_queue(placed@, order@));
    }
    queue
}

/// Move the listed components out of each other's room, first come first served; what was
/// placed by hand comes first.
pub fn resolve_collisions(
    cfg: &SchConfig,
    design: &DesignModel,
    placed: &mut Vec<PlacedComp>,
    nets: &[SheetNet],
    order: &Vec<usize>,
    warnings: &mut Vec<Warning>,
)
    requires
        cfg.wf(),
        placed_wf(*design, old(placed)@),
        nets_wf(nets@, old(placed)@.len() as int),
        anchors_wf(old(placed)@),
        below(order@, old(placed)@.len() as int),
    ensures
        ({
            let b = BoardView { cfg: *cfg, design: *design, placed: old(placed)@, nets: nets@ };
            let queue = room_queue(b.placed, order@);
            &&& final(placed)@ == room_upto(b, queue, queue.len() as int)
            &&& final(warnings)@ == old(warnings)@ + crowded(b, queue, queue.len() as int)
        }),
        all_same_but_place(final(placed)@, old(placed)@),
{
    let ghost b = BoardView { cfg: *cfg, design: *design, placed: placed@, nets: nets@ };
    let queue: Vec<usize> = queue_for_room(placed, order);
    let ghost w0 = warnings@;
    let mut accepted: Vec<usize> = Vec::new();
    let mut n: usize = 0;
    proof {
        assert(w0 =~= w0 + crowded(b, queue@, 0));
        assert(accepted@ =~= queue@.take(0));
        lemma_room_upto(b, queue@, 0);
    }
    while n < queue.len()
        invariant
            n <= queue.len(),
            b.cfg == *cfg,
            b.design == *design,
            b.nets == nets@,
            b.wf(),
            anchors_wf(b.placed),
            below(queue@, b.placed.len() as int),
            accepted@ == queue@.take(n as int),
            placed@ == room_upto(b, queue@, n as int),
            all_same_but_place(placed@, b.placed),
            warnings@ == w0 + crowded(b, queue@, n as int),
        decreases queue.len() - n,
    {
        let pi: usize = queue[n];
        let ghost now = with_placed(b, placed@);
        proof {
            lemma_same_but_place(b, placed@);
            assert(same_but_place(placed@[pi as int], b.placed[pi as int]));
            assert(placed@[pi as int].comp == b.placed[pi as int].comp);
            assert(b.placed[pi as int].comp < b.design.comps@.len());
        }
        let ci: usize = placed[pi].comp;
        let ok: bool = make_room(cfg, design, placed, nets, pi, &accepted, Ghost(now));
        if !ok {
            warnings.push(Warning::Overlap { refdes: design.comps[ci].refdes.clone() });
        }
        accepted.push(pi);
        n = n + 1;
        proof {
            lemma_room_upto(b, queue@, n as int);
            assert(accepted@ =~= queue@.take(n as int));
            assert(warnings@ =~= w0 + crowded(b, queue@, n as int));
        }
    }
}

} // verus!
