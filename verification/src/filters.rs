//! Filters at the pins of a part: series parts stand in one column, shunt parts in one row.

use vstd::prelude::*;
use crate::anchors::{
    below, end_on, has_class, holds_class, is_series, net_reaches, nets_of, pins_of, placed_net_indices,
    reaches,
};
use crate::arrange::lemma_parts_refl;
use crate::compose::{
    lemma_same_parts, lemma_same_parts_trans, lemma_same_parts_update, same_part, same_parts,
    spread, spread_of,
};
use crate::config::SchConfig;
use crate::geometry::BBox;
use crate::keepout::{conflicts, in_conflict, move_to, moved, with_moved};
use crate::model::{DesignModel, NetClass, Role, Side};
use crate::order::{includes, list_includes};
use crate::orientation::{lemma_wf_update, with_placed};
use crate::pins::{pad_at, pad_dir, pad_outward, pad_position};
use crate::place::{PlacedComp, SheetNet};
use crate::texts::{Board, BoardView};
use crate::units::{snap_half, spec_snap_half, Iu, Point};

verus! {

// ---------------------------------------------------------------- the parts of a filter

/// A free passive part with two pins at the root.
pub open spec fn passive_at(b: BoardView, root: int, pi: int) -> bool {
    let p = b.placed[pi];
    !p.pinned && p.anchor == Some(root as usize) && p.role == Role::Passive && pins_of(b, pi) == 2
}

/// A series part on the given side of the root.
pub open spec fn series_at(b: BoardView, root: int, side: Side, pi: int) -> bool {
    passive_at(b, root, pi) && b.placed[pi].side == side && is_series(b, pi)
}

/// The series parts among the first `n` members, on one side of the root.
pub open spec fn series_upto(b: BoardView, root: int, side: Side, members: Seq<usize>, n: int) -> Seq<
    usize,
>
    decreases n,
{
    if n <= 0 || n > members.len() {
        Seq::empty()
    } else {
        let before = series_upto(b, root, side, members, n - 1);
        if series_at(b, root, side, members[n - 1] as int) {
            before.push(members[n - 1])
        } else {
            before
        }
    }
}

/// A signal of the list of nets reaches one of the parts.
pub open spec fn shares_signal(b: BoardView, nets: Seq<usize>, parts: Seq<usize>) -> bool {
    exists|i: int, k: int|
        0 <= i < nets.len() && 0 <= k < parts.len() && b.nets[nets[i] as int].class
            == NetClass::Signal && #[trigger] net_reaches(b.nets[nets[i] as int], parts[k] as int)
}

/// A shunt part: it leads a signal of one of the series parts to the ground.
pub open spec fn shunt_at(b: BoardView, root: int, series: Seq<usize>, pi: int) -> bool {
    passive_at(b, root, pi) && has_class(b, nets_of(b, pi), NetClass::Ground) && shares_signal(
        b,
        nets_of(b, pi),
        series,
    )
}

/// The shunt parts among the first `n` members.
pub open spec fn shunts_upto(
    b: BoardView,
    root: int,
    series: Seq<usize>,
    members: Seq<usize>,
    n: int,
) -> Seq<usize>
    decreases n,
{
    if n <= 0 || n > members.len() {
        Seq::empty()
    } else {
        let before = shunts_upto(b, root, series, members, n - 1);
        if shunt_at(b, root, series, members[n - 1] as int) {
            before.push(members[n - 1])
        } else {
            before
        }
    }
}

// ---------------------------------------------------------------- the seat of a series part

/// The pads that the first signal shared with component `m`, from number `k` on, ends at: the
/// one of the part, and the one of the component.
pub open spec fn shared_pads(b: BoardView, nets: Seq<usize>, pi: int, m: int, k: int) -> Option<
    (Seq<char>, Seq<char>),
>
    decreases nets.len() - k,
{
    if k < 0 || k >= nets.len() {
        None
    } else {
        let net = b.nets[nets[k] as int];
        match (end_on(net, pi, 0), end_on(net, m, 0)) {
            (Some(e), Some(f)) => if net.class == NetClass::Signal {
                Some((net.endpoints@[e].pad@, net.endpoints@[f].pad@))
            } else {
                shared_pads(b, nets, pi, m, k + 1)
            },
            _ => shared_pads(b, nets, pi, m, k + 1),
        }
    }
}

/// At the rotation, the pad looks from the side where the part stands towards the root.
pub open spec fn looks_in(design: DesignModel, p: PlacedComp, pad: Seq<char>, rotation: i32) -> bool {
    match pad_outward(design, (PlacedComp { rotation, mirror: None, ..p }), pad) {
        Some(dir) => if p.side == Side::Left {
            dir.x > 0
        } else {
            dir.x < 0
        },
        None => false,
    }
}

/// The part turned so that the pad looks towards the root, where a quarter turn does that.
pub open spec fn turned_in(design: DesignModel, p: PlacedComp, pad: Seq<char>) -> PlacedComp {
    if looks_in(design, p, pad, 0) {
        PlacedComp { rotation: 0, mirror: None, ..p }
    } else if looks_in(design, p, pad, 90) {
        PlacedComp { rotation: 90, mirror: None, ..p }
    } else if looks_in(design, p, pad, 180) {
        PlacedComp { rotation: 180, mirror: None, ..p }
    } else if looks_in(design, p, pad, 270) {
        PlacedComp { rotation: 270, mirror: None, ..p }
    } else {
        p
    }
}

/// A series part turned towards the root, at the height of the pin that it feeds.
#[verifier::opaque]
pub open spec fn seat(b: BoardView, root: int, pi: int) -> PlacedComp {
    let p = b.placed[pi];
    match shared_pads(b, nets_of(b, pi), pi, root, 0) {
        None => p,
        Some((own, there)) => {
            let q = turned_in(b.design, p, own);
            match (
                pad_position(b.design, q, own),
                pad_position(b.design, b.placed[root], there),
            ) {
                (Some(a), Some(c)) => PlacedComp {
                    at: Point { x: q.at.x, y: b.cfg.spec_snap(q.at.y + c.y - a.y) },
                    ..q
                },
                _ => q,
            }
        },
    }
}

/// Distance of the shunt parts in a row.
pub const SHUNT_PITCH: Iu = 127000;

/// Shunt part number `k` of `count`: in a row around the middle between the series parts and the
/// root.
#[verifier::opaque]
pub open spec fn shunt_seat(
    b: BoardView,
    root: int,
    series: Seq<usize>,
    count: int,
    k: int,
    pi: int,
) -> PlacedComp {
    let p = b.placed[pi];
    if series.len() == 0 {
        p
    } else {
        let s = b.placed[series[0] as int];
        let r = b.placed[root].bbox;
        let edge = if s.side == Side::Left {
            r.x1
        } else {
            r.x2
        };
        let x = spec_snap_half(
            s.at.x + edge + spread(k, count, SHUNT_PITCH as int),
            b.cfg.grid_mm as int,
        );
        PlacedComp { at: Point { x, y: p.at.y }, ..p }
    }
}

/// The placement before part number `k` of the list steps into line: it takes its seat first.
pub open spec fn ready(
    b: BoardView,
    root: int,
    series: Seq<usize>,
    list: Seq<usize>,
    k: int,
    column: bool,
) -> BoardView {
    let pi = list[k] as int;
    with_placed(
        b,
        b.placed.update(
            pi,
            if column {
                seat(b, root, pi)
            } else {
                shunt_seat(b, root, series, list.len() as int, k, pi)
            },
        ),
    )
}

/// Lower edge of the root and of the first `n` series parts.
pub open spec fn lowest(b: BoardView, root: int, series: Seq<usize>, n: int) -> Iu
    decreases n,
{
    if n <= 0 || n > series.len() {
        b.placed[root].bbox.y2
    } else {
        let before = lowest(b, root, series, n - 1);
        let here = b.placed[series[n - 1] as int].bbox.y2;
        if here > before {
            here
        } else {
            before
        }
    }
}

/// Where the row of the shunt parts starts: below the root and the series parts.
pub open spec fn row_line(b: BoardView, root: int, series: Seq<usize>) -> Iu {
    b.cfg.spec_snap(lowest(b, root, series, series.len() as int) + 101600)
}

// ---------------------------------------------------------------- standing in line

/// The coordinate that the parts of a line share: x in a column, y in a row.
pub open spec fn across(p: PlacedComp, column: bool) -> Iu {
    if column {
        p.at.x
    } else {
        p.at.y
    }
}

/// The outermost line of the first `n` parts: the lowest coordinate, or the highest.
pub open spec fn outermost(
    placed: Seq<PlacedComp>,
    list: Seq<usize>,
    column: bool,
    low: bool,
    n: int,
) -> Iu
    decreases n,
{
    if n <= 1 || n > list.len() {
        across(placed[list[0] as int], column)
    } else {
        let before = outermost(placed, list, column, low, n - 1);
        let here = across(placed[list[n - 1] as int], column);
        if (low && here < before) || (!low && here > before) {
            here
        } else {
            before
        }
    }
}

/// Number of places that a part tries on its line.
pub const LINE_PLACES: usize = 17;

/// Place `k` of a part on its line: where it is, then to either side, further and further.
#[verifier::opaque]
pub open spec fn line_spot(cfg: SchConfig, p: PlacedComp, line: Iu, column: bool, k: int) -> Point {
    let far = if k % 2 == 1 {
        -((k + 1) / 2)
    } else {
        k / 2
    };
    if column {
        Point { x: line, y: cfg.spec_snap(p.at.y + far * 25400) }
    } else {
        Point { x: cfg.spec_snap(p.at.x + far * 25400), y: line }
    }
}

/// The first place on the line, from `k` on, where the part takes nobody's room.
#[verifier::opaque]
pub open spec fn free_on_line(
    b: BoardView,
    pi: int,
    others: Seq<usize>,
    line: Iu,
    column: bool,
    k: int,
) -> Option<int>
    decreases LINE_PLACES - k,
{
    if k < 0 || k >= LINE_PLACES {
        None
    } else if !in_conflict(
        with_moved(b, pi, line_spot(b.cfg, b.placed[pi], line, column, k)),
        pi,
        others,
    ) {
        Some(k)
    } else {
        free_on_line(b, pi, others, line, column, k + 1)
    }
}

/// The placement with one part on the line, where it finds a place there.
#[verifier::opaque]
pub open spec fn stepped(
    b: BoardView,
    pi: int,
    others: Seq<usize>,
    line: Iu,
    column: bool,
) -> Option<Seq<PlacedComp>> {
    match free_on_line(b, pi, others, line, column, 0) {
        None => None,
        Some(k) => Some(
            b.placed.update(pi, moved(b, pi, line_spot(b.cfg, b.placed[pi], line, column, k))),
        ),
    }
}

/// Those of the first `n` members that do not wait for their turn.
pub open spec fn standing(members: Seq<usize>, waiting: Seq<usize>, n: int) -> Seq<usize>
    decreases n,
{
    if n <= 0 || n > members.len() {
        Seq::empty()
    } else if includes(waiting, members[n - 1] as int) {
        standing(members, waiting, n - 1)
    } else {
        standing(members, waiting, n - 1).push(members[n - 1])
    }
}

/// The first `n` parts of the list on the line, where each finds a place there.
pub open spec fn lined_upto(
    b: BoardView,
    root: int,
    series: Seq<usize>,
    list: Seq<usize>,
    members: Seq<usize>,
    line: Iu,
    column: bool,
    n: int,
) -> Option<Seq<PlacedComp>>
    decreases n,
{
    if n <= 0 || n > list.len() {
        Some(b.placed)
    } else {
        match lined_upto(b, root, series, list, members, line, column, n - 1) {
            None => None,
            Some(placed) => stepped(
                ready(with_placed(b, placed), root, series, list, n - 1, column),
                list[n - 1] as int,
                standing(members, list.skip(n - 1), members.len() as int),
                line,
                column,
            ),
        }
    }
}

/// Number of lines that are tried, from the outermost part outward.
pub const LINES: usize = 9;

/// Line `j`, counted outward.
#[verifier::opaque]
pub open spec fn line_out(cfg: SchConfig, line: Iu, low: bool, j: int) -> Iu {
    cfg.spec_snap(
        line + if low {
            -j * 25400
        } else {
            j * 25400
        },
    )
}

/// The parts of the list on the first line, from line `j` on, where each finds a place; as they
/// were, where there is none.
pub open spec fn lined_from(
    b: BoardView,
    root: int,
    series: Seq<usize>,
    list: Seq<usize>,
    members: Seq<usize>,
    line: Iu,
    column: bool,
    low: bool,
    j: int,
) -> Seq<PlacedComp>
    decreases LINES - j,
{
    if j < 0 || j >= LINES {
        b.placed
    } else {
        let here = line_out(b.cfg, line, low, j);
        match lined_upto(b, root, series, list, members, here, column, list.len() as int) {
            Some(placed) => placed,
            None => lined_from(b, root, series, list, members, line, column, low, j + 1),
        }
    }
}

/// The series parts of one side in a column, at their outermost place or beyond it; as they were,
/// where they find no room.
#[verifier::opaque]
pub open spec fn columned(
    b: BoardView,
    root: int,
    series: Seq<usize>,
    list: Seq<usize>,
    members: Seq<usize>,
    low: bool,
) -> Seq<PlacedComp> {
    if list.len() < 2 {
        b.placed
    } else {
        let line = outermost(b.placed, list, true, low, list.len() as int);
        lined_from(b, root, series, list, members, line, true, low, 0)
    }
}

/// The shunt parts in a row below the root and the series parts; as they were, where they find no
/// room.
#[verifier::opaque]
pub open spec fn rowed(
    b: BoardView,
    root: int,
    series: Seq<usize>,
    list: Seq<usize>,
    members: Seq<usize>,
) -> Seq<PlacedComp> {
    if list.len() < 2 || series.len() < 2 {
        b.placed
    } else {
        let line = row_line(b, root, series);
        lined_from(b, root, series, list, members, line, false, false, 0)
    }
}

/// The filters at the root of a group in line: series parts in a column on either side of the
/// root, shunt parts in a row.
#[verifier::opaque]
pub open spec fn filters_lined(b: BoardView, root: int, members: Seq<usize>) -> Seq<PlacedComp> {
    let n = members.len() as int;
    let left = series_upto(b, root, Side::Left, members, n);
    let right = series_upto(b, root, Side::Right, members, n);
    let series = left + right;
    let shunts = shunts_upto(b, root, series, members, n);
    let p1 = columned(b, root, series, left, members, true);
    let p2 = columned(with_placed(b, p1), root, series, right, members, false);
    rowed(with_placed(b, p2), root, series, shunts, members)
}

// ---------------------------------------------------------------- laws

proof fn lemma_lined_upto(
    b: BoardView,
    root: int,
    series: Seq<usize>,
    list: Seq<usize>,
    members: Seq<usize>,
    line: Iu,
    column: bool,
    n: int,
)
    requires
        below(list, b.placed.len() as int),
        0 <= n <= list.len(),
    ensures
        lined_upto(b, root, series, list, members, line, column, n) matches Some(p) ==> p.len()
            == b.placed.len() && forall|i: int|
            0 <= i < n ==> across(p[#[trigger] list[i] as int], column) == line,
    decreases n,
{
    reveal(line_spot);
    reveal(stepped);
    if n > 0 {
        lemma_lined_upto(b, root, series, list, members, line, column, n - 1);
        match lined_upto(b, root, series, list, members, line, column, n) {
            Some(p) => {
                let before = lined_upto(b, root, series, list, members, line, column, n - 1)->0;
                assert forall|i: int| 0 <= i < n implies across(
                    p[#[trigger] list[i] as int],
                    column,
                ) == line by {
                    if list[i] != list[n - 1] {
                        assert(p[list[i] as int] == before[list[i] as int]);
                    }
                }
            },
            None => {},
        }
    }
}

proof fn lemma_lined_from(
    b: BoardView,
    root: int,
    series: Seq<usize>,
    list: Seq<usize>,
    members: Seq<usize>,
    line: Iu,
    column: bool,
    low: bool,
    j: int,
)
    requires
        below(list, b.placed.len() as int),
    ensures
        ({
            let p = lined_from(b, root, series, list, members, line, column, low, j);
            p == b.placed || on_one_line(p, list, column)
        }),
    decreases LINES - j,
{
    if 0 <= j < LINES {
        lemma_lined_upto(
            b,
            root,
            series,
            list,
            members,
            line_out(b.cfg, line, low, j),
            column,
            list.len() as int,
        );
        lemma_lined_from(b, root, series, list, members, line, column, low, j + 1);
    }
}

/// The parts of the list stand on one line.
pub open spec fn on_one_line(p: Seq<PlacedComp>, list: Seq<usize>, column: bool) -> bool {
    forall|i: int, k: int|
        0 <= i < list.len() && 0 <= k < list.len() ==> across(
            p[#[trigger] list[i] as int],
            column,
        ) == across(p[#[trigger] list[k] as int], column)
}

/// Series parts of one side end up in one column, and shunt parts in one row, or none of them
/// moves.
pub proof fn law_filters_stand_in_line(
    b: BoardView,
    root: int,
    series: Seq<usize>,
    list: Seq<usize>,
    members: Seq<usize>,
    low: bool,
)
    requires
        below(list, b.placed.len() as int),
    ensures
        ({
            let p = columned(b, root, series, list, members, low);
            p == b.placed || on_one_line(p, list, true)
        }),
        ({
            let p = rowed(b, root, series, list, members);
            p == b.placed || on_one_line(p, list, false)
        }),
{
    reveal(columned);
    reveal(rowed);
    let line = outermost(b.placed, list, true, low, list.len() as int);
    lemma_lined_from(b, root, series, list, members, line, true, low, 0);
    lemma_lined_from(b, root, series, list, members, row_line(b, root, series), false, false, 0);
}

// ---------------------------------------------------------------- lining up

fn find_shared(b: &Board, nets: &Vec<usize>, parts: &Vec<usize>) -> (r: bool)
    requires
        below(nets@, b.nets@.len() as int),
    ensures
        r == shares_signal(b@, nets@, parts@),
{
    let mut i: usize = 0;
    while i < nets.len()
        invariant
            i <= nets.len(),
            below(nets@, b.nets@.len() as int),
            forall|a: int, k: int|
                0 <= a < i && 0 <= k < parts@.len() && b@.nets[nets@[a] as int].class
                    == NetClass::Signal ==> !#[trigger] net_reaches(
                    b@.nets[nets@[a] as int],
                    parts@[k] as int,
                ),
        decreases nets.len() - i,
    {
        let net: &SheetNet = &b.nets[nets[i]];
        if net.class == NetClass::Signal {
            let mut k: usize = 0;
            while k < parts.len()
                invariant
                    k <= parts.len(),
                    i < nets.len(),
                    *net == b@.nets[nets@[i as int] as int],
                    net.class == NetClass::Signal,
                    forall|c: int|
                        0 <= c < k ==> !#[trigger] net_reaches(*net, parts@[c] as int),
                decreases parts.len() - k,
            {
                if reaches(net, parts[k]) {
                    return true;
                }
                k = k + 1;
            }
        }
        i = i + 1;
    }
    false
}

fn is_passive_at(b: &Board, root: usize, pi: usize) -> (r: bool)
    requires
        b.wf(),
        pi < b.placed@.len(),
    ensures
        r == passive_at(b@, root as int, pi as int),
{
    let p: PlacedComp = b.placed[pi];
    let here: bool = match p.anchor {
        Some(a) => a == root,
        None => false,
    };
    !p.pinned && here && p.role == Role::Passive && b.design.comps[p.comp].visible_pins == 2
}

fn list_series(b: &Board, root: usize, side: Side, members: &Vec<usize>) -> (r: Vec<usize>)
    requires
        b.wf(),
        below(members@, b.placed@.len() as int),
    ensures
        r@ == series_upto(b@, root as int, side, members@, members@.len() as int),
        below(r@, b.placed@.len() as int),
{
    let mut out: Vec<usize> = Vec::new();
    let mut n: usize = 0;
    while n < members.len()
        invariant
            n <= members.len(),
            b.wf(),
            below(members@, b.placed@.len() as int),
            out@ == series_upto(b@, root as int, side, members@, n as int),
            below(out@, b.placed@.len() as int),
        decreases members.len() - n,
    {
        let pi: usize = members[n];
        if is_passive_at(b, root, pi) && b.placed[pi].side == side {
            let nets: Vec<usize> = placed_net_indices(b, pi);
            if !holds_class(b, &nets, NetClass::Ground) && !holds_class(
                b,
                &nets,
                NetClass::Power,
            ) {
                out.push(pi);
            }
        }
        n = n + 1;
    }
    out
}

fn list_shunts(b: &Board, root: usize, series: &Vec<usize>, members: &Vec<usize>) -> (r: Vec<usize>)
    requires
        b.wf(),
        below(members@, b.placed@.len() as int),
    ensures
        r@ == shunts_upto(b@, root as int, series@, members@, members@.len() as int),
        below(r@, b.placed@.len() as int),
{
    let mut out: Vec<usize> = Vec::new();
    let mut n: usize = 0;
    while n < members.len()
        invariant
            n <= members.len(),
            b.wf(),
            below(members@, b.placed@.len() as int),
            out@ == shunts_upto(b@, root as int, series@, members@, n as int),
            below(out@, b.placed@.len() as int),
        decreases members.len() - n,
    {
        let pi: usize = members[n];
        if is_passive_at(b, root, pi) {
            let nets: Vec<usize> = placed_net_indices(b, pi);
            if holds_class(b, &nets, NetClass::Ground) && find_shared(b, &nets, series) {
                out.push(pi);
            }
        }
        n = n + 1;
    }
    out
}

fn find_outermost(placed: &[PlacedComp], list: &Vec<usize>, column: bool, low: bool) -> (r: Iu)
    requires
        list@.len() > 0,
        below(list@, placed@.len() as int),
    ensures
        r == outermost(placed@, list@, column, low, list@.len() as int),
{
    let first: PlacedComp = placed[list[0]];
    let mut out: Iu = if column {
        first.at.x
    } else {
        first.at.y
    };
    let mut n: usize = 1;
    while n < list.len()
        invariant
            1 <= n <= list.len(),
            below(list@, placed@.len() as int),
            out == outermost(placed@, list@, column, low, n as int),
        decreases list.len() - n,
    {
        let p: PlacedComp = placed[list[n]];
        let here: Iu = if column {
            p.at.x
        } else {
            p.at.y
        };
        if (low && here < out) || (!low && here > out) {
            out = here;
        }
        n = n + 1;
    }
    out
}

fn spot_on_line(cfg: &SchConfig, p: &PlacedComp, line: Iu, column: bool, k: usize) -> (r: Point)
    requires
        cfg.wf(),
        k < LINE_PLACES,
    ensures
        r == line_spot(*cfg, *p, line, column, k as int),
{
    proof {
        reveal(line_spot);
    }
    let half: i64 = (k / 2) as i64;
    let far: i64 = if k % 2 == 1 {
        -1 - half
    } else {
        half
    };
    proof {
        assert(-50 <= far <= 50);
    }
    if column {
        Point { x: line, y: cfg.snap(p.at.y as i64 + far * 25400) }
    } else {
        Point { x: cfg.snap(p.at.x as i64 + far * 25400), y: line }
    }
}

fn find_shared_pads<'a>(b: &Board<'a>, nets: &Vec<usize>, pi: usize, m: usize) -> (r: Option<
    (&'a String, &'a String),
>)
    requires
        below(nets@, b.nets@.len() as int),
    ensures
        r is Some == (shared_pads(b@, nets@, pi as int, m as int, 0) is Some),
        r matches Some((own, there)) ==> shared_pads(b@, nets@, pi as int, m as int, 0) == Some(
            (own@, there@),
        ),
{
    let mut k: usize = 0;
    while k < nets.len()
        invariant
            k <= nets.len(),
            below(nets@, b.nets@.len() as int),
            shared_pads(b@, nets@, pi as int, m as int, 0) == shared_pads(
                b@,
                nets@,
                pi as int,
                m as int,
                k as int,
            ),
        decreases nets.len() - k,
    {
        let net: &'a SheetNet = &b.nets[nets[k]];
        if net.class == NetClass::Signal {
            match (first_end(net, pi), first_end(net, m)) {
                (Some(e), Some(f)) => {
                    return Some((&net.endpoints[e].pad, &net.endpoints[f].pad));
                },
                _ => {},
            }
        }
        k = k + 1;
    }
    None
}

fn first_end(net: &SheetNet, m: usize) -> (r: Option<usize>)
    ensures
        r is Some == (end_on(*net, m as int, 0) is Some),
        r matches Some(e) ==> end_on(*net, m as int, 0) == Some(e as int) && e
            < net.endpoints@.len(),
{
    let mut e: usize = 0;
    while e < net.endpoints.len()
        invariant
            e <= net.endpoints.len(),
            end_on(*net, m as int, 0) == end_on(*net, m as int, e as int),
        decreases net.endpoints.len() - e,
    {
        if net.endpoints[e].placed == m {
            return Some(e);
        }
        e = e + 1;
    }
    None
}

fn is_looking_in(design: &DesignModel, p: &PlacedComp, pad: &String, rotation: i32) -> (r: bool)
    requires
        p.comp < design.comps@.len(),
    ensures
        r == looks_in(*design, *p, pad@, rotation),
{
    let t: PlacedComp = PlacedComp { rotation, mirror: None, ..*p };
    match pad_dir(design, &t, pad) {
        Some(dir) => if p.side == Side::Left {
            dir.x > 0
        } else {
            dir.x < 0
        },
        None => false,
    }
}

/// Turn a part so that the pad looks towards the root, where a quarter turn does that.
pub fn turn_in(design: &DesignModel, p: &PlacedComp, pad: &String) -> (r: PlacedComp)
    requires
        p.comp < design.comps@.len(),
    ensures
        r == turned_in(*design, *p, pad@),
{
    if is_looking_in(design, p, pad, 0) {
        PlacedComp { rotation: 0, mirror: None, ..*p }
    } else if is_looking_in(design, p, pad, 90) {
        PlacedComp { rotation: 90, mirror: None, ..*p }
    } else if is_looking_in(design, p, pad, 180) {
        PlacedComp { rotation: 180, mirror: None, ..*p }
    } else if is_looking_in(design, p, pad, 270) {
        PlacedComp { rotation: 270, mirror: None, ..*p }
    } else {
        *p
    }
}

fn find_seat(b: &Board, root: usize, pi: usize) -> (r: PlacedComp)
    requires
        b.wf(),
        root < b.placed@.len(),
        pi < b.placed@.len(),
    ensures
        r == seat(b@, root as int, pi as int),
        same_part(r, b.placed@[pi as int]),
{
    proof {
        reveal(seat);
    }
    let p: PlacedComp = b.placed[pi];
    let nets: Vec<usize> = placed_net_indices(b, pi);
    match find_shared_pads(b, &nets, pi, root) {
        None => p,
        Some((own, there)) => {
            let q: PlacedComp = turn_in(b.design, &p, own);
            match (pad_at(b.design, &q, own), pad_at(b.design, &b.placed[root], there)) {
                (Some(a), Some(c)) => PlacedComp {
                    at: Point {
                        x: q.at.x,
                        y: b.cfg.snap(q.at.y as i64 + c.y as i64 - a.y as i64),
                    },
                    ..q
                },
                _ => q,
            }
        },
    }
}

fn find_shunt_seat(b: &Board, root: usize, series: &Vec<usize>, count: usize, k: usize, pi: usize) -> (r:
    PlacedComp)
    requires
        b.wf(),
        root < b.placed@.len(),
        below(series@, b.placed@.len() as int),
        pi < b.placed@.len(),
    ensures
        r == shunt_seat(b@, root as int, series@, count as int, k as int, pi as int),
        same_part(r, b.placed@[pi as int]),
{
    proof {
        reveal(shunt_seat);
    }
    let p: PlacedComp = b.placed[pi];
    if series.len() == 0 {
        return p;
    }
    let s: PlacedComp = b.placed[series[0]];
    let r: BBox = b.placed[root].bbox;
    let edge: Iu = if s.side == Side::Left {
        r.x1
    } else {
        r.x2
    };
    let off: Iu = spread_of(k, count, SHUNT_PITCH);
    let x: Iu = snap_half(s.at.x as i64 + edge as i64 + off as i64, b.cfg.grid_mm);
    PlacedComp { at: Point { x, y: p.at.y }, ..p }
}

fn find_row_line(b: &Board, root: usize, series: &Vec<usize>) -> (r: Iu)
    requires
        b.wf(),
        root < b.placed@.len(),
        below(series@, b.placed@.len() as int),
    ensures
        r == row_line(b@, root as int, series@),
{
    let mut low: Iu = b.placed[root].bbox.y2;
    let mut n: usize = 0;
    while n < series.len()
        invariant
            n <= series.len(),
            root < b.placed@.len(),
            below(series@, b.placed@.len() as int),
            low == lowest(b@, root as int, series@, n as int),
        decreases series.len() - n,
    {
        let here: Iu = b.placed[series[n]].bbox.y2;
        if here > low {
            low = here;
        }
        n = n + 1;
    }
    b.cfg.snap(low as i64 + 101600)
}

/// Move one part onto the line; `false` where no place is free.
fn step_in(
    cfg: &SchConfig,
    design: &DesignModel,
    placed: &mut Vec<PlacedComp>,
    nets: &[SheetNet],
    pi: usize,
    others: &Vec<usize>,
    line: Iu,
    column: bool,
    Ghost(b): Ghost<BoardView>,
) -> (ok: bool)
    requires
        b == (BoardView { cfg: *cfg, design: *design, placed: old(placed)@, nets: nets@ }),
        b.wf(),
        pi < b.placed.len(),
        below(others@, b.placed.len() as int),
    ensures
        ok == (stepped(b, pi as int, others@, line, column) is Some),
        ok ==> stepped(b, pi as int, others@, line, column) == Some(final(placed)@),
        ok ==> final(placed)@ == b.placed.update(pi as int, final(placed)@[pi as int]),
        ok ==> same_part(final(placed)@[pi as int], b.placed[pi as int]),
{
    let p: PlacedComp = placed[pi];
    let mut k: usize = 0;
    proof {
        assert(b.placed.update(pi as int, p) =~= b.placed);
    }
    while k < LINE_PLACES
        invariant
            k <= LINE_PLACES,
            b.cfg == *cfg,
            b.design == *design,
            b.nets == nets@,
            b.wf(),
            pi < b.placed.len(),
            p == b.placed[pi as int],
            below(others@, b.placed.len() as int),
            placed@ == b.placed.update(pi as int, placed@[pi as int]),
            free_on_line(b, pi as int, others@, line, column, 0) == free_on_line(
                b,
                pi as int,
                others@,
                line,
                column,
                k as int,
            ),
        decreases LINE_PLACES - k,
    {
        let at: Point = spot_on_line(cfg, &p, line, column, k);
        let q: PlacedComp = move_to(cfg, design, &p, at);
        proof {
            lemma_wf_update(b, pi as int, q);
        }
        placed.set(pi, q);
        let board: Board = Board { cfg, design, placed: &*placed, nets };
        proof {
            assert(placed@ =~= b.placed.update(pi as int, q));
            assert(board@ == with_moved(b, pi as int, at));
            lemma_free_step(b, pi as int, others@, line, column, k as int);
        }
        if !conflicts(&board, pi, others) {
            proof {
                lemma_stepped(b, pi as int, others@, line, column, k as int);
            }
            return true;
        }
        k = k + 1;
    }
    proof {
        reveal(free_on_line);
        reveal(stepped);
    }
    false
}

proof fn lemma_free_step(
    b: BoardView,
    pi: int,
    others: Seq<usize>,
    line: Iu,
    column: bool,
    k: int,
)
    requires
        0 <= k < LINE_PLACES,
    ensures
        ({
            let at = line_spot(b.cfg, b.placed[pi], line, column, k);
            free_on_line(b, pi, others, line, column, k) == if in_conflict(
                with_moved(b, pi, at),
                pi,
                others,
            ) {
                free_on_line(b, pi, others, line, column, k + 1)
            } else {
                Some(k)
            }
        }),
{
    reveal(free_on_line);
}

proof fn lemma_stepped(b: BoardView, pi: int, others: Seq<usize>, line: Iu, column: bool, k: int)
    requires
        free_on_line(b, pi, others, line, column, 0) == Some(k),
    ensures
        stepped(b, pi, others, line, column) == Some(
            with_moved(b, pi, line_spot(b.cfg, b.placed[pi], line, column, k)).placed,
        ),
{
    reveal(stepped);
}

fn copy_placed(v: &[PlacedComp]) -> (r: Vec<PlacedComp>)
    ensures
        r@ == v@,
{
    let mut out: Vec<PlacedComp> = Vec::new();
    let mut n: usize = 0;
    while n < v.len()
        invariant
            n <= v.len(),
            out@ == v@.take(n as int),
        decreases v.len() - n,
    {
        out.push(v[n]);
        n = n + 1;
        proof {
            assert(out@ =~= v@.take(n as int));
        }
    }
    proof {
        assert(v@.take(v@.len() as int) =~= v@);
    }
    out
}

fn list_standing(members: &Vec<usize>, list: &Vec<usize>, from: usize, Ghost(top): Ghost<int>) -> (r:
    Vec<usize>)
    requires
        from <= list@.len(),
        below(members@, top),
    ensures
        r@ == standing(members@, list@.skip(from as int), members@.len() as int),
        below(r@, top),
{
    let mut waiting: Vec<usize> = Vec::new();
    let mut n: usize = from;
    while n < list.len()
        invariant
            from <= n <= list.len(),
            waiting@ == list@.subrange(from as int, n as int),
        decreases list.len() - n,
    {
        waiting.push(list[n]);
        n = n + 1;
        proof {
            assert(waiting@ =~= list@.subrange(from as int, n as int));
        }
    }
    proof {
        assert(waiting@ =~= list@.skip(from as int));
    }
    let mut out: Vec<usize> = Vec::new();
    let mut n: usize = 0;
    while n < members.len()
        invariant
            n <= members.len(),
            below(members@, top),
            out@ == standing(members@, waiting@, n as int),
            below(out@, top),
        decreases members.len() - n,
    {
        if !list_includes(&waiting, members[n]) {
            out.push(members[n]);
        }
        n = n + 1;
    }
    out
}

fn line_beyond(cfg: &SchConfig, line: Iu, low: bool, j: usize) -> (r: Iu)
    requires
        cfg.wf(),
        j < LINES,
    ensures
        r == line_out(*cfg, line, low, j as int),
{
    proof {
        reveal(line_out);
    }
    let far: i64 = j as i64 * 25400;
    if low {
        cfg.snap(line as i64 - far)
    } else {
        cfg.snap(line as i64 + far)
    }
}

/// The parts of the list on the line, where each finds a place there.
fn try_line(
    b: &Board,
    root: usize,
    series: &Vec<usize>,
    list: &Vec<usize>,
    members: &Vec<usize>,
    line: Iu,
    column: bool,
) -> (r: Option<Vec<PlacedComp>>)
    requires
        b.wf(),
        root < b.placed@.len(),
        below(series@, b.placed@.len() as int),
        below(list@, b.placed@.len() as int),
        below(members@, b.placed@.len() as int),
    ensures
        r is Some == (lined_upto(
            b@,
            root as int,
            series@,
            list@,
            members@,
            line,
            column,
            list@.len() as int,
        ) is Some),
        r matches Some(v) ==> lined_upto(
            b@,
            root as int,
            series@,
            list@,
            members@,
            line,
            column,
            list@.len() as int,
        ) == Some(v@) && same_parts(v@, b.placed@),
{
    let ghost bv = b@;
    proof {
        lemma_parts_refl(b.placed@);
    }
    let mut work: Vec<PlacedComp> = copy_placed(b.placed);
    let mut n: usize = 0;
    while n < list.len()
        invariant
            n <= list.len(),
            bv == b@,
            bv.wf(),
            root < bv.placed.len(),
            below(series@, bv.placed.len() as int),
            below(list@, bv.placed.len() as int),
            below(members@, bv.placed.len() as int),
            same_parts(work@, bv.placed),
            lined_upto(bv, root as int, series@, list@, members@, line, column, n as int) == Some(work@),
        decreases list.len() - n,
    {
        let pi: usize = list[n];
        let ghost now = with_placed(bv, work@);
        proof {
            lemma_same_parts(bv, work@);
        }
        let others: Vec<usize> = list_standing(members, list, n, Ghost(work@.len() as int));
        let board: Board = Board { cfg: b.cfg, design: b.design, placed: &work, nets: b.nets };
        proof {
            assert(board@ == now);
        }
        let q: PlacedComp = if column {
            find_seat(&board, root, pi)
        } else {
            find_shunt_seat(&board, root, series, list.len(), n, pi)
        };
        proof {
            lemma_same_parts_update(work@, bv.placed, pi as int, q);
        }
        work.set(pi, q);
        let ghost w0 = work@;
        let ghost set = with_placed(bv, w0);
        proof {
            assert(set == ready(now, root as int, series@, list@, n as int, column));
            lemma_same_parts(bv, w0);
        }
        if !step_in(
            b.cfg,
            b.design,
            &mut work,
            b.nets,
            pi,
            &others,
            line,
            column,
            Ghost(set),
        ) {
            proof {
                assert(lined_upto(bv, root as int, series@, list@, members@, line, column, n + 1) is None);
                lemma_stays_none(
                    bv,
                    root as int,
                    series@,
                    list@,
                    members@,
                    line,
                    column,
                    n + 1,
                    list@.len() as int,
                );
            }
            return None;
        }
        proof {
            lemma_same_parts_update(w0, bv.placed, pi as int, work@[pi as int]);
            assert(work@ =~= w0.update(pi as int, work@[pi as int]));
        }
        n = n + 1;
    }
    Some(work)
}

/// The parts of the list on the first line, counted outward, where each finds a place.
fn find_line(
    b: &Board,
    root: usize,
    series: &Vec<usize>,
    list: &Vec<usize>,
    members: &Vec<usize>,
    line: Iu,
    column: bool,
    low: bool,
) -> (r: Option<Vec<PlacedComp>>)
    requires
        b.wf(),
        root < b.placed@.len(),
        below(series@, b.placed@.len() as int),
        below(list@, b.placed@.len() as int),
        below(members@, b.placed@.len() as int),
    ensures
        ({
            let p = lined_from(
                b@,
                root as int,
                series@,
                list@,
                members@,
                line,
                column,
                low,
                0,
            );
            match r {
                Some(v) => v@ == p && same_parts(v@, b.placed@),
                None => p == b.placed@,
            }
        }),
{
    let mut j: usize = 0;
    while j < LINES
        invariant
            j <= LINES,
            b.wf(),
            root < b.placed@.len(),
            below(series@, b.placed@.len() as int),
            below(list@, b.placed@.len() as int),
            below(members@, b.placed@.len() as int),
            lined_from(b@, root as int, series@, list@, members@, line, column, low, 0)
                == lined_from(
                b@,
                root as int,
                series@,
                list@,
                members@,
                line,
                column,
                low,
                j as int,
            ),
        decreases LINES - j,
    {
        let here: Iu = line_beyond(b.cfg, line, low, j);
        match try_line(b, root, series, list, members, here, column) {
            Some(work) => {
                return Some(work);
            },
            None => {},
        }
        j = j + 1;
    }
    None
}

/// Put the series parts of the list in a column, where each finds a place there.
pub fn line_column(
    b: &Board,
    root: usize,
    series: &Vec<usize>,
    list: &Vec<usize>,
    members: &Vec<usize>,
    low: bool,
) -> (r: Vec<PlacedComp>)
    requires
        b.wf(),
        root < b.placed@.len(),
        below(series@, b.placed@.len() as int),
        below(list@, b.placed@.len() as int),
        below(members@, b.placed@.len() as int),
    ensures
        r@ == columned(b@, root as int, series@, list@, members@, low),
        same_parts(r@, b.placed@),
{
    proof {
        reveal(columned);
        lemma_parts_refl(b.placed@);
    }
    if list.len() < 2 {
        return copy_placed(b.placed);
    }
    let line: Iu = find_outermost(b.placed, list, true, low);
    match find_line(b, root, series, list, members, line, true, low) {
        Some(v) => v,
        None => copy_placed(b.placed),
    }
}

/// Put the shunt parts of the list in a row, where each finds a place there.
pub fn line_row(
    b: &Board,
    root: usize,
    series: &Vec<usize>,
    list: &Vec<usize>,
    members: &Vec<usize>,
) -> (r: Vec<PlacedComp>)
    requires
        b.wf(),
        root < b.placed@.len(),
        below(series@, b.placed@.len() as int),
        below(list@, b.placed@.len() as int),
        below(members@, b.placed@.len() as int),
    ensures
        r@ == rowed(b@, root as int, series@, list@, members@),
        same_parts(r@, b.placed@),
{
    proof {
        reveal(rowed);
        lemma_parts_refl(b.placed@);
    }
    if list.len() < 2 || series.len() < 2 {
        return copy_placed(b.placed);
    }
    let line: Iu = find_row_line(b, root, series);
    match find_line(b, root, series, list, members, line, false, false) {
        Some(v) => v,
        None => copy_placed(b.placed),
    }
}

proof fn lemma_stays_none(
    b: BoardView,
    root: int,
    series: Seq<usize>,
    list: Seq<usize>,
    members: Seq<usize>,
    line: Iu,
    column: bool,
    n: int,
    m: int,
)
    requires
        0 < n <= m <= list.len(),
        lined_upto(b, root, series, list, members, line, column, n) is None,
    ensures
        lined_upto(b, root, series, list, members, line, column, m) is None,
    decreases m,
{
    if n < m {
        lemma_stays_none(b, root, series, list, members, line, column, n, m - 1);
    }
}

/// Line up the filters at the root of a group.
pub fn line_filters(
    cfg: &SchConfig,
    design: &DesignModel,
    placed: &mut Vec<PlacedComp>,
    nets: &[SheetNet],
    root: usize,
    members: &Vec<usize>,
)
    requires
        (BoardView { cfg: *cfg, design: *design, placed: old(placed)@, nets: nets@ }).wf(),
        root < old(placed)@.len(),
        below(members@, old(placed)@.len() as int),
    ensures
        final(placed)@ == filters_lined(
            (BoardView { cfg: *cfg, design: *design, placed: old(placed)@, nets: nets@ }),
            root as int,
            members@,
        ),
        same_parts(final(placed)@, old(placed)@),
{
    let ghost b = BoardView { cfg: *cfg, design: *design, placed: placed@, nets: nets@ };
    let board: Board = Board { cfg, design, placed: &*placed, nets };
    proof {
        reveal(filters_lined);
        assert(board@ == b);
    }
    let left: Vec<usize> = list_series(&board, root, Side::Left, members);
    let right: Vec<usize> = list_series(&board, root, Side::Right, members);
    let series: Vec<usize> = both(&left, &right, Ghost(placed@.len() as int));
    let shunts: Vec<usize> = list_shunts(&board, root, &series, members);
    let p1: Vec<PlacedComp> = line_column(&board, root, &series, &left, members, true);
    proof {
        lemma_same_parts(b, p1@);
    }
    let board: Board = Board { cfg, design, placed: &p1, nets };
    proof {
        assert(board@ == with_placed(b, p1@));
    }
    let p2: Vec<PlacedComp> = line_column(&board, root, &series, &right, members, false);
    proof {
        lemma_same_parts_trans(p2@, p1@, b.placed);
        lemma_same_parts(b, p2@);
    }
    let board: Board = Board { cfg, design, placed: &p2, nets };
    proof {
        assert(board@ == with_placed(b, p2@));
    }
    let p3: Vec<PlacedComp> = line_row(&board, root, &series, &shunts, members);
    proof {
        lemma_same_parts_trans(p3@, p2@, b.placed);
    }
    *placed = p3;
}

fn both(a: &Vec<usize>, c: &Vec<usize>, Ghost(top): Ghost<int>) -> (r: Vec<usize>)
    requires
        below(a@, top),
        below(c@, top),
    ensures
        r@ == a@ + c@,
        below(r@, top),
{
    let mut out: Vec<usize> = Vec::new();
    let mut n: usize = 0;
    while n < a.len()
        invariant
            n <= a.len(),
            below(a@, top),
            out@ =~= a@.take(n as int),
        decreases a.len() - n,
    {
        out.push(a[n]);
        n = n + 1;
    }
    let mut n: usize = 0;
    proof {
        assert(out@ =~= a@ + c@.take(0));
    }
    while n < c.len()
        invariant
            n <= c.len(),
            below(c@, top),
            out@ =~= a@ + c@.take(n as int),
        decreases c.len() - n,
    {
        out.push(c[n]);
        n = n + 1;
    }
    proof {
        assert(out@ =~= a@ + c@);
    }
    out
}

} // verus!
