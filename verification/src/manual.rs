//! What was placed by hand stays in place against everything else.

use vstd::prelude::*;
use crate::anchors::{all_anchored, below, grouped};
use crate::arrange::{
    composed, group_laid, others_of, posed_all, sized_upto, turned_upto,
};
use crate::band::{band_placed, in_band, row_placed, row_start};
use crate::columns::{
    category_order, column_placed, columns_of, columns_placed, cut_upto, flow_list, flow_placed,
    groups_in, group_after, in_columns, members_shifted, ranks, wrap_height, GroupView,
};
use crate::compose::{
    at_origin, placed_after, row_step, rows_after, rows_end, satellites_placed, Rows,
};
use crate::config::SchConfig;
use crate::filters::{
    columned, filters_lined, line_out, lined_from, lined_upto, outermost, row_line, rowed,
    series_upto, shunts_upto, stepped, LINES,
};
use crate::keepout::{by_hand, room_queue, room_upto, with_moved};
use crate::model::Side;
use crate::order::{lemma_sorted_items, sorted_by};
use crate::orientation::{law_orientation_keeps, oriented, with_placed};
use crate::place::{
    all_sized, arranged, flow_upto, free_members, held_members, laid_out, page_shift, settled,
    PlacedComp,
};
use crate::sheets::SheetPort;
use crate::texts::BoardView;
use crate::units::{sat, Point};

verus! {

/// The list holds some of `n` components, but not this one.
pub open spec fn off(list: Seq<usize>, i: int, n: int) -> bool {
    forall|k: int| 0 <= k < list.len() ==> #[trigger] list[k] != i && list[k] < n
}

proof fn lemma_rows_stay(b: BoardView, all: Seq<usize>, hand: bool, s: Rows, idle: nat, i: int)
    requires
        off(s.waiting, i, s.placed.len() as int),
        0 <= i < s.placed.len(),
    ensures
        rows_after(b, all, hand, s, idle).placed[i] == s.placed[i],
        rows_after(b, all, hand, s, idle).placed.len() == s.placed.len(),
        off(rows_after(b, all, hand, s, idle).waiting, i, s.placed.len() as int),
    decreases s.waiting.len(), s.waiting.len() - idle,
{
    if idle < s.waiting.len() {
        let t = row_step(b, all, hand, s);
        let rest = s.waiting.remove(0);
        assert(s.waiting[0] != i);
        assert forall|k: int| 0 <= k < rest.len() implies #[trigger] rest[k] != i && rest[k]
            < s.placed.len() by {
            assert(rest[k] == s.waiting[k + 1]);
        }
        assert(off(t.waiting, i, s.placed.len() as int));
        if t.waiting.len() < s.waiting.len() {
            lemma_rows_stay(b, all, hand, t, 0, i);
        } else {
            lemma_rows_stay(b, all, hand, t, idle + 1, i);
        }
    }
}

proof fn lemma_origin_stays(b: BoardView, list: Seq<usize>, n: int, i: int)
    requires
        off(list, i, b.placed.len() as int),
        0 <= i < b.placed.len(),
    ensures
        at_origin(b, list, n)[i] == b.placed[i],
        at_origin(b, list, n).len() == b.placed.len(),
    decreases n,
{
    if 0 < n <= list.len() {
        lemma_origin_stays(b, list, n - 1, i);
        assert(list[n - 1] != i);
    }
}

proof fn lemma_sorted_off(list: Seq<usize>, gt: spec_fn(usize, usize) -> bool, i: int, top: int)
    requires
        off(list, i, top),
    ensures
        off(sorted_by(list, gt), i, top),
{
    lemma_sorted_items(list, gt, |x: usize| x != i && x < top);
    let s = sorted_by(list, gt);
    assert forall|k: int| 0 <= k < s.len() implies #[trigger] s[k] != i && s[k] < top by {
        assert((|x: usize| x != i && x < top)(s[k]));
    }
}

proof fn lemma_satellites_stay(b: BoardView, list: Seq<usize>, hand: bool, i: int)
    requires
        off(list, i, b.placed.len() as int),
        0 <= i < b.placed.len(),
    ensures
        satellites_placed(b, list, hand)[i] == b.placed[i],
        satellites_placed(b, list, hand).len() == b.placed.len(),
{
    reveal(satellites_placed);
    let all = sorted_by(list, placed_after(b));
    lemma_sorted_off(list, placed_after(b), i, b.placed.len() as int);
    let s = Rows { placed: b.placed, waiting: all, done: Seq::empty() };
    lemma_rows_stay(b, all, hand, s, 0, i);
    let end = rows_end(b, list, hand);
    lemma_origin_stays(with_placed(b, end.placed), end.waiting, end.waiting.len() as int, i);
}

proof fn lemma_turns_stay(b: BoardView, list: Seq<usize>, n: int, i: int)
    requires
        off(list, i, b.placed.len() as int),
        0 <= i < b.placed.len(),
    ensures
        turned_upto(b, list, n)[i] == b.placed[i],
        turned_upto(b, list, n).len() == b.placed.len(),
    decreases n,
{
    if 0 < n <= list.len() {
        lemma_turns_stay(b, list, n - 1, i);
        assert(list[n - 1] != i);
    }
}

proof fn lemma_sizes_stay(b: BoardView, list: Seq<usize>, n: int, i: int)
    requires
        off(list, i, b.placed.len() as int),
        0 <= i < b.placed.len(),
    ensures
        sized_upto(b, list, n)[i] == b.placed[i],
        sized_upto(b, list, n).len() == b.placed.len(),
    decreases n,
{
    if 0 < n <= list.len() {
        lemma_sizes_stay(b, list, n - 1, i);
        assert(list[n - 1] != i);
    }
}

proof fn lemma_poses_stay(b: BoardView, list: Seq<usize>, i: int)
    requires
        off(list, i, b.placed.len() as int),
        0 <= i < b.placed.len(),
    ensures
        posed_all(b, list)[i] == b.placed[i],
        posed_all(b, list).len() == b.placed.len(),
{
    lemma_turns_stay(b, list, list.len() as int, i);
    lemma_sizes_stay(
        with_placed(b, turned_upto(b, list, list.len() as int)),
        list,
        list.len() as int,
        i,
    );
}

proof fn lemma_by_hand_off(placed: Seq<PlacedComp>, order: Seq<usize>, pinned: bool, n: int, i: int, top: int)
    requires
        off(order, i, top),
    ensures
        off(by_hand(placed, order, pinned, n), i, top),
    decreases n,
{
    if 0 < n <= order.len() {
        lemma_by_hand_off(placed, order, pinned, n - 1, i, top);
        assert(order[n - 1] != i);
    }
}

proof fn lemma_room_stays(b: BoardView, queue: Seq<usize>, n: int, i: int)
    requires
        off(queue, i, b.placed.len() as int),
        0 <= i < b.placed.len(),
    ensures
        room_upto(b, queue, n)[i] == b.placed[i],
        room_upto(b, queue, n).len() == b.placed.len(),
    decreases n,
{
    if 0 < n <= queue.len() {
        lemma_room_stays(b, queue, n - 1, i);
        assert(queue[n - 1] != i);
    }
}

proof fn lemma_others_off(members: Seq<usize>, root: int, n: int, i: int, top: int)
    requires
        off(members, i, top),
    ensures
        off(others_of(members, root, n), i, top),
    decreases n,
{
    if 0 < n <= members.len() {
        lemma_others_off(members, root, n - 1, i, top);
        assert(members[n - 1] != i);
    }
}

proof fn lemma_series_off(
    b: BoardView,
    root: int,
    side: Side,
    members: Seq<usize>,
    n: int,
    i: int,
    top: int,
)
    requires
        off(members, i, top),
    ensures
        off(series_upto(b, root, side, members, n), i, top),
    decreases n,
{
    if 0 < n <= members.len() {
        lemma_series_off(b, root, side, members, n - 1, i, top);
        assert(members[n - 1] != i);
    }
}

proof fn lemma_shunts_off(
    b: BoardView,
    root: int,
    series: Seq<usize>,
    members: Seq<usize>,
    n: int,
    i: int,
    top: int,
)
    requires
        off(members, i, top),
    ensures
        off(shunts_upto(b, root, series, members, n), i, top),
    decreases n,
{
    if 0 < n <= members.len() {
        lemma_shunts_off(b, root, series, members, n - 1, i, top);
        assert(members[n - 1] != i);
    }
}

proof fn lemma_lined_stays(
    b: BoardView,
    root: int,
    series: Seq<usize>,
    list: Seq<usize>,
    members: Seq<usize>,
    line: i32,
    column: bool,
    n: int,
    i: int,
)
    requires
        off(list, i, b.placed.len() as int),
        0 <= i < b.placed.len(),
    ensures
        lined_upto(b, root, series, list, members, line, column, n) matches Some(p) ==> p[i]
            == b.placed[i] && p.len() == b.placed.len(),
    decreases n,
{
    if 0 < n <= list.len() {
        reveal(stepped);
        lemma_lined_stays(b, root, series, list, members, line, column, n - 1, i);
        assert(list[n - 1] != i);
    }
}

proof fn lemma_lines_stay(
    b: BoardView,
    root: int,
    series: Seq<usize>,
    list: Seq<usize>,
    members: Seq<usize>,
    line: i32,
    column: bool,
    low: bool,
    j: int,
    i: int,
)
    requires
        off(list, i, b.placed.len() as int),
        0 <= i < b.placed.len(),
    ensures
        ({
            let p = lined_from(b, root, series, list, members, line, column, low, j);
            p[i] == b.placed[i] && p.len() == b.placed.len()
        }),
    decreases LINES - j,
{
    if 0 <= j < LINES {
        let here = line_out(b.cfg, line, low, j);
        lemma_lined_stays(
            b,
            root,
            series,
            list,
            members,
            here,
            column,
            list.len() as int,
            i,
        );
        lemma_lines_stay(b, root, series, list, members, line, column, low, j + 1, i);
    }
}

proof fn lemma_filters_stay(b: BoardView, root: int, members: Seq<usize>, i: int)
    requires
        off(members, i, b.placed.len() as int),
        0 <= i < b.placed.len(),
    ensures
        filters_lined(b, root, members)[i] == b.placed[i],
        filters_lined(b, root, members).len() == b.placed.len(),
{
    reveal(filters_lined);
    reveal(columned);
    reveal(rowed);
    let n = members.len() as int;
    let top = b.placed.len() as int;
    let left = series_upto(b, root, Side::Left, members, n);
    let right = series_upto(b, root, Side::Right, members, n);
    let series = left + right;
    let shunts = shunts_upto(b, root, series, members, n);
    lemma_series_off(b, root, Side::Left, members, n, i, top);
    lemma_series_off(b, root, Side::Right, members, n, i, top);
    lemma_shunts_off(b, root, series, members, n, i, top);
    let x = outermost(b.placed, left, true, true, left.len() as int);
    lemma_lines_stay(b, root, series, left, members, x, true, true, 0, i);
    let b1 = with_placed(b, columned(b, root, series, left, members, true));
    let x = outermost(b1.placed, right, true, false, right.len() as int);
    lemma_lines_stay(b1, root, series, right, members, x, true, false, 0, i);
    let b2 = with_placed(b, columned(b1, root, series, right, members, false));
    let y = row_line(b2, root, series);
    lemma_lines_stay(b2, root, series, shunts, members, y, false, false, 0, i);
}

proof fn lemma_composed_stays(b: BoardView, root: int, members: Seq<usize>, i: int)
    requires
        off(members, i, b.placed.len() as int),
        0 <= i < b.placed.len(),
        0 <= root < b.placed.len(),
        root != i,
    ensures
        composed(b, root, members)[i] == b.placed[i],
        composed(b, root, members).len() == b.placed.len(),
{
    reveal(composed);
    let start = with_moved(b, root, Point { x: 0, y: 0 });
    let sats = others_of(members, root, members.len() as int);
    lemma_others_off(members, root, members.len() as int, i, b.placed.len() as int);
    lemma_satellites_stay(start, sats, false, i);
    lemma_poses_stay(with_placed(b, satellites_placed(start, sats, false)), members, i);
    let laid = group_laid(b, root, members);
    lemma_by_hand_off(laid.placed, members, true, members.len() as int, i, b.placed.len() as int);
    lemma_by_hand_off(laid.placed, members, false, members.len() as int, i, b.placed.len() as int);
    let queue = room_queue(laid.placed, members);
    lemma_room_stays(laid, queue, queue.len() as int, i);
    lemma_filters_stay(
        with_placed(b, room_upto(laid, queue, queue.len() as int)),
        root,
        members,
        i,
    );
}

proof fn lemma_free_off(placed: Seq<PlacedComp>, root: int, n: int, i: int)
    requires
        0 <= i < placed.len(),
        placed[i].pinned,
        placed.len() <= usize::MAX,
    ensures
        off(free_members(placed, root, n), i, placed.len() as int),
        off(held_members(placed, root, n), i, placed.len() as int),
    decreases n,
{
    if 0 < n <= placed.len() {
        lemma_free_off(placed, root, n - 1, i);
    }
}

/// No group holds the component.
pub open spec fn off_groups(gs: Seq<GroupView>, i: int, n: int) -> bool {
    forall|k: int| 0 <= k < gs.len() ==> off((#[trigger] gs[k]).members, i, n)
}

proof fn lemma_flow_stays(b: BoardView, n: int, i: int)
    requires
        0 <= i < b.placed.len(),
        b.placed[i].pinned,
        b.placed.len() <= usize::MAX,
    ensures
        flow_upto(b, n).placed[i] == b.placed[i],
        flow_upto(b, n).placed.len() == b.placed.len(),
        off(flow_upto(b, n).held, i, b.placed.len() as int),
        off_groups(flow_upto(b, n).groups, i, b.placed.len() as int),
    decreases n,
{
    if 0 < n <= b.placed.len() {
        lemma_flow_stays(b, n - 1, i);
        let f = flow_upto(b, n - 1);
        let root = n - 1;
        let count = b.placed.len() as int;
        lemma_free_off(b.placed, root, count, i);
        if !b.placed[root].pinned && !b.placed[root].relegated {
            let members = free_members(b.placed, root, count);
            lemma_composed_stays(with_placed(b, f.placed), root, members, i);
        }
    }
}

proof fn lemma_members_stay(b: BoardView, members: Seq<usize>, d: Point, n: int, i: int)
    requires
        off(members, i, b.placed.len() as int),
        0 <= i < b.placed.len(),
    ensures
        members_shifted(b, members, d, n)[i] == b.placed[i],
        members_shifted(b, members, d, n).len() == b.placed.len(),
    decreases n,
{
    if 0 < n <= members.len() {
        lemma_members_stay(b, members, d, n - 1, i);
        assert(members[n - 1] != i);
    }
}

proof fn lemma_column_stays(
    b: BoardView,
    gs: Seq<GroupView>,
    col: Seq<usize>,
    centre: int,
    y: i32,
    n: int,
    i: int,
)
    requires
        off_groups(gs, i, b.placed.len() as int),
        below(col, gs.len() as int),
        0 <= i < b.placed.len(),
    ensures
        column_placed(b, gs, col, centre, y, n).0[i] == b.placed[i],
        column_placed(b, gs, col, centre, y, n).0.len() == b.placed.len(),
    decreases n,
{
    if 0 < n <= col.len() {
        lemma_column_stays(b, gs, col, centre, y, n - 1, i);
        let before = column_placed(b, gs, col, centre, y, n - 1);
        assert(col[n - 1] < gs.len());
        let g = gs[col[n - 1] as int];
        let d = crate::columns::group_shift(b.cfg, g.bbox, centre, before.1);
        lemma_members_stay(with_placed(b, before.0), g.members, d, g.members.len() as int, i);
    }
}

/// Every column lists groups.
pub open spec fn cols_wf(cols: Seq<Seq<usize>>, n: int) -> bool {
    forall|c: int| 0 <= c < cols.len() ==> below(#[trigger] cols[c], n)
}

proof fn lemma_columns_stay(
    b: BoardView,
    gs: Seq<GroupView>,
    cols: Seq<Seq<usize>>,
    x: i32,
    y: i32,
    n: int,
    i: int,
)
    requires
        off_groups(gs, i, b.placed.len() as int),
        cols_wf(cols, gs.len() as int),
        0 <= i < b.placed.len(),
    ensures
        columns_placed(b, gs, cols, x, y, n).0[i] == b.placed[i],
        columns_placed(b, gs, cols, x, y, n).0.len() == b.placed.len(),
    decreases n,
{
    if 0 < n <= cols.len() {
        lemma_columns_stay(b, gs, cols, x, y, n - 1, i);
        let before = columns_placed(b, gs, cols, x, y, n - 1);
        let col = cols[n - 1];
        let w = crate::columns::column_width(gs, col, col.len() as int);
        lemma_column_stays(
            with_placed(b, before.0),
            gs,
            col,
            2 * before.1 + w,
            y,
            col.len() as int,
            i,
        );
    }
}

proof fn lemma_cut_wf(cfg: SchConfig, gs: Seq<GroupView>, list: Seq<usize>, wrap: int, n: int, top: int)
    requires
        below(list, top),
    ensures
        cols_wf(cut_upto(cfg, gs, list, wrap, n).done, top),
        below(cut_upto(cfg, gs, list, wrap, n).open, top),
    decreases n,
{
    if 0 < n <= list.len() {
        lemma_cut_wf(cfg, gs, list, wrap, n - 1, top);
        assert(list[n - 1] < top);
    }
}

proof fn lemma_groups_in_wf(b: BoardView, gs: Seq<GroupView>, cat: crate::columns::Category, n: int)
    requires
        gs.len() <= usize::MAX,
    ensures
        below(groups_in(b, gs, cat, n), gs.len() as int),
    decreases n,
{
    if 0 < n <= gs.len() {
        lemma_groups_in_wf(b, gs, cat, n - 1);
    }
}

proof fn lemma_flow_placed_stays(b: BoardView, gs: Seq<GroupView>, x: i32, y: i32, n: int, i: int)
    requires
        off_groups(gs, i, b.placed.len() as int),
        gs.len() <= usize::MAX,
        0 <= i < b.placed.len(),
    ensures
        flow_placed(b, gs, x, y, n).0[i] == b.placed[i],
        flow_placed(b, gs, x, y, n).0.len() == b.placed.len(),
    decreases n,
{
    if 0 < n <= category_order().len() {
        lemma_flow_placed_stays(b, gs, x, y, n - 1, i);
        let before = flow_placed(b, gs, x, y, n - 1);
        let cat = category_order()[n - 1];
        let raw = groups_in(b, gs, cat, gs.len() as int);
        let gt = group_after(b, gs, ranks(b));
        let list = flow_list(b, gs, cat);
        lemma_groups_in_wf(b, gs, cat, gs.len() as int);
        lemma_sorted_items(raw, gt, |k: usize| k < gs.len());
        assert forall|k: int| 0 <= k < list.len() implies #[trigger] list[k] < gs.len() by {
            assert((|k: usize| k < gs.len())(list[k]));
        }
        let wrap = wrap_height(b.cfg);
        lemma_cut_wf(b.cfg, gs, list, wrap, list.len() as int, gs.len() as int);
        let cols = columns_of(b.cfg, gs, list, wrap);
        lemma_columns_stay(with_placed(b, before.0), gs, cols, before.1, y, cols.len() as int, i);
    }
}

proof fn lemma_group_count(b: BoardView, n: int)
    requires
        0 <= n <= b.placed.len(),
    ensures
        flow_upto(b, n).groups.len() <= n,
    decreases n,
{
    if n > 0 {
        lemma_group_count(b, n - 1);
    }
}

proof fn lemma_laid_out_stays(b: BoardView, i: int)
    requires
        0 <= i < b.placed.len(),
        b.placed[i].pinned,
        b.placed.len() <= usize::MAX,
    ensures
        laid_out(b)[i] == b.placed[i],
        laid_out(b).len() == b.placed.len(),
{
    reveal(laid_out);
    reveal(in_columns);
    let n = b.placed.len() as int;
    let f = flow_upto(b, n);
    lemma_flow_stays(b, n, i);
    lemma_group_count(b, n);
    let now = with_placed(b, f.placed);
    let held = crate::keepout::content_upto(now, true, n);
    let (x, y) = match held {
        Some(h) => (b.cfg.spec_snap_up(h.x2 + b.cfg.col_gap_mm), h.y1),
        None => (0i32, 0i32),
    };
    lemma_flow_placed_stays(now, f.groups, x, y, 7, i);
    let cols = with_placed(b, in_columns(now, f.groups, held));
    lemma_satellites_stay(cols, f.held, true, i);
    lemma_poses_stay(with_placed(b, satellites_placed(cols, f.held, true)), f.held, i);
}

proof fn lemma_row_stays(b: BoardView, list: Seq<usize>, at: Point, n: int, i: int)
    requires
        off(list, i, b.placed.len() as int),
        0 <= i < b.placed.len(),
    ensures
        row_placed(b, list, at, n)[i] == b.placed[i],
        row_placed(b, list, at, n).len() == b.placed.len(),
    decreases n,
{
    if 0 < n <= list.len() {
        lemma_row_stays(b, list, at, n - 1, i);
        assert(list[n - 1] != i);
    }
}

proof fn lemma_band_off(placed: Seq<PlacedComp>, n: int, i: int)
    requires
        0 <= i < placed.len(),
        !placed[i].relegated,
        placed.len() <= usize::MAX,
    ensures
        off(in_band(placed, true, n), i, placed.len() as int),
    decreases n,
{
    if 0 < n <= placed.len() {
        lemma_band_off(placed, n - 1, i);
    }
}

proof fn lemma_band_stays(b: BoardView, i: int)
    requires
        0 <= i < b.placed.len(),
        !b.placed[i].relegated,
        b.placed.len() <= usize::MAX,
    ensures
        band_placed(b)[i] == b.placed[i],
        band_placed(b).len() == b.placed.len(),
{
    reveal(band_placed);
    let n = b.placed.len() as int;
    let list = in_band(b.placed, true, n);
    let rest = in_band(b.placed, false, n);
    lemma_band_off(b.placed, n, i);
    lemma_poses_stay(b, list, i);
    let posed = with_placed(b, posed_all(b, list));
    lemma_row_stays(posed, list, row_start(posed, list, rest), list.len() as int, i);
}

proof fn lemma_in_band_below(placed: Seq<PlacedComp>, band: bool, n: int)
    requires
        placed.len() <= usize::MAX,
    ensures
        below(in_band(placed, band, n), placed.len() as int),
    decreases n,
{
    if 0 < n <= placed.len() {
        lemma_in_band_below(placed, band, n - 1);
    }
}

/// What was placed by hand keeps its pose, and all of it is moved by one and the same vector,
/// so that the positions against each other are kept.
pub proof fn law_manual_positions_kept(b: BoardView, ports: Seq<SheetPort>, i: int)
    requires
        0 <= i < b.placed.len(),
        b.placed[i].pinned,
        !b.placed[i].relegated,
        b.placed.len() <= usize::MAX,
    ensures
        ({
            let d = page_shift(with_placed(b, settled(b)), ports);
            let p = b.placed[i];
            let q = arranged(b, ports)[i];
            &&& arranged(b, ports).len() == b.placed.len()
            &&& q.at == (Point { x: sat(p.at.x + d.x), y: sat(p.at.y + d.y) })
            &&& q.rotation == p.rotation
            &&& q.mirror == p.mirror
            &&& q.pinned
        }),
{
    reveal(arranged);
    reveal(settled);
    let start = with_placed(b, all_sized(with_placed(b, grouped(b.placed))));
    lemma_laid_out_stays(start, i);
    let laid = with_placed(b, laid_out(start));
    let order = in_band(laid.placed, false, laid.placed.len() as int);
    lemma_in_band_below(laid.placed, false, laid.placed.len() as int);
    let queue = room_queue(laid.placed, order);
    crate::keepout::law_room_keeps_pinned(laid, order);
    let roomy = with_placed(b, room_upto(laid, queue, queue.len() as int));
    assert(roomy.placed[i] == laid.placed[i]);
    lemma_band_stays(roomy, i);
    let banded = with_placed(b, band_placed(roomy));
    law_orientation_keeps(banded);
    assert(oriented(banded)[i] == banded.placed[i]);
    assert(settled(b)[i] == laid.placed[i]);
    let p = b.placed[i];
    assert(sat(p.at.x as int) == p.at.x);
    assert(sat(p.at.y as int) == p.at.y);
}

/// What was placed by hand never goes into the utility band.
pub proof fn law_manual_never_relegated(b: BoardView, i: int)
    requires
        0 <= i < b.placed.len(),
        b.placed[i].pinned,
        !b.placed[i].relegated,
    ensures
        !all_anchored(b)[i].relegated,
{
}

} // verus!
