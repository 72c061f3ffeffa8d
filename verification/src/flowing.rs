//! The main flow runs from left to right: connectors come first.

use vstd::prelude::*;
use crate::anchors::below;
use crate::columns::{
    category, category_order, column_placed, column_width, columns_of, columns_placed, cut_upto,
    flow_list, flow_placed, group_after, group_shift, groups_in, groups_wf, in_columns,
    law_rank_is_reached, leads, members_shifted, net_at, net_at_rank, net_leads, ranks, ranks_upto,
    shifted, wrap_height, Category, GroupView,
};
use crate::config::SchConfig;
use crate::geometry::BBox;
use crate::model::{NetClass, Role};
use crate::order::{law_sort_is_permutation, sorted_by};
use crate::orientation::with_placed;
use crate::place::{flow_upto, free_members, PlacedComp};
use crate::texts::{nets_wf, BoardView};
use crate::units::{lemma_ceil_steps, lemma_round_steps, round_steps, sat, Iu, Point};

verus! {

// ---------------------------------------------------------------- columns in a row

/// Groups share no member, and a group lists each of its members once.
#[verifier::opaque]
pub open spec fn groups_apart(gs: Seq<GroupView>) -> bool {
    forall|i: int, k: int, j: int, l: int|
        0 <= i < gs.len() && 0 <= j < gs.len() && 0 <= k < gs[i].members.len() && 0 <= l
            < gs[j].members.len() && #[trigger] gs[i].members[k] == #[trigger] gs[j].members[l] ==> i
            == j && k == l
}

/// No group stands in two places.
#[verifier::opaque]
pub open spec fn listed_once(cols: Seq<Seq<usize>>) -> bool {
    forall|c: int, k: int, e: int, l: int|
        0 <= c < cols.len() && 0 <= e < cols.len() && 0 <= k < cols[c].len() && 0 <= l
            < cols[e].len() && #[trigger] cols[c][k] == #[trigger] cols[e][l] ==> c == e && k == l
}

/// The columns hold groups, and none is empty.
pub open spec fn cols_ok(cols: Seq<Seq<usize>>, n: int) -> bool {
    forall|c: int|
        0 <= c < cols.len() ==> below(#[trigger] cols[c], n) && cols[c].len() > 0
}

/// The group stands in none of the first `n` places of the column.
pub open spec fn not_in(col: Seq<usize>, n: int, q: int) -> bool {
    forall|k: int| 0 <= k < n && k < col.len() ==> #[trigger] col[k] != q
}

/// The members of the group are where they were.
#[verifier::opaque]
pub open spec fn rests(b: BoardView, g: GroupView, r: Seq<PlacedComp>) -> bool {
    forall|k: int|
        0 <= k < g.members.len() ==> r[#[trigger] g.members[k] as int]
            == b.placed[g.members[k] as int]
}

/// The members of the group have moved by `d`.
#[verifier::opaque]
pub open spec fn rides(b: BoardView, g: GroupView, r: Seq<PlacedComp>, d: Point) -> bool {
    forall|k: int|
        0 <= k < g.members.len() ==> r[#[trigger] g.members[k] as int] == shifted(
            b.cfg,
            b.design,
            b.placed[g.members[k] as int],
            d,
        )
}

/// The members of the group have moved to the column with this middle, at some height.
pub open spec fn rides_to(b: BoardView, g: GroupView, r: Seq<PlacedComp>, centre: int) -> bool {
    exists|y: Iu| rides(b, g, r, #[trigger] group_shift(b.cfg, g.bbox, centre, y))
}

proof fn lemma_rests_on(b: BoardView, g: GroupView, mid: Seq<PlacedComp>, r: Seq<PlacedComp>)
    requires
        rests(b, g, mid),
        rests(with_placed(b, mid), g, r),
    ensures
        rests(b, g, r),
{
    reveal(rests);
    assert forall|k: int| 0 <= k < g.members.len() implies r[#[trigger] g.members[k] as int]
        == b.placed[g.members[k] as int] by {
        assert(mid[g.members[k] as int] == b.placed[g.members[k] as int]);
    }
}

proof fn lemma_rides_on(
    b: BoardView,
    g: GroupView,
    mid: Seq<PlacedComp>,
    r: Seq<PlacedComp>,
    centre: int,
)
    requires
        rides_to(b, g, mid, centre),
        rests(with_placed(b, mid), g, r),
    ensures
        rides_to(b, g, r, centre),
{
    reveal(rests);
    reveal(rides);
    let v = choose|v: Iu| rides(b, g, mid, #[trigger] group_shift(b.cfg, g.bbox, centre, v));
    let d = group_shift(b.cfg, g.bbox, centre, v);
    assert forall|k: int| 0 <= k < g.members.len() implies r[#[trigger] g.members[k] as int]
        == shifted(b.cfg, b.design, b.placed[g.members[k] as int], d) by {
        assert(r[g.members[k] as int] == mid[g.members[k] as int]);
    }
    assert(rides(b, g, r, group_shift(b.cfg, g.bbox, centre, v)));
}

proof fn lemma_rides_off(
    b: BoardView,
    g: GroupView,
    mid: Seq<PlacedComp>,
    r: Seq<PlacedComp>,
    centre: int,
)
    requires
        rests(b, g, mid),
        rides_to(with_placed(b, mid), g, r, centre),
    ensures
        rides_to(b, g, r, centre),
{
    reveal(rests);
    reveal(rides);
    let now = with_placed(b, mid);
    let v = choose|v: Iu| rides(now, g, r, #[trigger] group_shift(now.cfg, g.bbox, centre, v));
    let d = group_shift(b.cfg, g.bbox, centre, v);
    assert forall|k: int| 0 <= k < g.members.len() implies r[#[trigger] g.members[k] as int]
        == shifted(b.cfg, b.design, b.placed[g.members[k] as int], d) by {
        assert(mid[g.members[k] as int] == b.placed[g.members[k] as int]);
    }
    assert(rides(b, g, r, group_shift(b.cfg, g.bbox, centre, v)));
}

proof fn lemma_members_shift(b: BoardView, gs: Seq<GroupView>, p: int, d: Point, n: int, q: int)
    requires
        groups_apart(gs),
        groups_wf(gs, b.placed.len() as int),
        0 <= p < gs.len(),
        0 <= q < gs.len(),
        0 <= n <= gs[p].members.len(),
    ensures
        ({
            let r = members_shifted(b, gs[p].members, d, n);
            &&& r.len() == b.placed.len()
            &&& p != q ==> rests(b, gs[q], r)
            &&& forall|k: int|
                0 <= k < gs[p].members.len() ==> r[#[trigger] gs[p].members[k] as int] == (if k < n {
                    shifted(b.cfg, b.design, b.placed[gs[p].members[k] as int], d)
                } else {
                    b.placed[gs[p].members[k] as int]
                })
        }),
    decreases n,
{
    reveal(groups_apart);
    reveal(rests);
    let members = gs[p].members;
    assert(below(members, b.placed.len() as int));
    assert(below(gs[q].members, b.placed.len() as int));
    if n > 0 {
        lemma_members_shift(b, gs, p, d, n - 1, q);
        let before = members_shifted(b, members, d, n - 1);
        let r = members_shifted(b, members, d, n);
        let m = members[n - 1] as int;
        assert(before[m] == b.placed[m]);
        assert forall|k: int| 0 <= k < members.len() implies r[#[trigger] members[k] as int] == (if k
            < n {
            shifted(b.cfg, b.design, b.placed[members[k] as int], d)
        } else {
            b.placed[members[k] as int]
        }) by {
            if k != n - 1 {
                assert(gs[p].members[k] != gs[p].members[n - 1]);
            }
        }
        if p != q {
            assert forall|k: int| 0 <= k < gs[q].members.len() implies r[
                #[trigger] gs[q].members[k] as int] == b.placed[gs[q].members[k] as int] by {
                assert(gs[q].members[k] != gs[p].members[n - 1]);
            }
        }
    }
}

proof fn lemma_column(
    b: BoardView,
    gs: Seq<GroupView>,
    col: Seq<usize>,
    centre: int,
    y: Iu,
    n: int,
    q: int,
)
    requires
        groups_apart(gs),
        groups_wf(gs, b.placed.len() as int),
        below(col, gs.len() as int),
        0 <= q < gs.len(),
        0 <= n <= col.len(),
        forall|k: int, l: int|
            0 <= k < col.len() && 0 <= l < col.len() && #[trigger] col[k] == #[trigger] col[l] ==> k
                == l,
    ensures
        ({
            let r = column_placed(b, gs, col, centre, y, n).0;
            &&& r.len() == b.placed.len()
            &&& not_in(col, n, q) ==> rests(b, gs[q], r)
            &&& !not_in(col, n, q) ==> rides_to(b, gs[q], r, centre)
        }),
    decreases n,
{
    if n > 0 {
        lemma_column(b, gs, col, centre, y, n - 1, q);
        let before = column_placed(b, gs, col, centre, y, n - 1);
        let r = column_placed(b, gs, col, centre, y, n).0;
        let p = col[n - 1] as int;
        let g = gs[p];
        let d = group_shift(b.cfg, g.bbox, centre, before.1);
        let now = with_placed(b, before.0);
        lemma_members_shift(now, gs, p, d, g.members.len() as int, q);
        if p == q {
            assert(not_in(col, n - 1, q));
            assert(!not_in(col, n, q)) by {
                assert(col[n - 1] == q);
            }
            assert(rides(now, g, r, group_shift(now.cfg, g.bbox, centre, before.1))) by {
                reveal(rides);
            }
            lemma_rides_off(b, g, before.0, r, centre);
        } else if not_in(col, n, q) {
            assert(not_in(col, n - 1, q));
            lemma_rests_on(b, gs[q], before.0, r);
        } else {
            assert(!not_in(col, n - 1, q)) by {
                let k = choose|k: int| 0 <= k < n && k < col.len() && #[trigger] col[k] == q;
                assert(k < n - 1);
            }
            lemma_rides_on(b, gs[q], before.0, r, centre);
        }
    } else {
        reveal(rests);
    }
}

/// Where column number `n` begins.
pub open spec fn column_start(
    cfg: SchConfig,
    gs: Seq<GroupView>,
    cols: Seq<Seq<usize>>,
    x: Iu,
    n: int,
) -> Iu
    decreases n,
{
    if n <= 0 || n > cols.len() {
        x
    } else {
        sat(
            column_start(cfg, gs, cols, x, n - 1) + column_width(
                gs,
                cols[n - 1],
                cols[n - 1].len() as int,
            ) + cfg.col_gap_mm,
        )
    }
}

/// Twice the middle of column number `c`.
pub open spec fn column_middle(
    cfg: SchConfig,
    gs: Seq<GroupView>,
    cols: Seq<Seq<usize>>,
    x: Iu,
    c: int,
) -> int {
    2 * column_start(cfg, gs, cols, x, c) + column_width(gs, cols[c], cols[c].len() as int)
}

/// What stands in one column stands in no other.
proof fn lemma_elsewhere(cols: Seq<Seq<usize>>, c: int, k: int, e: int, q: int)
    requires
        listed_once(cols),
        0 <= c < cols.len(),
        0 <= k < cols[c].len(),
        cols[c][k] == q,
        0 <= e < cols.len(),
        e != c,
    ensures
        not_in(cols[e], cols[e].len() as int, q),
{
    reveal(listed_once);
    assert forall|l: int| 0 <= l < cols[e].len() implies #[trigger] cols[e][l] != q by {
        if cols[e][l] == q {
            assert(cols[e][l] == cols[c][k]);
        }
    }
}

proof fn lemma_columns(
    b: BoardView,
    gs: Seq<GroupView>,
    cols: Seq<Seq<usize>>,
    x: Iu,
    y: Iu,
    n: int,
    q: int,
)
    requires
        groups_apart(gs),
        groups_wf(gs, b.placed.len() as int),
        cols_ok(cols, gs.len() as int),
        listed_once(cols),
        0 <= q < gs.len(),
        0 <= n <= cols.len(),
    ensures
        ({
            let r = columns_placed(b, gs, cols, x, y, n);
            &&& r.0.len() == b.placed.len()
            &&& r.1 == column_start(b.cfg, gs, cols, x, n)
            &&& (forall|c: int|
                0 <= c < n ==> not_in(#[trigger] cols[c], cols[c].len() as int, q)) ==> rests(
                b,
                gs[q],
                r.0,
            )
            &&& forall|c: int|
                0 <= c < n && !not_in(#[trigger] cols[c], cols[c].len() as int, q) ==> rides_to(
                    b,
                    gs[q],
                    r.0,
                    column_middle(b.cfg, gs, cols, x, c),
                )
        }),
    decreases n,
{
    if n > 0 {
        lemma_columns(b, gs, cols, x, y, n - 1, q);
        let before = columns_placed(b, gs, cols, x, y, n - 1);
        let r = columns_placed(b, gs, cols, x, y, n);
        let col = cols[n - 1];
        let size = col.len() as int;
        let now = with_placed(b, before.0);
        let mid = column_middle(b.cfg, gs, cols, x, n - 1);
        assert(below(col, gs.len() as int));
        assert forall|k: int, l: int|
            0 <= k < col.len() && 0 <= l < col.len() && #[trigger] col[k] == #[trigger] col[l] implies k
            == l by {
            reveal(listed_once);
            assert(cols[n - 1][k] == cols[n - 1][l]);
        }
        lemma_column(now, gs, col, mid, y, size, q);
        assert(r.0 == column_placed(now, gs, col, mid, y, size).0);
        if not_in(col, size, q) {
            if forall|c: int| 0 <= c < n ==> not_in(#[trigger] cols[c], cols[c].len() as int, q) {
                lemma_rests_on(b, gs[q], before.0, r.0);
            }
            assert forall|c: int|
                0 <= c < n && !not_in(#[trigger] cols[c], cols[c].len() as int, q) implies rides_to(
                b,
                gs[q],
                r.0,
                column_middle(b.cfg, gs, cols, x, c),
            ) by {
                lemma_rides_on(
                    b,
                    gs[q],
                    before.0,
                    r.0,
                    column_middle(b.cfg, gs, cols, x, c),
                );
            }
        } else {
            let k = choose|k: int| 0 <= k < size && k < col.len() && #[trigger] col[k] == q;
            assert forall|c: int| 0 <= c < n - 1 implies not_in(
                #[trigger] cols[c],
                cols[c].len() as int,
                q,
            ) by {
                lemma_elsewhere(cols, n - 1, k, c, q);
            }
            lemma_rides_off(b, gs[q], before.0, r.0, mid);
        }
    } else {
        reveal(rests);
    }
}

// ---------------------------------------------------------------- the flow as one row of columns

/// The columns of the first `n` parts of the flow.
pub open spec fn flow_columns(b: BoardView, gs: Seq<GroupView>, n: int) -> Seq<Seq<usize>>
    decreases n,
{
    if n <= 0 || n > category_order().len() {
        Seq::empty()
    } else {
        flow_columns(b, gs, n - 1) + columns_of(
            b.cfg,
            gs,
            flow_list(b, gs, category_order()[n - 1]),
            wrap_height(b.cfg),
        )
    }
}

proof fn lemma_columns_prefix(
    b: BoardView,
    gs: Seq<GroupView>,
    a: Seq<Seq<usize>>,
    c: Seq<Seq<usize>>,
    x: Iu,
    y: Iu,
    n: int,
)
    requires
        0 <= n <= a.len(),
    ensures
        columns_placed(b, gs, a + c, x, y, n) == columns_placed(b, gs, a, x, y, n),
    decreases n,
{
    if n > 0 {
        lemma_columns_prefix(b, gs, a, c, x, y, n - 1);
        assert((a + c)[n - 1] == a[n - 1]);
    }
}

proof fn lemma_columns_behind(
    b: BoardView,
    gs: Seq<GroupView>,
    a: Seq<Seq<usize>>,
    c: Seq<Seq<usize>>,
    x: Iu,
    y: Iu,
    n: int,
)
    requires
        0 <= n <= c.len(),
    ensures
        ({
            let first = columns_placed(b, gs, a, x, y, a.len() as int);
            columns_placed(b, gs, a + c, x, y, a.len() + n) == columns_placed(
                with_placed(b, first.0),
                gs,
                c,
                first.1,
                y,
                n,
            )
        }),
    decreases n,
{
    let first = columns_placed(b, gs, a, x, y, a.len() as int);
    if n > 0 {
        lemma_columns_behind(b, gs, a, c, x, y, n - 1);
        assert((a + c)[a.len() + n - 1] == c[n - 1]);
        let before = columns_placed(b, gs, a + c, x, y, a.len() + n - 1);
        assert(with_placed(with_placed(b, first.0), before.0) == with_placed(b, before.0));
    } else {
        lemma_columns_prefix(b, gs, a, c, x, y, a.len() as int);
        assert(columns_placed(with_placed(b, first.0), gs, c, first.1, y, 0) == (first.0, first.1));
    }
}

proof fn lemma_flow_is_one_row(b: BoardView, gs: Seq<GroupView>, x: Iu, y: Iu, n: int)
    requires
        0 <= n <= category_order().len(),
    ensures
        ({
            let cols = flow_columns(b, gs, n);
            flow_placed(b, gs, x, y, n) == columns_placed(b, gs, cols, x, y, cols.len() as int)
        }),
    decreases n,
{
    if n > 0 {
        lemma_flow_is_one_row(b, gs, x, y, n - 1);
        let a = flow_columns(b, gs, n - 1);
        let c = columns_of(
            b.cfg,
            gs,
            flow_list(b, gs, category_order()[n - 1]),
            wrap_height(b.cfg),
        );
        lemma_columns_behind(b, gs, a, c, x, y, c.len() as int);
        assert(flow_columns(b, gs, n) == a + c);
    }
}

// ---------------------------------------------------------------- every group has its column

/// The listed groups are those whose root belongs to the part of the flow, each once.
proof fn lemma_groups_in(b: BoardView, gs: Seq<GroupView>, cat: Category, n: int)
    requires
        gs.len() <= usize::MAX,
        0 <= n <= gs.len(),
    ensures
        ({
            let r = groups_in(b, gs, cat, n);
            &&& r.no_duplicates()
            &&& forall|k: int|
                0 <= k < r.len() ==> #[trigger] r[k] < n && category(
                    b.placed[gs[r[k] as int].root as int].role,
                ) == cat
            &&& forall|q: int|
                0 <= q < n && category(b.placed[(#[trigger] gs[q]).root as int].role) == cat
                    ==> r.contains(q as usize)
        }),
    decreases n,
{
    if n > 0 {
        lemma_groups_in(b, gs, cat, n - 1);
        let before = groups_in(b, gs, cat, n - 1);
        let r = groups_in(b, gs, cat, n);
        assert forall|q: int|
            0 <= q < n && category(b.placed[(#[trigger] gs[q]).root as int].role) == cat implies r.contains(
        q as usize) by {
            if q < n - 1 {
                assert(before.contains(q as usize));
                let k = choose|k: int| 0 <= k < before.len() && before[k] == q as usize;
                assert(r[k] == q as usize);
            } else {
                assert(r[r.len() - 1] == q as usize);
            }
        }
    }
}

/// Sorting keeps the items, and each once.
proof fn lemma_sorted_once(s: Seq<usize>, gt: spec_fn(usize, usize) -> bool)
    requires
        s.no_duplicates(),
    ensures
        sorted_by(s, gt).no_duplicates(),
        forall|x: usize| #[trigger] sorted_by(s, gt).contains(x) <==> s.contains(x),
{
    broadcast use vstd::seq_lib::group_to_multiset_ensures;

    let r = sorted_by(s, gt);
    law_sort_is_permutation(s, gt);
    s.lemma_multiset_has_no_duplicates();
    r.lemma_multiset_has_no_duplicates_conv();
    assert forall|x: usize| #[trigger] r.contains(x) <==> s.contains(x) by {
        assert(r.to_multiset().count(x) > 0 <==> s.to_multiset().count(x) > 0);
    }
}

/// What a part of the flow lists.
pub open spec fn lists_part(b: BoardView, gs: Seq<GroupView>, cat: Category, list: Seq<usize>) -> bool {
    &&& list.no_duplicates()
    &&& forall|k: int|
        0 <= k < list.len() ==> #[trigger] list[k] < gs.len() && category(
            b.placed[gs[list[k] as int].root as int].role,
        ) == cat
    &&& forall|q: int|
        0 <= q < gs.len() && category(b.placed[(#[trigger] gs[q]).root as int].role) == cat
            ==> list.contains(q as usize)
}

proof fn lemma_flow_list(b: BoardView, gs: Seq<GroupView>, cat: Category)
    requires
        gs.len() <= usize::MAX,
    ensures
        lists_part(b, gs, cat, flow_list(b, gs, cat)),
{
    let raw = groups_in(b, gs, cat, gs.len() as int);
    let gt = group_after(b, gs, ranks(b));
    let list = flow_list(b, gs, cat);
    lemma_groups_in(b, gs, cat, gs.len() as int);
    lemma_sorted_once(raw, gt);
    assert forall|k: int| 0 <= k < list.len() implies #[trigger] list[k] < gs.len() && category(
        b.placed[gs[list[k] as int].root as int].role,
    ) == cat by {
        assert(list.contains(list[k]));
        assert(raw.contains(list[k]));
    }
}

/// The columns hold what is listed, each item once, in columns that are not empty.
pub open spec fn columns_hold(cols: Seq<Seq<usize>>, list: Seq<usize>) -> bool {
    &&& forall|c: int| 0 <= c < cols.len() ==> (#[trigger] cols[c]).len() > 0
    &&& forall|c: int, k: int|
        0 <= c < cols.len() && 0 <= k < cols[c].len() ==> list.contains(#[trigger] cols[c][k])
    &&& forall|i: int| 0 <= i < list.len() ==> stands_in(cols, #[trigger] list[i])
    &&& listed_once(cols)
}

/// The item stands in one of the columns.
pub open spec fn stands_in(cols: Seq<Seq<usize>>, q: usize) -> bool {
    exists|c: int, k: int| 0 <= c < cols.len() && 0 <= k < cols[c].len() && #[trigger] cols[c][k] == q
}

/// The columns with the open one behind them, where it is not empty.
pub open spec fn closed(done: Seq<Seq<usize>>, open: Seq<usize>) -> Seq<Seq<usize>> {
    if open.len() > 0 {
        done.push(open)
    } else {
        done
    }
}

/// A new item behind the others, in a column of its own or at the foot of the last one.
proof fn lemma_one_more(
    before: Seq<Seq<usize>>,
    after: Seq<Seq<usize>>,
    list: Seq<usize>,
    n: int,
    fresh: bool,
)
    requires
        0 < n <= list.len(),
        list.no_duplicates(),
        columns_hold(before, list.take(n - 1)),
        fresh ==> after == before.push(seq![list[n - 1]]),
        !fresh ==> before.len() > 0 && after == before.update(
            before.len() - 1,
            before.last().push(list[n - 1]),
        ),
    ensures
        columns_hold(after, list.take(n)),
{
    reveal(listed_once);
    let x = list[n - 1];
    let was = list.take(n - 1);
    let now = list.take(n);
    assert forall|c: int, k: int|
        0 <= c < before.len() && 0 <= k < before[c].len() implies #[trigger] before[c][k] != x
        && now.contains(before[c][k]) by {
        assert(was.contains(before[c][k]));
        let i = choose|i: int| 0 <= i < was.len() && was[i] == before[c][k];
        assert(now[i] == before[c][k]);
    }
    let last = if fresh {
        before.len() as int
    } else {
        before.len() - 1
    };
    let foot = after[last].len() - 1;
    assert(after[last][foot] == x);
    assert forall|c: int, k: int|
        0 <= c < after.len() && 0 <= k < after[c].len() && !(c == last && k == foot) implies c
        < before.len() && k < before[c].len() && #[trigger] after[c][k] == before[c][k] by {}
    assert forall|c: int, k: int| 0 <= c < after.len() && 0 <= k < after[c].len() implies now.contains(
    #[trigger] after[c][k]) by {
        if c == last && k == foot {
            assert(now[n - 1] == x);
        } else {
            assert(now.contains(before[c][k]));
        }
    }
    assert forall|i: int| 0 <= i < now.len() implies stands_in(after, #[trigger] now[i]) by {
        if i < n - 1 {
            assert(was[i] == now[i]);
            assert(stands_in(before, was[i]));
            let (c, k) = choose|c: int, k: int|
                0 <= c < before.len() && 0 <= k < before[c].len() && #[trigger] before[c][k]
                    == was[i];
            assert(after[c][k] == now[i]);
        } else {
            assert(after[last][foot] == now[i]);
        }
    }
    assert forall|c: int, k: int, e: int, l: int|
        0 <= c < after.len() && 0 <= e < after.len() && 0 <= k < after[c].len() && 0 <= l
            < after[e].len() && #[trigger] after[c][k] == #[trigger] after[e][l] implies c == e && k
        == l by {
        if c == last && k == foot {
            if !(e == last && l == foot) {
                assert(before[e][l] != x);
            }
        } else if e == last && l == foot {
            assert(before[c][k] != x);
        } else {
            assert(before[c][k] == before[e][l]);
        }
    }
}

proof fn lemma_cut_holds(cfg: SchConfig, gs: Seq<GroupView>, list: Seq<usize>, wrap: int, n: int)
    requires
        list.no_duplicates(),
        0 <= n <= list.len(),
    ensures
        ({
            let c = cut_upto(cfg, gs, list, wrap, n);
            columns_hold(closed(c.done, c.open), list.take(n)) && (c.open.len() == 0
                ==> c.done.len() == 0)
        }),
    decreases n,
{
    let c = cut_upto(cfg, gs, list, wrap, n);
    if n > 0 {
        lemma_cut_holds(cfg, gs, list, wrap, n - 1);
        let b = cut_upto(cfg, gs, list, wrap, n - 1);
        let before = closed(b.done, b.open);
        let after = closed(c.done, c.open);
        let g = gs[list[n - 1] as int].bbox;
        let fresh = b.open.len() == 0 || b.height + (g.y2 - g.y1) > wrap;
        if fresh {
            assert(after =~= before.push(seq![list[n - 1]]));
        } else {
            assert(after =~= before.update(before.len() - 1, before.last().push(list[n - 1])));
        }
        lemma_one_more(before, after, list, n, fresh);
    } else {
        reveal(listed_once);
    }
}

// ---------------------------------------------------------------- the parts of the flow

/// Number of the part of the flow.
pub open spec fn part(cat: Category) -> int {
    match cat {
        Category::ConnLeft => 0,
        Category::Protection => 1,
        Category::Regulator => 2,
        Category::Mcu => 3,
        Category::Sensor => 4,
        Category::Other => 5,
        Category::ConnRight => 6,
    }
}

/// Number of the part of the flow that the group belongs to.
pub open spec fn part_of(b: BoardView, gs: Seq<GroupView>, q: int) -> int {
    part(category(b.placed[gs[q].root as int].role))
}

/// The columns hold the groups of the first `n` parts, part after part.
#[verifier::opaque]
pub open spec fn holds_parts(b: BoardView, gs: Seq<GroupView>, cols: Seq<Seq<usize>>, n: int) -> bool {
    &&& cols_ok(cols, gs.len() as int)
    &&& listed_once(cols)
    &&& forall|c: int, k: int|
        0 <= c < cols.len() && 0 <= k < cols[c].len() ==> part_of(
            b,
            gs,
            #[trigger] cols[c][k] as int,
        ) < n
    &&& forall|q: int|
        0 <= q < gs.len() && #[trigger] part_of(b, gs, q) < n ==> stands_in(cols, q as usize)
    &&& forall|c: int, k: int, e: int, l: int|
        0 <= c < cols.len() && 0 <= k < cols[c].len() && 0 <= e < cols.len() && 0 <= l
            < cols[e].len() && part_of(b, gs, #[trigger] cols[c][k] as int) < part_of(
            b,
            gs,
            #[trigger] cols[e][l] as int,
        ) ==> c < e
}

proof fn lemma_part_order(cat: Category)
    ensures
        0 <= part(cat) < category_order().len(),
        category_order()[part(cat)] == cat,
        forall|k: int| 0 <= k < category_order().len() ==> part(#[trigger] category_order()[k]) == k,
{
}

/// The columns of one part, behind those of the parts before it.
proof fn lemma_part_behind(
    b: BoardView,
    gs: Seq<GroupView>,
    a: Seq<Seq<usize>>,
    c: Seq<Seq<usize>>,
    list: Seq<usize>,
    n: int,
)
    requires
        gs.len() <= usize::MAX,
        1 <= n <= category_order().len(),
        holds_parts(b, gs, a, n - 1),
        lists_part(b, gs, category_order()[n - 1], list),
        columns_hold(c, list),
    ensures
        holds_parts(b, gs, a + c, n),
{
    reveal(holds_parts);
    let r = a + c;
    let s = a.len() as int;
    let cat = category_order()[n - 1];
    lemma_part_order(cat);
    assert forall|e: int, k: int| 0 <= e < c.len() && 0 <= k < c[e].len() implies part_of(
        b,
        gs,
        #[trigger] c[e][k] as int,
    ) == n - 1 && c[e][k] < gs.len() by {
        assert(list.contains(c[e][k]));
        let i = choose|i: int| 0 <= i < list.len() && list[i] == c[e][k];
        assert(list[i] < gs.len());
    }
    assert forall|e: int| 0 <= e < r.len() implies below(#[trigger] r[e], gs.len() as int)
        && r[e].len() > 0 by {
        if e < s {
            assert(r[e] == a[e]);
        } else {
            assert(r[e] == c[e - s]);
            assert forall|k: int| 0 <= k < r[e].len() implies #[trigger] r[e][k] < gs.len() by {
                assert(c[e - s][k] < gs.len());
            }
        }
    }
    assert forall|e: int, k: int| 0 <= e < r.len() && 0 <= k < r[e].len() implies part_of(
        b,
        gs,
        #[trigger] r[e][k] as int,
    ) < n && (part_of(b, gs, r[e][k] as int) == n - 1 <==> e >= s) by {
        if e < s {
            assert(part_of(b, gs, a[e][k] as int) < n - 1);
        } else {
            assert(part_of(b, gs, c[e - s][k] as int) == n - 1);
        }
    }
    assert forall|q: int| 0 <= q < gs.len() && #[trigger] part_of(b, gs, q) < n implies stands_in(
        r,
        q as usize,
    ) by {
        if part_of(b, gs, q) < n - 1 {
            assert(stands_in(a, q as usize));
            let (e, k) = choose|e: int, k: int|
                0 <= e < a.len() && 0 <= k < a[e].len() && #[trigger] a[e][k] == q as usize;
            assert(r[e][k] == q as usize);
        } else {
            lemma_part_order(category(b.placed[gs[q].root as int].role));
            assert(list.contains(q as usize));
            let i = choose|i: int| 0 <= i < list.len() && list[i] == q as usize;
            assert(stands_in(c, list[i]));
            let (e, k) = choose|e: int, k: int|
                0 <= e < c.len() && 0 <= k < c[e].len() && #[trigger] c[e][k] == q as usize;
            assert(r[s + e][k] == q as usize);
        }
    }
    assert(listed_once(r)) by {
        lemma_once_behind(a, c, b, gs, n);
    }
    assert forall|e: int, k: int, f: int, l: int|
        0 <= e < r.len() && 0 <= k < r[e].len() && 0 <= f < r.len() && 0 <= l < r[f].len()
            && part_of(b, gs, #[trigger] r[e][k] as int) < part_of(
            b,
            gs,
            #[trigger] r[f][l] as int,
        ) implies e < f by {
        if e < s && f < s {
            assert(part_of(b, gs, a[e][k] as int) < part_of(b, gs, a[f][l] as int));
        }
    }
}

proof fn lemma_once_behind(
    a: Seq<Seq<usize>>,
    c: Seq<Seq<usize>>,
    b: BoardView,
    gs: Seq<GroupView>,
    n: int,
)
    requires
        listed_once(a),
        listed_once(c),
        forall|e: int, k: int|
            0 <= e < a.len() && 0 <= k < a[e].len() ==> part_of(b, gs, #[trigger] a[e][k] as int) < n
                - 1,
        forall|e: int, k: int|
            0 <= e < c.len() && 0 <= k < c[e].len() ==> part_of(b, gs, #[trigger] c[e][k] as int)
                == n - 1,
    ensures
        listed_once(a + c),
{
    reveal(listed_once);
    let r = a + c;
    let s = a.len() as int;
    assert forall|e: int, k: int, f: int, l: int|
        0 <= e < r.len() && 0 <= f < r.len() && 0 <= k < r[e].len() && 0 <= l < r[f].len()
            && #[trigger] r[e][k] == #[trigger] r[f][l] implies e == f && k == l by {
        if e < s && f < s {
            assert(a[e][k] == a[f][l]);
        } else if e >= s && f >= s {
            assert(c[e - s][k] == c[f - s][l]);
        } else if e < s {
            assert(part_of(b, gs, a[e][k] as int) < n - 1);
            assert(part_of(b, gs, c[f - s][l] as int) == n - 1);
        } else {
            assert(part_of(b, gs, c[e - s][k] as int) == n - 1);
            assert(part_of(b, gs, a[f][l] as int) < n - 1);
        }
    }
}

proof fn lemma_flow_parts(b: BoardView, gs: Seq<GroupView>, n: int)
    requires
        gs.len() <= usize::MAX,
        0 <= n <= category_order().len(),
    ensures
        holds_parts(b, gs, flow_columns(b, gs, n), n),
    decreases n,
{
    if n > 0 {
        lemma_flow_parts(b, gs, n - 1);
        let cat = category_order()[n - 1];
        let list = flow_list(b, gs, cat);
        let wrap = wrap_height(b.cfg);
        lemma_flow_list(b, gs, cat);
        lemma_cut_holds(b.cfg, gs, list, wrap, list.len() as int);
        assert(list.take(list.len() as int) =~= list);
        let c = columns_of(b.cfg, gs, list, wrap);
        lemma_part_behind(b, gs, flow_columns(b, gs, n - 1), c, list, n);
    } else {
        reveal(holds_parts);
        reveal(listed_once);
        assert forall|q: int| 0 <= q < gs.len() implies 0 <= #[trigger] part_of(b, gs, q) by {}
    }
}

// ---------------------------------------------------------------- where columns begin and end

/// Everything is small against what a coordinate can hold: no box is wider than `wide`, and the
/// groups side by side would still fit.
pub open spec fn room_for_all(b: BoardView, gs: Seq<GroupView>, wide: int) -> bool {
    &&& gs.len() * (wide + b.cfg.col_gap_mm) <= 0x1000_0000
    &&& forall|i: int|
        0 <= i < gs.len() ==> (#[trigger] gs[i]).bbox.x1 <= gs[i].bbox.x2 && gs[i].bbox.x2
            - gs[i].bbox.x1 <= wide && -0x400_0000 <= gs[i].bbox.x1 && gs[i].bbox.x2 <= 0x400_0000
    &&& forall|i: int|
        0 <= i < b.placed.len() ==> -0x400_0000 <= (#[trigger] b.placed[i]).at.x <= 0x400_0000
}

proof fn lemma_width(gs: Seq<GroupView>, col: Seq<usize>, wide: int, n: int)
    requires
        below(col, gs.len() as int),
        0 <= wide,
        forall|i: int|
            0 <= i < gs.len() ==> (#[trigger] gs[i]).bbox.x2 - gs[i].bbox.x1 <= wide,
        0 <= n <= col.len(),
    ensures
        0 <= column_width(gs, col, n) <= wide,
        forall|k: int|
            0 <= k < n ==> gs[#[trigger] col[k] as int].bbox.x2 - gs[col[k] as int].bbox.x1
                <= column_width(gs, col, n),
    decreases n,
{
    if n > 0 {
        lemma_width(gs, col, wide, n - 1);
        assert(col[n - 1] < gs.len());
    }
}

/// There are no more columns than groups.
proof fn lemma_column_count(cols: Seq<Seq<usize>>, n: int)
    requires
        cols_ok(cols, n),
        listed_once(cols),
        0 <= n,
    ensures
        cols.len() <= n,
{
    let first = Seq::new(cols.len(), |c: int| cols[c][0] as int);
    assert(first.no_duplicates()) by {
        reveal(listed_once);
        assert forall|c: int, e: int| 0 <= c < first.len() && 0 <= e < first.len() && c != e implies first[c]
            != first[e] by {
            assert(cols[c].len() > 0 && cols[e].len() > 0);
            if first[c] == first[e] {
                assert(cols[c][0] == cols[e][0]);
            }
        }
    }
    first.unique_seq_to_set();
    vstd::set_lib::lemma_int_range(0, n);
    let all = vstd::set_lib::set_int_range(0, n);
    assert forall|v: int| first.to_set().contains(v) implies all.contains(v) by {
        let c = choose|c: int| 0 <= c < first.len() && first[c] == v;
        assert(below(cols[c], n));
        assert(cols[c][0] < n);
    }
    vstd::set_lib::lemma_len_subset(first.to_set(), all);
}

proof fn lemma_starts(
    b: BoardView,
    gs: Seq<GroupView>,
    cols: Seq<Seq<usize>>,
    x: Iu,
    wide: int,
    n: int,
)
    requires
        cols_ok(cols, gs.len() as int),
        0 <= wide,
        forall|i: int|
            0 <= i < gs.len() ==> (#[trigger] gs[i]).bbox.x2 - gs[i].bbox.x1 <= wide,
        0 <= b.cfg.col_gap_mm,
        -0x400_0000 <= x <= 0x400_0000,
        0 <= n <= cols.len() <= gs.len(),
        gs.len() * (wide + b.cfg.col_gap_mm) <= 0x1000_0000,
    ensures
        x <= column_start(b.cfg, gs, cols, x, n) <= x + n * (wide + b.cfg.col_gap_mm)
            <= 0x1400_0000,
        n > 0 ==> column_start(b.cfg, gs, cols, x, n) == column_start(b.cfg, gs, cols, x, n - 1)
            + column_width(gs, cols[n - 1], cols[n - 1].len() as int) + b.cfg.col_gap_mm,
    decreases n,
{
    let step = wide + b.cfg.col_gap_mm;
    let count = gs.len() as int;
    assert(n * step <= count * step) by (nonlinear_arith)
        requires
            n <= count,
            0 <= step,
    ;
    assert(0 <= n * step) by (nonlinear_arith)
        requires
            0 <= n,
            0 <= step,
    ;
    if n > 0 {
        lemma_starts(b, gs, cols, x, wide, n - 1);
        assert(below(cols[n - 1], gs.len() as int));
        lemma_width(gs, cols[n - 1], wide, cols[n - 1].len() as int);
        assert((n - 1) * step + step == n * step) by (nonlinear_arith);
    }
}

proof fn lemma_starts_apart(
    b: BoardView,
    gs: Seq<GroupView>,
    cols: Seq<Seq<usize>>,
    x: Iu,
    wide: int,
    c: int,
    e: int,
)
    requires
        cols_ok(cols, gs.len() as int),
        0 <= wide,
        forall|i: int|
            0 <= i < gs.len() ==> (#[trigger] gs[i]).bbox.x2 - gs[i].bbox.x1 <= wide,
        0 <= b.cfg.col_gap_mm,
        -0x400_0000 <= x <= 0x400_0000,
        0 <= c < e <= cols.len() <= gs.len(),
        gs.len() * (wide + b.cfg.col_gap_mm) <= 0x1000_0000,
    ensures
        column_start(b.cfg, gs, cols, x, c) + column_width(gs, cols[c], cols[c].len() as int)
            + b.cfg.col_gap_mm <= column_start(b.cfg, gs, cols, x, e),
    decreases e - c,
{
    lemma_starts(b, gs, cols, x, wide, e);
    if c < e - 1 {
        lemma_starts_apart(b, gs, cols, x, wide, c, e - 1);
        assert(below(cols[e - 1], gs.len() as int));
        lemma_width(gs, cols[e - 1], wide, cols[e - 1].len() as int);
    }
}

/// A group in a column lies over it, but for half a grid on either side.
proof fn lemma_over_column(cfg: SchConfig, g: BBox, start: int, w: int, y: Iu)
    requires
        0 < cfg.grid_mm <= 0x1000_0000,
        g.x1 <= g.x2,
        g.x2 - g.x1 <= w <= 0x1000_0000,
        -0x400_0000 <= g.x1,
        g.x2 <= 0x400_0000,
        -0x400_0000 <= start <= 0x1400_0000,
    ensures
        ({
            let d = group_shift(cfg, g, 2 * start + w, y).x;
            &&& 2 * start - cfg.grid_mm <= 2 * (g.x1 + d)
            &&& 2 * (g.x2 + d) <= 2 * (start + w) + cfg.grid_mm
            &&& -0x4000_0000 <= d <= 0x4000_0000
        }),
{
    let v = 2 * start + w - (g.x1 + g.x2);
    let grid = cfg.grid_mm as int;
    lemma_round_steps(v, 2 * grid);
    let q = round_steps(v, 2 * grid);
    assert(q * (2 * grid) == 2 * (q * grid)) by (nonlinear_arith);
}

// ---------------------------------------------------------------- the order of the columns

/// Groups of the first role stand left of groups of the second: connectors, then protection,
/// regulators, the controller, sensors, and the rest.
pub open spec fn stands_left(a: Role, b: Role) -> bool {
    ||| a == Role::Connector && b != Role::Connector
    ||| a == Role::Protection && b != Role::Connector && b != Role::Protection
    ||| a == Role::Regulator && b != Role::Connector && b != Role::Protection && b
        != Role::Regulator
    ||| a == Role::Mcu && b != Role::Connector && b != Role::Protection && b != Role::Regulator && b
        != Role::Mcu
    ||| a == Role::Sensor && b != Role::Connector && b != Role::Protection && b != Role::Regulator
        && b != Role::Mcu && b != Role::Sensor
}

/// How far the root of the group has moved to the right.
pub open spec fn moved_right(b: BoardView, g: GroupView, r: Seq<PlacedComp>) -> int {
    r[g.root as int].at.x - b.placed[g.root as int].at.x
}

/// The members of the group have all moved as far to the right as its root.
pub open spec fn moves_as_one(b: BoardView, g: GroupView, r: Seq<PlacedComp>) -> bool {
    forall|k: int|
        0 <= k < g.members.len() ==> (#[trigger] r[g.members[k] as int]).at.x
            - b.placed[g.members[k] as int].at.x == moved_right(b, g, r)
}

/// A group that rides to a column lies over it.
proof fn lemma_group_lands(
    b: BoardView,
    gs: Seq<GroupView>,
    r: Seq<PlacedComp>,
    q: int,
    start: int,
    w: int,
    wide: int,
)
    requires
        0 < b.cfg.grid_mm <= 0x1000_0000,
        groups_wf(gs, b.placed.len() as int),
        room_for_all(b, gs, wide),
        0 <= q < gs.len(),
        gs[q].members.contains(gs[q].root),
        gs[q].bbox.x2 - gs[q].bbox.x1 <= w <= 0x1000_0000,
        -0x400_0000 <= start <= 0x1400_0000,
        rides_to(b, gs[q], r, 2 * start + w),
    ensures
        moves_as_one(b, gs[q], r),
        2 * start - b.cfg.grid_mm <= 2 * (gs[q].bbox.x1 + moved_right(b, gs[q], r)),
        2 * (gs[q].bbox.x2 + moved_right(b, gs[q], r)) <= 2 * (start + w) + b.cfg.grid_mm,
{
    reveal(rides);
    let g = gs[q];
    let centre = 2 * start + w;
    let y = choose|y: Iu| rides(b, g, r, #[trigger] group_shift(b.cfg, g.bbox, centre, y));
    let d = group_shift(b.cfg, g.bbox, centre, y);
    lemma_over_column(b.cfg, g.bbox, start, w, y);
    assert(below(g.members, b.placed.len() as int));
    assert forall|k: int| 0 <= k < g.members.len() implies (#[trigger] r[g.members[k] as int]).at.x
        - b.placed[g.members[k] as int].at.x == d.x by {
        let m = g.members[k] as int;
        assert(g.members[k] < b.placed.len());
        assert(-0x400_0000 <= b.placed[m].at.x <= 0x400_0000);
        assert(r[m] == shifted(b.cfg, b.design, b.placed[m], d));
    }
    let k = choose|k: int| 0 <= k < g.members.len() && g.members[k] == g.root;
    assert(r[g.members[k] as int].at.x - b.placed[g.members[k] as int].at.x == d.x);
}

proof fn lemma_parts_of_roles(a: Role, b: Role)
    requires
        stands_left(a, b),
    ensures
        part(category(a)) < part(category(b)),
{
}

proof fn lemma_columns_apart(
    b: BoardView,
    gs: Seq<GroupView>,
    x: Iu,
    y: Iu,
    wide: int,
    i: int,
    j: int,
)
    requires
        0 < b.cfg.grid_mm < b.cfg.col_gap_mm,
        gs.len() <= usize::MAX,
        groups_wf(gs, b.placed.len() as int),
        groups_apart(gs),
        room_for_all(b, gs, wide),
        -0x400_0000 <= x <= 0x400_0000,
        0 <= i < gs.len(),
        0 <= j < gs.len(),
        gs[i].members.contains(gs[i].root),
        gs[j].members.contains(gs[j].root),
        part_of(b, gs, i) < part_of(b, gs, j),
    ensures
        ({
            let r = flow_placed(b, gs, x, y, 7).0;
            &&& moves_as_one(b, gs[i], r)
            &&& moves_as_one(b, gs[j], r)
            &&& gs[i].bbox.x2 + moved_right(b, gs[i], r) < gs[j].bbox.x1 + moved_right(b, gs[j], r)
        }),
{
    let cols = flow_columns(b, gs, 7);
    let n = cols.len() as int;
    let r = columns_placed(b, gs, cols, x, y, n).0;
    lemma_flow_is_one_row(b, gs, x, y, 7);
    lemma_flow_parts(b, gs, 7);
    reveal(holds_parts);
    assert(part_of(b, gs, i) < 7 && part_of(b, gs, j) < 7);
    assert(stands_in(cols, i as usize) && stands_in(cols, j as usize));
    let (c, k) = choose|c: int, k: int|
        0 <= c < cols.len() && 0 <= k < cols[c].len() && #[trigger] cols[c][k] == i as usize;
    let (e, l) = choose|e: int, l: int|
        0 <= e < cols.len() && 0 <= l < cols[e].len() && #[trigger] cols[e][l] == j as usize;
    assert(part_of(b, gs, cols[c][k] as int) < part_of(b, gs, cols[e][l] as int));
    assert(c < e);
    assert(0 <= wide) by {
        assert(gs[i].bbox.x1 <= gs[i].bbox.x2);
    }
    lemma_column_count(cols, gs.len() as int);
    lemma_starts(b, gs, cols, x, wide, c);
    lemma_starts(b, gs, cols, x, wide, e);
    lemma_starts_apart(b, gs, cols, x, wide, c, e);
    assert(below(cols[c], gs.len() as int) && below(cols[e], gs.len() as int));
    let cw = column_width(gs, cols[c], cols[c].len() as int);
    let ew = column_width(gs, cols[e], cols[e].len() as int);
    lemma_width(gs, cols[c], wide, cols[c].len() as int);
    lemma_width(gs, cols[e], wide, cols[e].len() as int);
    lemma_columns(b, gs, cols, x, y, n, i);
    lemma_columns(b, gs, cols, x, y, n, j);
    assert(!not_in(cols[c], cols[c].len() as int, i)) by {
        assert(cols[c][k] == i);
    }
    assert(!not_in(cols[e], cols[e].len() as int, j)) by {
        assert(cols[e][l] == j);
    }
    let step = wide + b.cfg.col_gap_mm;
    let count = gs.len() as int;
    assert(step <= count * step) by (nonlinear_arith)
        requires
            1 <= count,
            0 <= step,
    ;
    let cs = column_start(b.cfg, gs, cols, x, c) as int;
    let es = column_start(b.cfg, gs, cols, x, e) as int;
    assert(gs[cols[c][k] as int].bbox.x2 - gs[cols[c][k] as int].bbox.x1 <= cw);
    assert(gs[cols[e][l] as int].bbox.x2 - gs[cols[e][l] as int].bbox.x1 <= ew);
    lemma_group_lands(b, gs, r, i, cs, cw, wide);
    lemma_group_lands(b, gs, r, j, es, ew, wide);
}

/// In the columns of the flow, a group whose root is a connector ends left of where a group of any
/// other role begins; behind the connectors come protection, regulators, the controller, sensors
/// and the rest, in this order. The members of a group move with its root.
pub proof fn law_flow_runs_from_connectors(
    b: BoardView,
    gs: Seq<GroupView>,
    held: Option<BBox>,
    wide: int,
    i: int,
    j: int,
)
    requires
        0 < b.cfg.grid_mm < b.cfg.col_gap_mm,
        gs.len() <= usize::MAX,
        groups_wf(gs, b.placed.len() as int),
        groups_apart(gs),
        room_for_all(b, gs, wide),
        held matches Some(h) ==> -0x200_0000 <= h.x2 <= 0x100_0000 && b.cfg.col_gap_mm
            <= 0x100_0000,
        0 <= i < gs.len(),
        0 <= j < gs.len(),
        gs[i].members.contains(gs[i].root),
        gs[j].members.contains(gs[j].root),
        stands_left(b.placed[gs[i].root as int].role, b.placed[gs[j].root as int].role),
    ensures
        ({
            let r = in_columns(b, gs, held);
            &&& moves_as_one(b, gs[i], r)
            &&& moves_as_one(b, gs[j], r)
            &&& gs[i].bbox.x2 + moved_right(b, gs[i], r) < gs[j].bbox.x1 + moved_right(b, gs[j], r)
        }),
{
    reveal(in_columns);
    lemma_parts_of_roles(b.placed[gs[i].root as int].role, b.placed[gs[j].root as int].role);
    let (x, y) = match held {
        Some(h) => (b.cfg.spec_snap_up(h.x2 + b.cfg.col_gap_mm), h.y1),
        None => (0i32, 0i32),
    };
    if let Some(h) = held {
        lemma_ceil_steps(h.x2 + b.cfg.col_gap_mm, b.cfg.grid_mm as int);
    }
    lemma_columns_apart(b, gs, x, y, wide, i, j);
}

// ---------------------------------------------------------------- ranks

proof fn lemma_ranks_stay(b: BoardView, k: int, m: int, i: int)
    requires
        0 <= k <= m,
        0 <= i < b.placed.len(),
        ranks_upto(b, k)[i] is Some,
    ensures
        ranks_upto(b, m)[i] == ranks_upto(b, k)[i],
    decreases m - k,
{
    if k < m {
        lemma_ranks_stay(b, k, m - 1, i);
    }
}

proof fn lemma_later_ranks(b: BoardView, k: int, i: int)
    requires
        0 <= k <= usize::MAX,
        0 <= i < b.placed.len(),
    ensures
        (ranks_upto(b, k)[i] == Some(0usize)) == (b.placed[i].role == Role::Connector),
    decreases k,
{
    if k > 0 {
        lemma_later_ranks(b, k - 1, i);
    }
}

/// A rank is given at its own step.
proof fn lemma_rank_step(b: BoardView, k: int, i: int)
    requires
        0 <= k <= usize::MAX,
        0 <= i < b.placed.len(),
    ensures
        ranks_upto(b, k)[i] matches Some(r) ==> r <= k && ranks_upto(b, r as int)[i] == Some(r),
    decreases k,
{
    if k > 0 {
        lemma_rank_step(b, k - 1, i);
    }
}

/// Components of the ranks from zero to `r`, one for each.
proof fn lemma_rank_chain(b: BoardView, r: int, i: int) -> (w: Seq<int>)
    requires
        0 <= r <= b.placed.len() <= usize::MAX,
        0 <= i < b.placed.len(),
        nets_wf(b.nets, b.placed.len() as int),
        ranks(b)[i] == Some(r as usize),
    ensures
        w.len() == r + 1,
        forall|t: int|
            0 <= t <= r ==> 0 <= #[trigger] w[t] < b.placed.len() && ranks(b)[w[t]] == Some(
                t as usize,
            ),
    decreases r,
{
    if r == 0 {
        Seq::<int>::empty().push(i)
    } else {
        law_rank_is_reached(b, b.placed.len() as int, i);
        let n = choose|n: int|
            0 <= n < b.nets.len() && net_leads(#[trigger] b.nets[n], ranks(b), i, r - 1);
        let net = b.nets[n];
        let e = choose|e: int|
            0 <= e < net.endpoints@.len() && ranks(b)[(#[trigger] net.endpoints@[e]).placed as int]
                == Some((r - 1) as usize);
        assert(b.nets[n].endpoints@[e].placed < b.placed.len());
        let w = lemma_rank_chain(b, r - 1, net.endpoints@[e].placed as int);
        w.push(i)
    }
}

/// A rank is less than the number of components.
proof fn lemma_rank_small(b: BoardView, i: int)
    requires
        0 <= i < b.placed.len() <= usize::MAX,
        nets_wf(b.nets, b.placed.len() as int),
    ensures
        ranks(b)[i] matches Some(r) ==> r < b.placed.len(),
{
    lemma_rank_step(b, b.placed.len() as int, i);
    if let Some(r) = ranks(b)[i] {
        let n = b.placed.len() as int;
        let w = lemma_rank_chain(b, r as int, i);
        assert(w.no_duplicates()) by {
            assert forall|s: int, t: int| 0 <= s < w.len() && 0 <= t < w.len() && s != t implies w[s]
                != w[t] by {
                assert(ranks(b)[w[s]] == Some(s as usize));
                assert(ranks(b)[w[t]] == Some(t as usize));
            }
        }
        w.unique_seq_to_set();
        vstd::set_lib::lemma_int_range(0, n);
        let all = vstd::set_lib::set_int_range(0, n);
        assert forall|v: int| w.to_set().contains(v) implies all.contains(v) by {
            let t = choose|t: int| 0 <= t < w.len() && w[t] == v;
            assert(0 <= w[t] < n);
        }
        vstd::set_lib::lemma_len_subset(w.to_set(), all);
    }
}

/// What shares a signal with a component of some rank is at most one rank further from the
/// connectors.
pub proof fn law_rank_grows_by_one(b: BoardView, n: int, i: int, j: int)
    requires
        0 <= n < b.nets.len(),
        b.nets[n].class == NetClass::Signal,
        net_at(b.nets[n], i),
        net_at(b.nets[n], j),
        0 <= i < b.placed.len() <= usize::MAX,
        0 <= j < b.placed.len(),
        nets_wf(b.nets, b.placed.len() as int),
    ensures
        ranks(b)[i] matches Some(r) ==> ranks(b)[j] is Some && ranks(b)[j]->0 <= r + 1,
{
    if let Some(r) = ranks(b)[i] {
        let top = b.placed.len() as int;
        lemma_rank_small(b, i);
        lemma_rank_step(b, top, i);
        let before = ranks_upto(b, r as int);
        let net = b.nets[n];
        let e = choose|e: int|
            0 <= e < net.endpoints@.len() && (#[trigger] net.endpoints@[e]).placed == i;
        assert(before[net.endpoints@[e].placed as int] == Some(r));
        assert(net_at_rank(net, before, r as int));
        assert(net_leads(b.nets[n], before, j, r as int));
        assert(leads(b.nets, before, j, r as int));
        lemma_rank_step(b, r as int, j);
        assert(ranks_upto(b, r + 1)[j] is Some);
        lemma_ranks_stay(b, r + 1, top, j);
    }
}

/// The connectors, and only they, have rank zero.
pub proof fn law_connectors_have_rank_zero(b: BoardView, i: int)
    requires
        0 <= i < b.placed.len() <= usize::MAX,
    ensures
        (ranks(b)[i] == Some(0usize)) == (b.placed[i].role == Role::Connector),
{
    lemma_later_ranks(b, b.placed.len() as int, i);
}

// ---------------------------------------------------------------- the groups of a sheet

/// The members are the components of the group that were not placed by hand, in order.
proof fn lemma_free_members(placed: Seq<PlacedComp>, root: int, n: int)
    requires
        0 <= n <= placed.len() <= usize::MAX,
    ensures
        ({
            let r = free_members(placed, root, n);
            &&& forall|k: int|
                0 <= k < r.len() ==> #[trigger] r[k] < n && placed[r[k] as int].group_root == root
                    && !placed[r[k] as int].pinned
            &&& forall|k: int, l: int| 0 <= k < l < r.len() ==> #[trigger] r[k] < #[trigger] r[l]
            &&& forall|i: int|
                0 <= i < n && (#[trigger] placed[i]).group_root == root && !placed[i].pinned
                    ==> r.contains(i as usize)
        }),
    decreases n,
{
    if n > 0 {
        lemma_free_members(placed, root, n - 1);
        let before = free_members(placed, root, n - 1);
        let r = free_members(placed, root, n);
        assert forall|i: int|
            0 <= i < n && (#[trigger] placed[i]).group_root == root && !placed[i].pinned implies r.contains(
        i as usize) by {
            if i < n - 1 {
                assert(before.contains(i as usize));
                let k = choose|k: int| 0 <= k < before.len() && before[k] == i as usize;
                assert(r[k] == i as usize);
            } else {
                assert(r[r.len() - 1] == i as usize);
            }
        }
    }
}

/// The group holds the components of its root that were not placed by hand.
pub open spec fn is_group(b: BoardView, g: GroupView) -> bool {
    &&& g.root < b.placed.len()
    &&& !b.placed[g.root as int].pinned
    &&& !b.placed[g.root as int].relegated
    &&& g.members == free_members(b.placed, g.root as int, b.placed.len() as int)
}

proof fn lemma_groups(b: BoardView, n: int)
    requires
        0 <= n <= b.placed.len() <= usize::MAX,
    ensures
        ({
            let gs = flow_upto(b, n).groups;
            &&& gs.len() <= n
            &&& forall|i: int|
                0 <= i < gs.len() ==> is_group(b, #[trigger] gs[i]) && gs[i].root < n
            &&& forall|i: int, j: int|
                0 <= i < j < gs.len() ==> (#[trigger] gs[i]).root < (#[trigger] gs[j]).root
        }),
    decreases n,
{
    if n > 0 {
        lemma_groups(b, n - 1);
    }
}

/// The groups of a sheet share no component; each lists what belongs to its root and was not
/// placed by hand, and nothing else.
pub proof fn law_groups_share_no_part(b: BoardView)
    requires
        b.placed.len() <= usize::MAX,
    ensures
        ({
            let gs = flow_upto(b, b.placed.len() as int).groups;
            &&& gs.len() <= b.placed.len()
            &&& groups_wf(gs, b.placed.len() as int)
            &&& groups_apart(gs)
            &&& forall|i: int, c: int|
                #![trigger gs[i].members.contains(c as usize)]
                0 <= i < gs.len() && 0 <= c < b.placed.len() ==> (gs[i].members.contains(c as usize)
                    <==> b.placed[c].group_root == gs[i].root && !b.placed[c].pinned)
        }),
{
    reveal(groups_apart);
    let n = b.placed.len() as int;
    let gs = flow_upto(b, n).groups;
    lemma_groups(b, n);
    assert forall|i: int| 0 <= i < gs.len() implies (#[trigger] gs[i]).root < n && below(
        gs[i].members,
        n,
    ) by {
        assert(is_group(b, gs[i]));
        lemma_free_members(b.placed, gs[i].root as int, n);
    }
    assert forall|i: int, k: int, j: int, l: int|
        0 <= i < gs.len() && 0 <= j < gs.len() && 0 <= k < gs[i].members.len() && 0 <= l
            < gs[j].members.len() && #[trigger] gs[i].members[k] == #[trigger] gs[j].members[l] implies i
        == j && k == l by {
        assert(is_group(b, gs[i]) && is_group(b, gs[j]));
        lemma_free_members(b.placed, gs[i].root as int, n);
        lemma_free_members(b.placed, gs[j].root as int, n);
        if i < j {
            assert(gs[i].root < gs[j].root);
        } else if j < i {
            assert(gs[j].root < gs[i].root);
        } else if k < l {
            assert(gs[i].members[k] < gs[i].members[l]);
        } else if l < k {
            assert(gs[i].members[l] < gs[i].members[k]);
        }
    }
    assert forall|i: int, c: int|
        #![trigger gs[i].members.contains(c as usize)]
        0 <= i < gs.len() && 0 <= c < b.placed.len() implies (gs[i].members.contains(c as usize)
        <==> b.placed[c].group_root == gs[i].root && !b.placed[c].pinned) by {
        assert(is_group(b, gs[i]));
        lemma_free_members(b.placed, gs[i].root as int, n);
    }
}

} // verus!
