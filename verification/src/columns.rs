//! The main flow: groups stacked in columns, from connectors on the left to the rest.

use vstd::prelude::*;
use crate::anchors::{below, refdes_of};
use crate::compose::{
    lemma_same_parts, lemma_same_parts_update, same_part, same_parts,
};
use crate::arrange::{lemma_parts_refl, sized};
use crate::config::{Paper, SchConfig};
use crate::geometry::BBox;
use crate::model::{DesignModel, NetClass, Role};
use crate::order::{
    lemma_sorted_items, natural_compare, natural_order, rows, sort_by, sorted_by,
};
use crate::orientation::with_placed;
use crate::place::{placed_wf, solid_box_for, PlacedComp, SheetNet};
use crate::texts::{nets_wf, Board, BoardView};
use crate::units::{sat, snap_half, spec_max, spec_snap_half, to_iu, Iu, Point};

verus! {

/// Part of the flow that a component belongs to, in the order of the columns.
#[derive(Clone, Copy, Debug, PartialEq, Eq, Structural)]
pub enum Category {
    ConnLeft,
    Protection,
    Regulator,
    Mcu,
    Sensor,
    Other,
    ConnRight,
}

pub open spec fn category(role: Role) -> Category {
    match role {
        Role::Connector => Category::ConnLeft,
        Role::Protection => Category::Protection,
        Role::Regulator => Category::Regulator,
        Role::Mcu => Category::Mcu,
        Role::Sensor => Category::Sensor,
        _ => Category::Other,
    }
}

/// The part of the flow that a role belongs to.
pub fn categorize(role: Role) -> (r: Category)
    ensures
        r == category(role),
{
    match role {
        Role::Connector => Category::ConnLeft,
        Role::Protection => Category::Protection,
        Role::Regulator => Category::Regulator,
        Role::Mcu => Category::Mcu,
        Role::Sensor => Category::Sensor,
        _ => Category::Other,
    }
}

/// The columns from left to right.
pub open spec fn category_order() -> Seq<Category> {
    seq![
        Category::ConnLeft,
        Category::Protection,
        Category::Regulator,
        Category::Mcu,
        Category::Sensor,
        Category::Other,
        Category::ConnRight,
    ]
}

// ---------------------------------------------------------------- distance from the connectors

/// The net is a signal and joins component `i` to one of rank `k`.
pub open spec fn net_leads(net: SheetNet, rank: Seq<Option<usize>>, i: int, k: int) -> bool {
    net.class == NetClass::Signal && net_at(net, i) && net_at_rank(net, rank, k)
}

pub open spec fn net_at(net: SheetNet, i: int) -> bool {
    exists|e: int| 0 <= e < net.endpoints@.len() && (#[trigger] net.endpoints@[e]).placed == i
}

pub open spec fn net_at_rank(net: SheetNet, rank: Seq<Option<usize>>, k: int) -> bool {
    exists|e: int|
        0 <= e < net.endpoints@.len() && rank[(#[trigger] net.endpoints@[e]).placed as int]
            == Some(k as usize)
}

/// A signal joins component `i` to one of rank `k`.
pub open spec fn leads(nets: Seq<SheetNet>, rank: Seq<Option<usize>>, i: int, k: int) -> bool {
    exists|n: int| 0 <= n < nets.len() && net_leads(#[trigger] nets[n], rank, i, k)
}

/// The distances from the connectors, counted in signals, as far as they are at most `k`.
pub open spec fn ranks_upto(b: BoardView, k: int) -> Seq<Option<usize>>
    decreases k,
{
    if k <= 0 {
        Seq::new(
            b.placed.len(),
            |i: int|
                if category(b.placed[i].role) == Category::ConnLeft {
                    Some(0usize)
                } else {
                    None
                },
        )
    } else {
        let before = ranks_upto(b, k - 1);
        Seq::new(
            b.placed.len(),
            |i: int|
                if before[i] is Some {
                    before[i]
                } else if leads(b.nets, before, i, k - 1) {
                    Some(k as usize)
                } else {
                    None
                },
        )
    }
}

/// The distance of every component from the nearest connector, where there is a way.
pub open spec fn ranks(b: BoardView) -> Seq<Option<usize>> {
    ranks_upto(b, b.placed.len() as int)
}

proof fn lemma_rank_bound(b: BoardView, k: int)
    requires
        0 <= k <= usize::MAX,
    ensures
        ranks_upto(b, k).len() == b.placed.len(),
        forall|i: int|
            0 <= i < b.placed.len() ==> (#[trigger] ranks_upto(b, k)[i] matches Some(r) ==> r <= k),
    decreases k,
{
    if k > 0 {
        lemma_rank_bound(b, k - 1);
    }
}

/// Once a distance adds nothing, no greater one does.
proof fn lemma_ranks_settle(b: BoardView, k: int, m: int)
    requires
        0 <= k < m,
        m <= usize::MAX,
        nets_wf(b.nets, b.placed.len() as int),
        ranks_upto(b, k + 1) == ranks_upto(b, k),
    ensures
        ranks_upto(b, m) == ranks_upto(b, k),
    decreases m - k,
{
    if m > k + 1 {
        lemma_ranks_settle(b, k, m - 1);
        lemma_rank_bound(b, k);
        let before = ranks_upto(b, m - 1);
        assert(before == ranks_upto(b, k));
        let low = m - 1;
        assert forall|i: int| 0 <= i < b.placed.len() implies !#[trigger] leads(
            b.nets,
            before,
            i,
            low,
        ) by {
            if leads(b.nets, before, i, low) {
                let n = choose|n: int|
                    0 <= n < b.nets.len() && net_leads(#[trigger] b.nets[n], before, i, m - 1);
                let net = b.nets[n];
                let e = choose|e: int|
                    0 <= e < net.endpoints@.len() && before[(
                    #[trigger] net.endpoints@[e]).placed as int] == Some((m - 1) as usize);
                assert(b.nets[n].endpoints@[e].placed < b.placed.len());
                assert(before[net.endpoints@[e].placed as int] matches Some(r) ==> r <= k);
            }
        }
        assert(ranks_upto(b, m) =~= before);
    }
}

/// A component of rank `r` greater than zero shares a signal with one of rank `r - 1`.
pub proof fn law_rank_is_reached(b: BoardView, k: int, i: int)
    requires
        0 <= k <= usize::MAX,
        0 <= i < b.placed.len(),
        nets_wf(b.nets, b.placed.len() as int),
    ensures
        ranks_upto(b, k)[i] matches Some(r) ==> r == 0 || leads(
            b.nets,
            ranks_upto(b, k),
            i,
            r - 1,
        ),
    decreases k,
{
    if k > 0 {
        law_rank_is_reached(b, k - 1, i);
        let before = ranks_upto(b, k - 1);
        let now = ranks_upto(b, k);
        if let Some(r) = now[i] {
            if r > 0 {
                assert(leads(b.nets, before, i, r - 1));
                let n = choose|n: int|
                    0 <= n < b.nets.len() && net_leads(#[trigger] b.nets[n], before, i, r - 1);
                let net = b.nets[n];
                let e = choose|e: int|
                    0 <= e < net.endpoints@.len() && before[(
                    #[trigger] net.endpoints@[e]).placed as int] == Some((r - 1) as usize);
                assert(b.nets[n].endpoints@[e].placed < b.placed.len());
                assert(now[net.endpoints@[e].placed as int] == Some((r - 1) as usize));
                assert(net_leads(b.nets[n], now, i, r - 1));
            }
        }
    }
}

fn is_led(b: &Board, rank: &Vec<Option<usize>>, i: usize, k: usize) -> (r: bool)
    requires
        b.wf(),
        rank@.len() == b.placed@.len(),
    ensures
        r == leads(b.nets@, rank@, i as int, k as int),
{
    let mut n: usize = 0;
    while n < b.nets.len()
        invariant
            n <= b.nets.len(),
            b.wf(),
            rank@.len() == b.placed@.len(),
            forall|m: int|
                0 <= m < n ==> !net_leads(#[trigger] b.nets@[m], rank@, i as int, k as int),
        decreases b.nets.len() - n,
    {
        let net: &SheetNet = &b.nets[n];
        if net.class == NetClass::Signal {
            let mut here: bool = false;
            let mut there: bool = false;
            let mut e: usize = 0;
            while e < net.endpoints.len()
                invariant
                    e <= net.endpoints.len(),
                    n < b.nets@.len(),
                    *net == b.nets@[n as int],
                    b.wf(),
                    rank@.len() == b.placed@.len(),
                    here == exists|f: int|
                        0 <= f < e && (#[trigger] net.endpoints@[f]).placed == i,
                    there == exists|f: int|
                        0 <= f < e && rank@[(#[trigger] net.endpoints@[f]).placed as int] == Some(
                            k,
                        ),
                decreases net.endpoints.len() - e,
            {
                proof {
                    assert(b.nets@[n as int].endpoints@[e as int].placed < b.placed@.len());
                }
                let o: usize = net.endpoints[e].placed;
                if o == i {
                    here = true;
                }
                match rank[o] {
                    Some(r) => {
                        if r == k {
                            there = true;
                        }
                    },
                    None => {},
                }
                e = e + 1;
            }
            if here && there {
                proof {
                    assert(net_leads(b.nets@[n as int], rank@, i as int, k as int));
                }
                return true;
            }
        }
        n = n + 1;
    }
    false
}

/// The distance of every component from the nearest connector, counted in signals.
pub fn bfs_ranks(b: &Board) -> (r: Vec<Option<usize>>)
    requires
        b.wf(),
    ensures
        r@ == ranks(b@),
        r@.len() == b.placed@.len(),
{
    let mut rank: Vec<Option<usize>> = Vec::new();
    let mut i: usize = 0;
    while i < b.placed.len()
        invariant
            i <= b.placed.len(),
            rank@ =~= ranks_upto(b@, 0).take(i as int),
        decreases b.placed.len() - i,
    {
        rank.push(
            if categorize(b.placed[i].role) == Category::ConnLeft {
                Some(0)
            } else {
                None
            },
        );
        i = i + 1;
    }
    proof {
        assert(rank@ =~= ranks_upto(b@, 0));
    }
    let mut k: usize = 0;
    while k < b.placed.len()
        invariant
            k <= b.placed.len(),
            b.wf(),
            rank@ == ranks_upto(b@, k as int),
            rank@.len() == b.placed@.len(),
        decreases b.placed.len() - k,
    {
        let mut next: Vec<Option<usize>> = Vec::new();
        let mut grew: bool = false;
        let mut i: usize = 0;
        while i < b.placed.len()
            invariant
                i <= b.placed.len(),
                k < b.placed.len(),
                b.wf(),
                rank@ == ranks_upto(b@, k as int),
                rank@.len() == b.placed@.len(),
                next@ =~= ranks_upto(b@, k + 1).take(i as int),
                !grew ==> next@ =~= rank@.take(i as int),
            decreases b.placed.len() - i,
        {
            let was: Option<usize> = rank[i];
            if was.is_none() && is_led(b, &rank, i, k) {
                grew = true;
                next.push(Some(k + 1));
            } else {
                next.push(was);
            }
            i = i + 1;
        }
        proof {
            assert(next@ =~= ranks_upto(b@, k + 1));
            if !grew {
                assert(next@ =~= rank@);
                lemma_ranks_settle(b@, k as int, b.placed@.len() as int);
            }
        }
        if !grew {
            return rank;
        }
        rank = next;
        k = k + 1;
    }
    rank
}

// ---------------------------------------------------------------- columns

/// A group: its root, its members and the box that it takes.
#[derive(Debug)]
pub struct Group {
    pub root: usize,
    pub members: Vec<usize>,
    pub bbox: BBox,
}

pub struct GroupView {
    pub root: usize,
    pub members: Seq<usize>,
    pub bbox: BBox,
}

impl View for Group {
    type V = GroupView;

    open spec fn view(&self) -> GroupView {
        GroupView { root: self.root, members: self.members@, bbox: self.bbox }
    }
}

pub open spec fn group_views(v: Seq<Group>) -> Seq<GroupView> {
    Seq::new(v.len(), |i: int| v[i]@)
}

/// Roots and members are placed components.
pub open spec fn groups_wf(gs: Seq<GroupView>, n: int) -> bool {
    forall|i: int|
        0 <= i < gs.len() ==> (#[trigger] gs[i]).root < n && below(gs[i].members, n)
}

/// Those of the first `n` groups whose root belongs to the part of the flow.
pub open spec fn groups_in(b: BoardView, gs: Seq<GroupView>, cat: Category, n: int) -> Seq<usize>
    decreases n,
{
    if n <= 0 || n > gs.len() {
        Seq::empty()
    } else {
        let before = groups_in(b, gs, cat, n - 1);
        if category(b.placed[gs[n - 1].root as int].role) == cat {
            before.push((n - 1) as usize)
        } else {
            before
        }
    }
}

pub open spec fn rank_or_last(rank: Option<usize>) -> usize {
    match rank {
        Some(r) => r,
        None => usize::MAX,
    }
}

/// Group `x` comes below group `y`: by distance from the connectors, then by name.
pub open spec fn group_after(b: BoardView, gs: Seq<GroupView>, rank: Seq<Option<usize>>) -> spec_fn(
    usize,
    usize,
) -> bool {
    |x: usize, y: usize|
        {
            let p = gs[x as int].root as int;
            let q = gs[y as int].root as int;
            let a = rank_or_last(rank[p]);
            let c = rank_or_last(rank[q]);
            a > c || (a == c && natural_order(refdes_of(b, p), refdes_of(b, q)) > 0)
        }
}

/// Groups cut into columns: the finished ones, the open one, and the height that it has.
pub struct Cut {
    pub done: Seq<Seq<usize>>,
    pub open: Seq<usize>,
    pub height: int,
}

/// The first `n` groups of the list cut into columns of at most the given height.
pub open spec fn cut_upto(cfg: SchConfig, gs: Seq<GroupView>, list: Seq<usize>, wrap: int, n: int) -> Cut
    decreases n,
{
    if n <= 0 || n > list.len() {
        Cut { done: Seq::empty(), open: Seq::empty(), height: 0 }
    } else {
        let c = cut_upto(cfg, gs, list, wrap, n - 1);
        let g = gs[list[n - 1] as int].bbox;
        let h = g.y2 - g.y1;
        if c.open.len() > 0 && c.height + h > wrap {
            Cut {
                done: c.done.push(c.open),
                open: seq![list[n - 1]],
                height: h + cfg.row_gap_mm,
            }
        } else {
            Cut {
                done: c.done,
                open: c.open.push(list[n - 1]),
                height: c.height + h + cfg.row_gap_mm,
            }
        }
    }
}

pub open spec fn columns_of(cfg: SchConfig, gs: Seq<GroupView>, list: Seq<usize>, wrap: int) -> Seq<
    Seq<usize>,
> {
    let c = cut_upto(cfg, gs, list, wrap, list.len() as int);
    if c.open.len() > 0 {
        c.done.push(c.open)
    } else {
        c.done
    }
}

/// The height of a column: that of the page without its margins, A3 unless a paper is chosen.
pub open spec fn wrap_height(cfg: SchConfig) -> int {
    let paper = if cfg.paper == Paper::Auto {
        Paper::A3
    } else {
        cfg.paper
    };
    spec_max(paper.spec_size().1 - 2 * cfg.margin_top_mm, 800000)
}

/// The width of the widest of the first `n` groups of a column.
pub open spec fn column_width(gs: Seq<GroupView>, col: Seq<usize>, n: int) -> int
    decreases n,
{
    if n <= 0 || n > col.len() {
        0
    } else {
        let g = gs[col[n - 1] as int].bbox;
        spec_max(column_width(gs, col, n - 1), g.x2 - g.x1)
    }
}

/// The component moved by `d`, with its extent.
pub open spec fn shifted(cfg: SchConfig, design: DesignModel, p: PlacedComp, d: Point) -> PlacedComp {
    sized(
        cfg,
        design,
        PlacedComp { at: Point { x: sat(p.at.x + d.x), y: sat(p.at.y + d.y) }, ..p },
    )
}

/// The first `n` members moved by `d`.
pub open spec fn members_shifted(b: BoardView, members: Seq<usize>, d: Point, n: int) -> Seq<PlacedComp>
    decreases n,
{
    if n <= 0 || n > members.len() {
        b.placed
    } else {
        let before = members_shifted(b, members, d, n - 1);
        let m = members[n - 1] as int;
        before.update(m, shifted(b.cfg, b.design, before[m], d))
    }
}

/// Where the groups of a column go: centred on the column, one under the other from `y`.
pub open spec fn group_shift(cfg: SchConfig, g: BBox, centre: int, y: Iu) -> Point {
    Point {
        x: spec_snap_half(centre - (g.x1 + g.x2), cfg.grid_mm as int),
        y: cfg.spec_snap(y - g.y1),
    }
}

/// The first `n` groups of a column in place, and the height where the next one goes. `centre`
/// is twice the middle of the column.
pub open spec fn column_placed(
    b: BoardView,
    gs: Seq<GroupView>,
    col: Seq<usize>,
    centre: int,
    y: Iu,
    n: int,
) -> (Seq<PlacedComp>, Iu)
    decreases n,
{
    if n <= 0 || n > col.len() {
        (b.placed, y)
    } else {
        let before = column_placed(b, gs, col, centre, y, n - 1);
        let g = gs[col[n - 1] as int];
        let d = group_shift(b.cfg, g.bbox, centre, before.1);
        (
            members_shifted(with_placed(b, before.0), g.members, d, g.members.len() as int),
            sat(sat(g.bbox.y2 + d.y) + b.cfg.row_gap_mm),
        )
    }
}

/// The first `n` columns in place from `x` on, and where the next one goes.
pub open spec fn columns_placed(
    b: BoardView,
    gs: Seq<GroupView>,
    cols: Seq<Seq<usize>>,
    x: Iu,
    y: Iu,
    n: int,
) -> (Seq<PlacedComp>, Iu)
    decreases n,
{
    if n <= 0 || n > cols.len() {
        (b.placed, x)
    } else {
        let before = columns_placed(b, gs, cols, x, y, n - 1);
        let col = cols[n - 1];
        let w = column_width(gs, col, col.len() as int);
        (
            column_placed(
                with_placed(b, before.0),
                gs,
                col,
                2 * before.1 + w,
                y,
                col.len() as int,
            ).0,
            sat(before.1 + w + b.cfg.col_gap_mm),
        )
    }
}

/// The groups of one part of the flow, in the order of their columns.
pub open spec fn flow_list(b: BoardView, gs: Seq<GroupView>, cat: Category) -> Seq<usize> {
    sorted_by(groups_in(b, gs, cat, gs.len() as int), group_after(b, gs, ranks(b)))
}

/// The first `n` parts of the flow in place from `x` on, and where the next one goes.
pub open spec fn flow_placed(b: BoardView, gs: Seq<GroupView>, x: Iu, y: Iu, n: int) -> (
    Seq<PlacedComp>,
    Iu,
)
    decreases n,
{
    if n <= 0 || n > category_order().len() {
        (b.placed, x)
    } else {
        let before = flow_placed(b, gs, x, y, n - 1);
        let cols = columns_of(
            b.cfg,
            gs,
            flow_list(b, gs, category_order()[n - 1]),
            wrap_height(b.cfg),
        );
        columns_placed(with_placed(b, before.0), gs, cols, before.1, y, cols.len() as int)
    }
}

/// All groups in columns; to the right of what was placed by hand, where there is any.
#[verifier::opaque]
pub open spec fn in_columns(b: BoardView, gs: Seq<GroupView>, held: Option<BBox>) -> Seq<PlacedComp> {
    let (x, y) = match held {
        Some(h) => (b.cfg.spec_snap_up(h.x2 + b.cfg.col_gap_mm), h.y1),
        None => (0i32, 0i32),
    };
    flow_placed(b, gs, x, y, 7).0
}

fn list_groups_in(b: &Board, gs: &Vec<Group>, cat: Category) -> (r: Vec<usize>)
    requires
        groups_wf(group_views(gs@), b.placed@.len() as int),
    ensures
        r@ == groups_in(b@, group_views(gs@), cat, gs@.len() as int),
        below(r@, gs@.len() as int),
{
    let ghost gv = group_views(gs@);
    let mut out: Vec<usize> = Vec::new();
    let mut n: usize = 0;
    while n < gs.len()
        invariant
            n <= gs.len(),
            gv == group_views(gs@),
            groups_wf(gv, b.placed@.len() as int),
            out@ == groups_in(b@, gv, cat, n as int),
            below(out@, gs@.len() as int),
        decreases gs.len() - n,
    {
        proof {
            assert(gv[n as int] == gs@[n as int]@);
            assert(gv[n as int].root < b.placed@.len());
        }
        if categorize(b.placed[gs[n].root].role) == cat {
            out.push(n);
        }
        n = n + 1;
    }
    out
}

fn sort_groups(b: &Board, gs: &Vec<Group>, rank: &Vec<Option<usize>>, list: &Vec<usize>) -> (r: Vec<
    usize,
>)
    requires
        b.wf(),
        groups_wf(group_views(gs@), b.placed@.len() as int),
        rank@.len() == b.placed@.len(),
        below(list@, gs@.len() as int),
    ensures
        r@ == sorted_by(list@, group_after(b@, group_views(gs@), rank@)),
        below(r@, gs@.len() as int),
{
    let mut key: Vec<(usize, usize)> = Vec::new();
    let design: &DesignModel = b.design;
    let ghost gv = group_views(gs@);
    let ghost bv = b@;
    let mut n: usize = 0;
    while n < gs.len()
        invariant
            n <= gs.len(),
            b.wf(),
            design == b.design,
            gv == group_views(gs@),
            groups_wf(gv, b.placed@.len() as int),
            rank@.len() == b.placed@.len(),
            key@.len() == n,
            forall|i: int|
                0 <= i < n ==> (#[trigger] key@[i]).0 == rank_or_last(rank@[gv[i].root as int])
                    && key@[i].1 == b.placed@[gv[i].root as int].comp && key@[i].1
                    < design.comps@.len(),
        decreases gs.len() - n,
    {
        proof {
            assert(gv[n as int] == gs@[n as int]@);
            assert(gv[n as int].root < b.placed@.len());
            assert(b.placed@[gv[n as int].root as int].comp < b.design.comps@.len());
        }
        let root: usize = gs[n].root;
        let r: usize = match rank[root] {
            Some(r) => r,
            None => usize::MAX,
        };
        key.push((r, b.placed[root].comp));
        n = n + 1;
    }
    let ghost gt = group_after(bv, gv, rank@);
    let after = |x: usize, y: usize| -> (r: bool)
        requires
            x < key@.len(),
            y < key@.len(),
            key@[x as int].1 < design.comps@.len(),
            key@[y as int].1 < design.comps@.len(),
        ensures
            r == (key@[x as int].0 > key@[y as int].0 || (key@[x as int].0 == key@[y as int].0
                && natural_order(
                design.comps@[key@[x as int].1 as int].refdes@,
                design.comps@[key@[y as int].1 as int].refdes@,
            ) > 0)),
        {
            key[x].0 > key[y].0 || (key[x].0 == key[y].0 && natural_compare(
                design.comps[key[x].1].refdes.as_str(),
                design.comps[key[y].1].refdes.as_str(),
            ) > 0)
        };
    let ghost keyed = |x: usize, y: usize|
        key@[x as int].0 > key@[y as int].0 || (key@[x as int].0 == key@[y as int].0
            && natural_order(
            design.comps@[key@[x as int].1 as int].refdes@,
            design.comps@[key@[y as int].1 as int].refdes@,
        ) > 0);
    let r: Vec<usize> = sort_by(list, after, Ghost(keyed));
    proof {
        lemma_sorted_items(list@, keyed, |i: usize| i < gs@.len());
        assert forall|i: int| 0 <= i < r@.len() implies #[trigger] r@[i] < gs@.len() by {
            assert((|i: usize| i < gs@.len())(r@[i]));
        }
        lemma_sort_agrees(list@, keyed, gt, gs@.len() as int);
    }
    r
}

/// Two comparisons that agree on the items sort alike.
pub proof fn lemma_sort_agrees(
    s: Seq<usize>,
    f: spec_fn(usize, usize) -> bool,
    g: spec_fn(usize, usize) -> bool,
    top: int,
)
    requires
        below(s, top),
        forall|a: usize, c: usize| a < top && c < top ==> #[trigger] f(a, c) == g(a, c),
    ensures
        sorted_by(s, f) == sorted_by(s, g),
    decreases s.len(),
{
    if s.len() > 0 {
        let p = s.drop_last();
        assert forall|i: int| 0 <= i < p.len() implies #[trigger] p[i] < top by {
            assert(p[i] == s[i]);
        }
        lemma_sort_agrees(p, f, g, top);
        lemma_sorted_items(p, f, |i: usize| i < top);
        let t = sorted_by(p, f);
        assert forall|i: int| 0 <= i < t.len() implies #[trigger] t[i] < top by {
            assert((|i: usize| i < top)(t[i]));
        }
        assert(s.last() < top);
        lemma_insert_agrees(t, s.last(), f, g, 0, top);
    }
}

proof fn lemma_insert_agrees(
    s: Seq<usize>,
    x: usize,
    f: spec_fn(usize, usize) -> bool,
    g: spec_fn(usize, usize) -> bool,
    from: int,
    top: int,
)
    requires
        below(s, top),
        x < top,
        forall|a: usize, c: usize| a < top && c < top ==> #[trigger] f(a, c) == g(a, c),
    ensures
        crate::order::insert_from(s, x, f, from) == crate::order::insert_from(s, x, g, from),
    decreases s.len() - from,
{
    if 0 <= from < s.len() {
        assert(s[from] < top);
        assert(f(s[from], x) == g(s[from], x));
        if !f(s[from], x) {
            lemma_insert_agrees(s, x, f, g, from + 1, top);
        }
    }
}

fn cut_columns(cfg: &SchConfig, gs: &Vec<Group>, list: &Vec<usize>, wrap: i128) -> (r: Vec<
    Vec<usize>,
>)
    requires
        below(list@, gs@.len() as int),
    ensures
        rows(r@) == columns_of(*cfg, group_views(gs@), list@, wrap as int),
        forall|i: int| 0 <= i < r@.len() ==> below((#[trigger] r@[i])@, gs@.len() as int),
{
    let ghost gv = group_views(gs@);
    let mut done: Vec<Vec<usize>> = Vec::new();
    let mut open: Vec<usize> = Vec::new();
    let mut height: i128 = 0;
    let mut n: usize = 0;
    proof {
        assert(rows(done@) =~= Seq::empty());
    }
    while n < list.len()
        invariant
            n <= list.len(),
            gv == group_views(gs@),
            below(list@, gs@.len() as int),
            rows(done@) == cut_upto(*cfg, gv, list@, wrap as int, n as int).done,
            open@ == cut_upto(*cfg, gv, list@, wrap as int, n as int).open,
            height == cut_upto(*cfg, gv, list@, wrap as int, n as int).height,
            -0x2_0000_0000 * n <= height <= 0x2_0000_0000 * n,
            forall|i: int| 0 <= i < done@.len() ==> below((#[trigger] done@[i])@, gs@.len() as int),
            below(open@, gs@.len() as int),
        decreases list.len() - n,
    {
        let gi: usize = list[n];
        proof {
            assert(gv[gi as int] == gs@[gi as int]@);
        }
        let h: i128 = gs[gi].bbox.y2 as i128 - gs[gi].bbox.y1 as i128;
        if open.len() > 0 && height + h > wrap {
            let mut one: Vec<usize> = vec![gi];
            let ghost before = rows(done@);
            let ghost was = open@;
            proof {
                assert(one@ =~= seq![gi]);
            }
            std::mem::swap(&mut open, &mut one);
            done.push(one);
            proof {
                assert(rows(done@) =~= before.push(was));
            }
            height = h + cfg.row_gap_mm as i128;
        } else {
            open.push(gi);
            height = height + h + cfg.row_gap_mm as i128;
        }
        n = n + 1;
    }
    if open.len() > 0 {
        let ghost before = rows(done@);
        let ghost was = open@;
        done.push(open);
        proof {
            assert(rows(done@) =~= before.push(was));
        }
    }
    done
}

fn shift_members(
    cfg: &SchConfig,
    design: &DesignModel,
    placed: &mut Vec<PlacedComp>,
    members: &Vec<usize>,
    d: Point,
    Ghost(b): Ghost<BoardView>,
)
    requires
        b.cfg == *cfg,
        b.design == *design,
        b.placed == old(placed)@,
        b.wf(),
        below(members@, b.placed.len() as int),
    ensures
        final(placed)@ == members_shifted(b, members@, d, members@.len() as int),
        same_parts(final(placed)@, b.placed),
{
    let mut n: usize = 0;
    proof {
        lemma_parts_refl(b.placed);
    }
    while n < members.len()
        invariant
            n <= members.len(),
            b.cfg == *cfg,
            b.design == *design,
            b.wf(),
            below(members@, b.placed.len() as int),
            placed@ == members_shifted(b, members@, d, n as int),
            same_parts(placed@, b.placed),
        decreases members.len() - n,
    {
        let m: usize = members[n];
        proof {
            assert(same_part(placed@[m as int], b.placed[m as int]));
            assert(b.placed[m as int].comp < b.design.comps@.len());
        }
        let p: PlacedComp = placed[m];
        let q: PlacedComp = shift_one(cfg, design, &p, d);
        proof {
            lemma_same_parts_update(placed@, b.placed, m as int, q);
        }
        placed.set(m, q);
        n = n + 1;
    }
}

/// The component moved by `d`, with its extent.
pub fn shift_one(cfg: &SchConfig, design: &DesignModel, p: &PlacedComp, d: Point) -> (r: PlacedComp)
    requires
        p.comp < design.comps@.len(),
    ensures
        r == shifted(*cfg, *design, *p, d),
{
    let q: PlacedComp = PlacedComp {
        at: Point {
            x: to_iu(p.at.x as i64 + d.x as i64),
            y: to_iu(p.at.y as i64 + d.y as i64),
        },
        ..*p
    };
    PlacedComp { bbox: solid_box_for(cfg, design, &q), ..q }
}

/// Put the columns of one part of the flow in place; where the next column goes.
fn place_columns_of(
    cfg: &SchConfig,
    design: &DesignModel,
    placed: &mut Vec<PlacedComp>,
    gs: &Vec<Group>,
    cols: &Vec<Vec<usize>>,
    x: Iu,
    y: Iu,
    Ghost(b): Ghost<BoardView>,
) -> (r: Iu)
    requires
        b.cfg == *cfg,
        b.design == *design,
        b.placed == old(placed)@,
        b.wf(),
        groups_wf(group_views(gs@), b.placed.len() as int),
        forall|i: int| 0 <= i < cols@.len() ==> below((#[trigger] cols@[i])@, gs@.len() as int),
    ensures
        (final(placed)@, r) == columns_placed(
            b,
            group_views(gs@),
            rows(cols@),
            x,
            y,
            cols@.len() as int,
        ),
        same_parts(final(placed)@, b.placed),
{
    let ghost gv = group_views(gs@);
    let mut x: Iu = x;
    let ghost x0 = x;
    let mut c: usize = 0;
    proof {
        lemma_parts_refl(b.placed);
    }
    while c < cols.len()
        invariant
            c <= cols.len(),
            b.cfg == *cfg,
            b.design == *design,
            b.wf(),
            gv == group_views(gs@),
            groups_wf(gv, b.placed.len() as int),
            forall|i: int| 0 <= i < cols@.len() ==> below((#[trigger] cols@[i])@, gs@.len() as int),
            (placed@, x) == columns_placed(b, gv, rows(cols@), x0, y, c as int),
            same_parts(placed@, b.placed),
        decreases cols.len() - c,
    {
        let col: &Vec<usize> = &cols[c];
        let w: i64 = width_of_column(gs, col);
        let centre: i64 = 2 * x as i64 + w;
        let ghost p0 = placed@;
        proof {
            lemma_same_parts(b, p0);
            assert(rows(cols@)[c as int] == col@);
        }
        place_column(cfg, design, placed, gs, col, centre, y, Ghost(with_placed(b, p0)));
        proof {
            crate::compose::lemma_same_parts_trans(placed@, p0, b.placed);
        }
        x = to_iu(x as i64 + w + cfg.col_gap_mm as i64);
        c = c + 1;
    }
    x
}

fn width_of_column(gs: &Vec<Group>, col: &Vec<usize>) -> (r: i64)
    requires
        below(col@, gs@.len() as int),
    ensures
        r == column_width(group_views(gs@), col@, col@.len() as int),
        0 <= r <= 0x1_0000_0000,
{
    let ghost gv = group_views(gs@);
    let mut w: i64 = 0;
    let mut n: usize = 0;
    while n < col.len()
        invariant
            n <= col.len(),
            gv == group_views(gs@),
            below(col@, gs@.len() as int),
            w == column_width(gv, col@, n as int),
            0 <= w <= 0x1_0000_0000,
        decreases col.len() - n,
    {
        let gi: usize = col[n];
        proof {
            assert(gv[gi as int] == gs@[gi as int]@);
        }
        let own: i64 = gs[gi].bbox.x2 as i64 - gs[gi].bbox.x1 as i64;
        if own > w {
            w = own;
        }
        n = n + 1;
    }
    w
}

fn place_column(
    cfg: &SchConfig,
    design: &DesignModel,
    placed: &mut Vec<PlacedComp>,
    gs: &Vec<Group>,
    col: &Vec<usize>,
    centre: i64,
    y: Iu,
    Ghost(b): Ghost<BoardView>,
)
    requires
        b.cfg == *cfg,
        b.design == *design,
        b.placed == old(placed)@,
        b.wf(),
        groups_wf(group_views(gs@), b.placed.len() as int),
        below(col@, gs@.len() as int),
        -0x10_0000_0000 <= centre <= 0x10_0000_0000,
    ensures
        final(placed)@ == column_placed(
            b,
            group_views(gs@),
            col@,
            centre as int,
            y,
            col@.len() as int,
        ).0,
        same_parts(final(placed)@, b.placed),
{
    let ghost gv = group_views(gs@);
    let ghost y0 = y;
    let mut y: Iu = y;
    let mut n: usize = 0;
    proof {
        lemma_parts_refl(b.placed);
    }
    while n < col.len()
        invariant
            n <= col.len(),
            b.cfg == *cfg,
            b.design == *design,
            b.wf(),
            gv == group_views(gs@),
            groups_wf(gv, b.placed.len() as int),
            below(col@, gs@.len() as int),
            -0x10_0000_0000 <= centre <= 0x10_0000_0000,
            (placed@, y) == column_placed(b, gv, col@, centre as int, y0, n as int),
            same_parts(placed@, b.placed),
        decreases col.len() - n,
    {
        let gi: usize = col[n];
        let ghost p0 = placed@;
        proof {
            assert(gv[gi as int] == gs@[gi as int]@);
            assert(below(gv[gi as int].members, b.placed.len() as int));
            lemma_same_parts(b, p0);
        }
        let g: BBox = gs[gi].bbox;
        let d: Point = Point {
            x: snap_half(centre - (g.x1 as i64 + g.x2 as i64), cfg.grid_mm),
            y: cfg.snap(y as i64 - g.y1 as i64),
        };
        shift_members(cfg, design, placed, &gs[gi].members, d, Ghost(with_placed(b, p0)));
        proof {
            crate::compose::lemma_same_parts_trans(placed@, p0, b.placed);
        }
        let bottom: Iu = to_iu(g.y2 as i64 + d.y as i64);
        y = to_iu(bottom as i64 + cfg.row_gap_mm as i64);
        n = n + 1;
    }
}

/// Put all groups in columns, to the right of what was placed by hand.
pub fn place_columns(
    cfg: &SchConfig,
    design: &DesignModel,
    placed: &mut Vec<PlacedComp>,
    nets: &[SheetNet],
    gs: &Vec<Group>,
    held: Option<BBox>,
)
    requires
        cfg.wf(),
        placed_wf(*design, old(placed)@),
        nets_wf(nets@, old(placed)@.len() as int),
        groups_wf(group_views(gs@), old(placed)@.len() as int),
    ensures
        final(placed)@ == in_columns(
            (BoardView { cfg: *cfg, design: *design, placed: old(placed)@, nets: nets@ }),
            group_views(gs@),
            held,
        ),
        same_parts(final(placed)@, old(placed)@),
{
    proof {
        reveal(in_columns);
    }
    let ghost b = BoardView { cfg: *cfg, design: *design, placed: placed@, nets: nets@ };
    let ghost gv = group_views(gs@);
    let mut lists: Vec<Vec<usize>> = Vec::new();
    let cats: Vec<Category> = vec![
        Category::ConnLeft,
        Category::Protection,
        Category::Regulator,
        Category::Mcu,
        Category::Sensor,
        Category::Other,
        Category::ConnRight,
    ];
    proof {
        assert(cats@ =~= category_order());
    }
    {
        let board: Board = Board { cfg, design, placed: &*placed, nets };
        proof {
            assert(board@ == b);
        }
        let rank: Vec<Option<usize>> = bfs_ranks(&board);
        let mut k: usize = 0;
        while k < cats.len()
            invariant
                k <= cats.len(),
                cats@ == category_order(),
                board.wf(),
                board@ == b,
                gv == group_views(gs@),
                groups_wf(gv, b.placed.len() as int),
                rank@ == ranks(b),
                rank@.len() == b.placed.len(),
                lists@.len() == k,
                forall|i: int|
                    0 <= i < k ==> (#[trigger] lists@[i])@ == flow_list(b, gv, category_order()[i])
                        && below(lists@[i]@, gs@.len() as int),
            decreases cats.len() - k,
        {
            let list: Vec<usize> = list_groups_in(&board, gs, cats[k]);
            lists.push(sort_groups(&board, gs, &rank, &list));
            k = k + 1;
        }
    }
    let (x0, y0): (Iu, Iu) = match held {
        Some(h) => (cfg.snap_up(h.x2 as i64 + cfg.col_gap_mm as i64), h.y1),
        None => (0, 0),
    };
    let paper: Paper = match cfg.paper {
        Paper::Auto => Paper::A3,
        fixed => fixed,
    };
    let tall: i128 = paper.size().1 as i128 - 2 * cfg.margin_top_mm as i128;
    let wrap: i128 = if tall >= 800000 {
        tall
    } else {
        800000
    };
    let mut x: Iu = x0;
    let mut k: usize = 0;
    proof {
        lemma_parts_refl(b.placed);
    }
    while k < lists.len()
        invariant
            k <= lists.len(),
            lists@.len() == 7,
            b.cfg == *cfg,
            b.design == *design,
            b.wf(),
            gv == group_views(gs@),
            groups_wf(gv, b.placed.len() as int),
            wrap == wrap_height(*cfg),
            forall|i: int|
                0 <= i < 7 ==> (#[trigger] lists@[i])@ == flow_list(b, gv, category_order()[i])
                    && below(lists@[i]@, gs@.len() as int),
            (placed@, x) == flow_placed(b, gv, x0, y0, k as int),
            same_parts(placed@, b.placed),
        decreases lists.len() - k,
    {
        let cols: Vec<Vec<usize>> = cut_columns(cfg, gs, &lists[k], wrap);
        let ghost p0 = placed@;
        proof {
            lemma_same_parts(b, p0);
        }
        x = place_columns_of(cfg, design, placed, gs, &cols, x, y0, Ghost(with_placed(b, p0)));
        proof {
            crate::compose::lemma_same_parts_trans(placed@, p0, b.placed);
        }
        k = k + 1;
    }
}

} // verus!
