//! Which endpoints of a net are joined by wires, and in which order ports are anchored.

use vstd::prelude::*;
use crate::canvas::Endpoint;
use crate::order::{
    includes, indices, lemma_sorted_items, list_includes, natural_compare, natural_order, rows,
    sort_by, sorted_by, upto,
};
use crate::place::PlacedComp;
use crate::units::Iu;
use crate::writer::PortDirection;

verus! {

// ---------------------------------------------------------------- groups

/// The distinct roots of the first `n` endpoints, in order of appearance.
pub open spec fn roots_upto(placed: Seq<usize>, root: Seq<usize>, n: int) -> Seq<usize>
    decreases n,
{
    if n <= 0 || n > placed.len() {
        Seq::empty()
    } else {
        let before = roots_upto(placed, root, n - 1);
        let r = root[placed[n - 1] as int];
        if includes(before, r as int) {
            before
        } else {
            before.push(r)
        }
    }
}

/// The endpoints among the first `n` that are not on a hub.
pub open spec fn off_hubs(placed: Seq<usize>, hub: Seq<bool>, n: int) -> Seq<usize>
    decreases n,
{
    if n <= 0 || n > placed.len() {
        Seq::empty()
    } else if hub[placed[n - 1] as int] {
        off_hubs(placed, hub, n - 1)
    } else {
        off_hubs(placed, hub, n - 1).push((n - 1) as usize)
    }
}

/// The endpoints among the first `n` whose group has the given root.
pub open spec fn rooted_at(placed: Seq<usize>, root: Seq<usize>, r: usize, n: int) -> Seq<usize>
    decreases n,
{
    if n <= 0 || n > placed.len() {
        Seq::empty()
    } else if root[placed[n - 1] as int] == r {
        rooted_at(placed, root, r, n - 1).push((n - 1) as usize)
    } else {
        rooted_at(placed, root, r, n - 1)
    }
}

/// The groups of the first `n` roots that hold two endpoints or more.
pub open spec fn clusters(placed: Seq<usize>, root: Seq<usize>, roots: Seq<usize>, n: int) -> Seq<
    Seq<usize>,
>
    decreases n,
{
    if n <= 0 || n > roots.len() {
        Seq::empty()
    } else {
        let before = clusters(placed, root, roots, n - 1);
        let m = rooted_at(placed, root, roots[n - 1], placed.len() as int);
        if m.len() >= 2 {
            before.push(m)
        } else {
            before
        }
    }
}

/// The distinct roots in natural order of their references.
pub open spec fn root_order(placed: Seq<usize>, root: Seq<usize>, refdes: Seq<String>) -> Seq<usize> {
    sorted_by(
        sorted_by(roots_upto(placed, root, placed.len() as int), |a: usize, b: usize| a > b),
        |a: usize, b: usize| natural_order(refdes[a as int]@, refdes[b as int]@) > 0,
    )
}

/// The sets of endpoints to join by wires: everything where all endpoints are in one group;
/// else, of a net of at most three endpoints, those off the hubs; else each group by itself.
pub open spec fn wire_subsets(
    placed: Seq<usize>,
    hub: Seq<bool>,
    root: Seq<usize>,
    refdes: Seq<String>,
) -> Seq<Seq<usize>> {
    let roots = roots_upto(placed, root, placed.len() as int);
    let free = off_hubs(placed, hub, placed.len() as int);
    let order = root_order(placed, root, refdes);
    if placed.len() <= 1 {
        Seq::empty()
    } else if roots.len() == 1 {
        seq![upto(placed.len() as int)]
    } else if placed.len() <= 3 {
        if free.len() < 2 {
            Seq::empty()
        } else {
            seq![free]
        }
    } else {
        clusters(placed, root, order, order.len() as int)
    }
}

/// The members of the sets are endpoints.
pub open spec fn subsets_wf(s: Seq<Seq<usize>>, n: int) -> bool {
    forall|i: int, j: int|
        0 <= i < s.len() && 0 <= j < s[i].len() ==> #[trigger] s[i][j] < n
}

/// The sets of endpoints to join by wires. `placed` gives the component of each endpoint; the
/// other lists are by component.
pub fn group_wire_subsets(
    placed: &Vec<usize>,
    hub: &Vec<bool>,
    root: &Vec<usize>,
    refdes: &Vec<String>,
) -> (r: Vec<Vec<usize>>)
    requires
        forall|i: int|
            0 <= i < placed@.len() ==> #[trigger] placed@[i] < hub@.len() && placed@[i]
                < root@.len(),
        forall|i: int| 0 <= i < root@.len() ==> #[trigger] root@[i] < refdes@.len(),
    ensures
        rows(r@) == wire_subsets(placed@, hub@, root@, refdes@),
        subsets_wf(rows(r@), placed@.len() as int),
{
    let mut out: Vec<Vec<usize>> = Vec::new();
    proof {
        assert(rows(out@) =~= Seq::empty());
    }
    let n: usize = placed.len();
    if n <= 1 {
        return out;
    }
    let mut roots: Vec<usize> = Vec::new();
    let mut free: Vec<usize> = Vec::new();
    let mut i: usize = 0;
    while i < n
        invariant
            i <= n,
            n == placed@.len(),
            forall|i: int|
                0 <= i < placed@.len() ==> #[trigger] placed@[i] < hub@.len() && placed@[i]
                    < root@.len(),
            forall|i: int| 0 <= i < root@.len() ==> #[trigger] root@[i] < refdes@.len(),
            roots@ == roots_upto(placed@, root@, i as int),
            free@ == off_hubs(placed@, hub@, i as int),
            forall|k: int| 0 <= k < free@.len() ==> #[trigger] free@[k] < n,
            forall|k: int| 0 <= k < roots@.len() ==> #[trigger] roots@[k] < refdes@.len(),
        decreases n - i,
    {
        let p: usize = placed[i];
        let r: usize = root[p];
        if !list_includes(&roots, r) {
            roots.push(r);
        }
        if !hub[p] {
            free.push(i);
        }
        i = i + 1;
    }
    if roots.len() == 1 {
        let all: Vec<usize> = indices(n);
        out.push(all);
        proof {
            assert(rows(out@) =~= seq![upto(n as int)]);
        }
        return out;
    }
    if n <= 3 {
        if free.len() >= 2 {
            let ghost f = free@;
            out.push(free);
            proof {
                assert(rows(out@) =~= seq![f]);
            }
        }
        return out;
    }
    let ghost up = |a: usize, b: usize| a > b;
    let above = |a: usize, b: usize| -> (r: bool)
        ensures
            r == (a > b),
        { a > b };
    let ascending: Vec<usize> = sort_by(&roots, above, Ghost(up));
    proof {
        lemma_sorted_items(roots@, up, |k: usize| k < refdes@.len());
    }
    let ghost gt = |a: usize, b: usize|
        natural_order(refdes@[a as int]@, refdes@[b as int]@) > 0;
    let after = |a: usize, b: usize| -> (r: bool)
        requires
            a < refdes@.len(),
            b < refdes@.len(),
        ensures
            r == (natural_order(refdes@[a as int]@, refdes@[b as int]@) > 0),
        { natural_compare(refdes[a].as_str(), refdes[b].as_str()) > 0 };
    let order: Vec<usize> = sort_by(&ascending, after, Ghost(gt));
    let mut k: usize = 0;
    while k < order.len()
        invariant
            k <= order.len(),
            n == placed@.len(),
            forall|i: int|
                0 <= i < placed@.len() ==> #[trigger] placed@[i] < hub@.len() && placed@[i]
                    < root@.len(),
            rows(out@) == clusters(placed@, root@, order@, k as int),
            subsets_wf(rows(out@), n as int),
        decreases order.len() - k,
    {
        let mut members: Vec<usize> = Vec::new();
        let mut i: usize = 0;
        while i < n
            invariant
                i <= n,
                k < order.len(),
                n == placed@.len(),
                forall|i: int|
                    0 <= i < placed@.len() ==> #[trigger] placed@[i] < hub@.len() && placed@[i]
                        < root@.len(),
                members@ == rooted_at(placed@, root@, order@[k as int], i as int),
                forall|m: int| 0 <= m < members@.len() ==> #[trigger] members@[m] < n,
            decreases n - i,
        {
            if root[placed[i]] == order[k] {
                members.push(i);
            }
            i = i + 1;
        }
        if members.len() >= 2 {
            let ghost before = rows(out@);
            let ghost m = members@;
            out.push(members);
            proof {
                assert(rows(out@) =~= before.push(m));
                assert forall|i: int, j: int|
                    0 <= i < rows(out@).len() && 0 <= j < rows(out@)[i].len() implies
                    #[trigger] rows(out@)[i][j] < n by {
                    if i < before.len() {
                        assert(rows(out@)[i] == before[i]);
                        assert(before[i][j] < n);
                    } else {
                        assert(rows(out@)[i] == m);
                    }
                }
            }
        }
        k = k + 1;
    }
    out
}

// ---------------------------------------------------------------- anchors of a port

/// The endpoints among the first `n` whose pin points sideways (`side`), or up or down.
pub open spec fn by_axis(eps: Seq<Endpoint>, side: bool, n: int) -> Seq<usize>
    decreases n,
{
    if n <= 0 || n > eps.len() {
        Seq::empty()
    } else if (eps[n - 1].dir.y == 0) == side {
        by_axis(eps, side, n - 1).push((n - 1) as usize)
    } else {
        by_axis(eps, side, n - 1)
    }
}

/// The members among the first `n` whose pin points the way of the flow (`with`), or not.
pub open spec fn by_flow(eps: Seq<Endpoint>, v: Seq<usize>, left: bool, with: bool, n: int) -> Seq<
    usize,
>
    decreases n,
{
    if n <= 0 || n > v.len() {
        Seq::empty()
    } else {
        let x = eps[v[n - 1] as int].dir.x;
        let flows = if left {
            x < 0
        } else {
            x > 0
        };
        if flows == with {
            by_flow(eps, v, left, with, n - 1).push(v[n - 1])
        } else {
            by_flow(eps, v, left, with, n - 1)
        }
    }
}

/// Leftmost edge of the first `n` components.
pub open spec fn left_edge(placed: Seq<PlacedComp>, n: int) -> int
    decreases n,
{
    if n <= 0 || n > placed.len() {
        i32::MAX as int
    } else if (placed[n - 1].bbox.x1 as int) < left_edge(placed, n - 1) {
        placed[n - 1].bbox.x1 as int
    } else {
        left_edge(placed, n - 1)
    }
}

/// Rightmost edge of the first `n` components.
pub open spec fn right_edge(placed: Seq<PlacedComp>, n: int) -> int
    decreases n,
{
    if n <= 0 || n > placed.len() {
        i32::MIN as int
    } else if placed[n - 1].bbox.x2 as int > right_edge(placed, n - 1) {
        placed[n - 1].bbox.x2 as int
    } else {
        right_edge(placed, n - 1)
    }
}

/// Twice the middle of the components.
pub open spec fn twice_middle(placed: Seq<PlacedComp>) -> int {
    left_edge(placed, placed.len() as int) + right_edge(placed, placed.len() as int)
}

/// How far out the endpoint lies on the side that it points to.
pub open spec fn outness(e: Endpoint, middle: int) -> int {
    e.dir.x * (2 * e.pos.x - middle)
}

/// Order by column: leftmost first, or rightmost first.
pub open spec fn column_after(eps: Seq<Endpoint>, left: bool, a: usize, b: usize) -> bool {
    if left {
        eps[a as int].pos.x > eps[b as int].pos.x
    } else {
        eps[a as int].pos.x < eps[b as int].pos.x
    }
}

/// The order in which endpoints are tried as the anchor of a port: pins that point with the
/// flow, then the other sideways pins, then the rest. Without a direction, the outermost
/// sideways pins come first.
pub open spec fn anchor_order(
    placed: Seq<PlacedComp>,
    direction: PortDirection,
    eps: Seq<Endpoint>,
) -> Seq<usize> {
    let side = by_axis(eps, true, eps.len() as int);
    let vert = by_axis(eps, false, eps.len() as int);
    if direction == PortDirection::Bidirectional {
        let m = twice_middle(placed);
        sorted_by(
            side,
            |a: usize, b: usize| outness(eps[a as int], m) < outness(eps[b as int], m),
        ) + sorted_by(vert, |a: usize, b: usize| column_after(eps, true, a, b))
    } else {
        let left = direction == PortDirection::Input;
        let s = sorted_by(side, |a: usize, b: usize| column_after(eps, left, a, b));
        by_flow(eps, s, left, true, s.len() as int) + by_flow(
            eps,
            s,
            left,
            false,
            s.len() as int,
        ) + sorted_by(vert, |a: usize, b: usize| column_after(eps, left, a, b))
    }
}

fn split_axis(eps: &Vec<Endpoint>, side: bool) -> (r: Vec<usize>)
    ensures
        r@ == by_axis(eps@, side, eps@.len() as int),
        forall|i: int| 0 <= i < r@.len() ==> #[trigger] r@[i] < eps@.len(),
{
    let mut r: Vec<usize> = Vec::new();
    let mut n: usize = 0;
    while n < eps.len()
        invariant
            n <= eps.len(),
            r@ == by_axis(eps@, side, n as int),
            forall|i: int| 0 <= i < r@.len() ==> #[trigger] r@[i] < eps@.len(),
        decreases eps.len() - n,
    {
        if (eps[n].dir.y == 0) == side {
            r.push(n);
        }
        n = n + 1;
    }
    r
}

fn sort_columns(eps: &Vec<Endpoint>, v: &Vec<usize>, left: bool) -> (r: Vec<usize>)
    requires
        forall|i: int| 0 <= i < v@.len() ==> #[trigger] v@[i] < eps@.len(),
    ensures
        r@ == sorted_by(v@, |a: usize, b: usize| column_after(eps@, left, a, b)),
        r@.len() == v@.len(),
        forall|i: int| 0 <= i < r@.len() ==> #[trigger] r@[i] < eps@.len(),
{
    let ghost gt = |a: usize, b: usize| column_after(eps@, left, a, b);
    let after = |a: usize, b: usize| -> (r: bool)
        requires
            a < eps@.len(),
            b < eps@.len(),
        ensures
            r == column_after(eps@, left, a, b),
        {
            if left {
                eps[a].pos.x > eps[b].pos.x
            } else {
                eps[a].pos.x < eps[b].pos.x
            }
        };
    let r: Vec<usize> = sort_by(v, after, Ghost(gt));
    proof {
        lemma_sorted_items(v@, gt, |i: usize| i < eps@.len());
    }
    r
}

fn push_all(v: &mut Vec<usize>, more: &Vec<usize>)
    ensures
        final(v)@ == old(v)@ + more@,
{
    let ghost before = v@;
    let mut i: usize = 0;
    proof {
        assert(v@ =~= before + more@.take(0));
    }
    while i < more.len()
        invariant
            i <= more.len(),
            v@ == before + more@.take(i as int),
        decreases more.len() - i,
    {
        v.push(more[i]);
        i = i + 1;
        proof {
            assert(v@ =~= before + more@.take(i as int));
        }
    }
    proof {
        assert(more@.take(i as int) =~= more@);
    }
}

fn outness_of(e: &Endpoint, middle: i64) -> (r: i128)
    requires
        -0x1_0000_0000 <= middle <= 0x1_0000_0000,
    ensures
        r == outness(*e, middle as int),
{
    let reach: i64 = 2 * e.pos.x as i64 - middle;
    proof {
        assert(-0x1_0000_0000_0000_0000_0000 <= e.dir.x * reach
            <= 0x1_0000_0000_0000_0000_0000) by (nonlinear_arith)
            requires
                -0x8000_0000 <= e.dir.x <= 0x7fff_ffff,
                -0x4_0000_0000 <= reach <= 0x4_0000_0000,
        ;
    }
    e.dir.x as i128 * reach as i128
}

/// The order in which endpoints are tried as the anchor of a port.
pub fn port_anchor_order(
    placed: &[PlacedComp],
    direction: PortDirection,
    eps: &Vec<Endpoint>,
) -> (r: Vec<usize>)
    ensures
        r@ == anchor_order(placed@, direction, eps@),
        forall|i: int| 0 <= i < r@.len() ==> #[trigger] r@[i] < eps@.len(),
{
    let side: Vec<usize> = split_axis(eps, true);
    let vert: Vec<usize> = split_axis(eps, false);
    if direction == PortDirection::Bidirectional {
        let mut lo: i64 = 2147483647;
        let mut hi: i64 = -2147483648;
        let mut n: usize = 0;
        while n < placed.len()
            invariant
                n <= placed.len(),
                lo == left_edge(placed@, n as int),
                hi == right_edge(placed@, n as int),
                -0x8000_0000 <= lo <= 0x7fff_ffff,
                -0x8000_0000 <= hi <= 0x7fff_ffff,
            decreases placed.len() - n,
        {
            if (placed[n].bbox.x1 as i64) < lo {
                lo = placed[n].bbox.x1 as i64;
            }
            if placed[n].bbox.x2 as i64 > hi {
                hi = placed[n].bbox.x2 as i64;
            }
            n = n + 1;
        }
        let m: i64 = lo + hi;
        let ghost gt = |a: usize, b: usize|
            outness(eps@[a as int], twice_middle(placed@)) < outness(
                eps@[b as int],
                twice_middle(placed@),
            );
        let after = |a: usize, b: usize| -> (r: bool)
            requires
                a < eps@.len(),
                b < eps@.len(),
                -0x1_0000_0000 <= m <= 0x1_0000_0000,
            ensures
                r == (outness(eps@[a as int], m as int) < outness(eps@[b as int], m as int)),
            { outness_of(&eps[a], m) < outness_of(&eps[b], m) };
        let mut out: Vec<usize> = sort_by(&side, after, Ghost(gt));
        proof {
            lemma_sorted_items(side@, gt, |i: usize| i < eps@.len());
        }
        let rest: Vec<usize> = sort_columns(eps, &vert, true);
        push_all(&mut out, &rest);
        return out;
    }
    let left: bool = direction == PortDirection::Input;
    let s: Vec<usize> = sort_columns(eps, &side, left);
    let mut with: Vec<usize> = Vec::new();
    let mut against: Vec<usize> = Vec::new();
    let mut n: usize = 0;
    while n < s.len()
        invariant
            n <= s.len(),
            forall|i: int| 0 <= i < s@.len() ==> #[trigger] s@[i] < eps@.len(),
            with@ == by_flow(eps@, s@, left, true, n as int),
            against@ == by_flow(eps@, s@, left, false, n as int),
            forall|i: int| 0 <= i < with@.len() ==> #[trigger] with@[i] < eps@.len(),
            forall|i: int| 0 <= i < against@.len() ==> #[trigger] against@[i] < eps@.len(),
        decreases s.len() - n,
    {
        let x: Iu = eps[s[n]].dir.x;
        let flows: bool = if left {
            x < 0
        } else {
            x > 0
        };
        if flows {
            with.push(s[n]);
        } else {
            against.push(s[n]);
        }
        n = n + 1;
    }
    let rest: Vec<usize> = sort_columns(eps, &vert, left);
    push_all(&mut with, &against);
    push_all(&mut with, &rest);
    with
}

} // verus!
