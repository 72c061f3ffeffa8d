//! Stable sorting by a comparison that need not be a total order, and natural text order.

use vstd::prelude::*;

verus! {

/// `x` put in front of the first item of `s[from..]` that it must precede.
pub open spec fn insert_from<T>(s: Seq<T>, x: T, gt: spec_fn(T, T) -> bool, from: int) -> Seq<T>
    decreases s.len() - from,
{
    if from < 0 || from >= s.len() {
        s.push(x)
    } else if gt(s[from], x) {
        s.insert(from, x)
    } else {
        insert_from(s, x, gt, from + 1)
    }
}

/// `s` sorted stably: `gt(a, b)` says that `a` belongs behind `b`.
pub open spec fn sorted_by<T>(s: Seq<T>, gt: spec_fn(T, T) -> bool) -> Seq<T>
    decreases s.len(),
{
    if s.len() == 0 {
        s
    } else {
        insert_from(sorted_by(s.drop_last(), gt), s.last(), gt, 0)
    }
}

proof fn lemma_insert_multiset<T>(s: Seq<T>, i: int, x: T)
    requires
        0 <= i <= s.len(),
    ensures
        s.insert(i, x).to_multiset() == s.to_multiset().insert(x),
{
    broadcast use vstd::seq_lib::group_to_multiset_ensures;

    let t = s.insert(i, x);
    assert(t.remove(i) =~= s);
    assert(t[i] == x);
    assert(t.contains(x));
    assert(t.to_multiset().count(x) > 0);
    assert(t.to_multiset().remove(x) == s.to_multiset());
    assert(t.to_multiset() =~= s.to_multiset().insert(x));
}

pub proof fn lemma_insert_from<T>(s: Seq<T>, x: T, gt: spec_fn(T, T) -> bool, from: int)
    requires
        0 <= from <= s.len(),
    ensures
        insert_from(s, x, gt, from).len() == s.len() + 1,
        insert_from(s, x, gt, from).to_multiset() == s.to_multiset().insert(x),
    decreases s.len() - from,
{
    if from < s.len() && !gt(s[from], x) {
        lemma_insert_from(s, x, gt, from + 1);
    } else if from < s.len() {
        lemma_insert_multiset(s, from, x);
    } else {
        lemma_insert_multiset(s, s.len() as int, x);
        assert(s.insert(s.len() as int, x) =~= s.push(x));
    }
}

/// Sorting keeps every item, whatever the comparison.
pub proof fn law_sort_is_permutation<T>(s: Seq<T>, gt: spec_fn(T, T) -> bool)
    ensures
        sorted_by(s, gt).len() == s.len(),
        sorted_by(s, gt).to_multiset() == s.to_multiset(),
    decreases s.len(),
{
    if s.len() > 0 {
        law_sort_is_permutation(s.drop_last(), gt);
        lemma_insert_from(sorted_by(s.drop_last(), gt), s.last(), gt, 0);
        let p = s.drop_last();
        lemma_insert_multiset(p, p.len() as int, s.last());
        assert(p.insert(p.len() as int, s.last()) =~= s);
    }
}

/// No item stands behind one that it must precede.
pub open spec fn in_order<T>(s: Seq<T>, gt: spec_fn(T, T) -> bool) -> bool {
    forall|i: int, j: int| 0 <= i < j < s.len() ==> !gt(#[trigger] s[i], #[trigger] s[j])
}

/// Any two items compare one way at most, and "not behind" is transitive.
pub open spec fn is_preorder<T>(gt: spec_fn(T, T) -> bool) -> bool {
    &&& forall|a: T, b: T| #[trigger] gt(a, b) ==> !gt(b, a)
    &&& forall|a: T, b: T, c: T|
        #![trigger gt(a, b), gt(b, c)]
        !gt(a, b) && !gt(b, c) ==> !gt(a, c)
}

proof fn lemma_insert_in_order<T>(s: Seq<T>, x: T, gt: spec_fn(T, T) -> bool, from: int)
    requires
        is_preorder(gt),
        in_order(s, gt),
        0 <= from <= s.len(),
        forall|k: int| 0 <= k < from ==> !gt(#[trigger] s[k], x),
    ensures
        in_order(insert_from(s, x, gt, from), gt),
    decreases s.len() - from,
{
    if from < s.len() && !gt(s[from], x) {
        lemma_insert_in_order(s, x, gt, from + 1);
    } else if from < s.len() {
        let r = s.insert(from, x);
        assert forall|i: int, j: int| 0 <= i < j < r.len() implies !gt(
            #[trigger] r[i],
            #[trigger] r[j],
        ) by {
            if i == from {
                assert(r[j] == s[j - 1]);
                if j - 1 > from {
                    assert(!gt(s[from], s[j - 1]));
                    assert(!gt(x, s[from]));
                }
            } else if j == from {
                assert(r[i] == s[i]);
            } else {
                let si = if i < from { s[i] } else { s[i - 1] };
                let sj = if j < from { s[j] } else { s[j - 1] };
                assert(r[i] == si && r[j] == sj);
            }
        }
    }
}

/// Under a total preorder the sorted items are in order.
pub proof fn law_sort_orders<T>(s: Seq<T>, gt: spec_fn(T, T) -> bool)
    requires
        is_preorder(gt),
    ensures
        in_order(sorted_by(s, gt), gt),
    decreases s.len(),
{
    if s.len() > 0 {
        law_sort_orders(s.drop_last(), gt);
        lemma_insert_in_order(sorted_by(s.drop_last(), gt), s.last(), gt, 0);
    }
}

/// Every item of a sorted sequence comes from the sequence that was sorted.
pub proof fn lemma_sorted_items<T>(s: Seq<T>, gt: spec_fn(T, T) -> bool, p: spec_fn(T) -> bool)
    requires
        forall|i: int| 0 <= i < s.len() ==> p(#[trigger] s[i]),
    ensures
        sorted_by(s, gt).len() == s.len(),
        forall|i: int| 0 <= i < s.len() ==> p(#[trigger] sorted_by(s, gt)[i]),
{
    broadcast use vstd::seq_lib::group_to_multiset_ensures;

    law_sort_is_permutation(s, gt);
    let r = sorted_by(s, gt);
    assert forall|i: int| 0 <= i < s.len() implies p(#[trigger] r[i]) by {
        assert(r.contains(r[i]));
        assert(r.to_multiset().count(r[i]) > 0);
        assert(s.contains(r[i]));
    }
}

/// Sort stably; `after(a, b)` says that `a` belongs behind `b`.
pub fn sort_by<T: Copy, F: Fn(T, T) -> bool>(
    v: &Vec<T>,
    after: F,
    Ghost(gt): Ghost<spec_fn(T, T) -> bool>,
) -> (out: Vec<T>)
    requires
        forall|i: int, j: int|
            #![trigger v@[i], v@[j]]
            0 <= i < v@.len() && 0 <= j < v@.len() ==> after.requires((v@[i], v@[j])),
        forall|a: T, b: T, r: bool| #[trigger] after.ensures((a, b), r) ==> r == gt(a, b),
    ensures
        out@ == sorted_by(v@, gt),
        out@.len() == v@.len(),
{
    let mut out: Vec<T> = Vec::new();
    let mut n: usize = 0;
    let ghost mut from: Seq<int> = Seq::empty();
    proof {
        assert(v@.take(0) =~= Seq::empty());
    }
    while n < v.len()
        invariant
            n <= v.len(),
            out@ == sorted_by(v@.take(n as int), gt),
            out@.len() == n,
            from.len() == n,
            forall|i: int|
                0 <= i < n ==> 0 <= #[trigger] from[i] < v@.len() && out@[i] == v@[from[i]],
            forall|i: int, j: int|
                #![trigger v@[i], v@[j]]
                0 <= i < v@.len() && 0 <= j < v@.len() ==> after.requires((v@[i], v@[j])),
            forall|a: T, b: T, r: bool| #[trigger] after.ensures((a, b), r) ==> r == gt(a, b),
        decreases v.len() - n,
    {
        let x: T = v[n];
        let mut i: usize = 0;
        let mut found: bool = false;
        while i < out.len() && !found
            invariant
                i <= out.len(),
                n < v.len(),
                out@.len() == n,
                x == v@[n as int],
                from.len() == n,
                forall|i: int|
                    0 <= i < n ==> 0 <= #[trigger] from[i] < v@.len() && out@[i] == v@[from[i]],
                forall|i: int, j: int|
                    #![trigger v@[i], v@[j]]
                    0 <= i < v@.len() && 0 <= j < v@.len() ==> after.requires((v@[i], v@[j])),
                forall|a: T, b: T, r: bool| #[trigger] after.ensures((a, b), r) ==> r == gt(a, b),
                insert_from(out@, x, gt, 0) == insert_from(out@, x, gt, i as int),
                found ==> i < out.len() && gt(out@[i as int], x),
            decreases
                    out.len() - i,
                    if found {
                        0int
                    } else {
                        1
                    },
        {
            let y: T = out[i];
            proof {
                assert(y == v@[from[i as int]]);
            }
            if after(y, x) {
                found = true;
            } else {
                i = i + 1;
            }
        }
        proof {
            from = from.insert(i as int, n as int);
            assert(v@.take(n + 1).drop_last() =~= v@.take(n as int));
            assert(v@.take(n + 1).last() == x);
            if !found {
                assert(out@.insert(i as int, x) =~= out@.push(x));
            }
        }
        out.insert(i, x);
        n = n + 1;
    }
    proof {
        assert(v@.take(n as int) =~= v@);
    }
    out
}

// ---------------------------------------------------------------- cutting into runs

/// The lists behind a vector of index lists.
pub open spec fn rows(v: Seq<Vec<usize>>) -> Seq<Seq<usize>> {
    Seq::new(v.len(), |i: int| v[i]@)
}

/// The first `n` items of `order` cut into runs: an item joins the run of the item before it
/// where `joins` says so of the two.
pub open spec fn runs_by(order: Seq<usize>, joins: spec_fn(usize, usize) -> bool, n: int) -> Seq<
    Seq<usize>,
>
    decreases n,
{
    if n <= 0 || n > order.len() {
        Seq::empty()
    } else {
        let before = runs_by(order, joins, n - 1);
        if n >= 2 && joins(order[n - 2], order[n - 1]) {
            before.drop_last().push(before.last().push(order[n - 1]))
        } else {
            before.push(seq![order[n - 1]])
        }
    }
}

/// Every run has a member, and every member is less than `n`.
pub open spec fn rows_wf(r: Seq<Seq<usize>>, n: int) -> bool {
    forall|i: int|
        0 <= i < r.len() ==> (#[trigger] r[i]).len() > 0 && forall|j: int|
            0 <= j < r[i].len() ==> #[trigger] r[i][j] < n
}

/// Cut into runs; `joins(a, b)` says that `b` continues the run that ends with `a`.
pub fn cut_runs<F: Fn(usize, usize) -> bool>(
    order: &Vec<usize>,
    joins: F,
    Ghost(same): Ghost<spec_fn(usize, usize) -> bool>,
    Ghost(top): Ghost<int>,
) -> (r: Vec<Vec<usize>>)
    requires
        forall|i: int| 0 <= i < order@.len() ==> #[trigger] order@[i] < top,
        forall|a: usize, b: usize| a < top && b < top ==> #[trigger] joins.requires((a, b)),
        forall|a: usize, b: usize, r: bool| #[trigger] joins.ensures((a, b), r) ==> r == same(a, b),
    ensures
        rows(r@) == runs_by(order@, same, order@.len() as int),
        rows_wf(rows(r@), top),
{
    let mut out: Vec<Vec<usize>> = Vec::new();
    let mut n: usize = 0;
    proof {
        assert(rows(out@) =~= Seq::empty());
    }
    while n < order.len()
        invariant
            n <= order.len(),
            forall|i: int| 0 <= i < order@.len() ==> #[trigger] order@[i] < top,
            forall|a: usize, b: usize| a < top && b < top ==> #[trigger] joins.requires((a, b)),
            forall|a: usize, b: usize, r: bool| #[trigger]
                joins.ensures((a, b), r) ==> r == same(a, b),
            rows(out@) == runs_by(order@, same, n as int),
            rows_wf(rows(out@), top),
            n > 0 ==> out@.len() > 0,
        decreases order.len() - n,
    {
        let x: usize = order[n];
        let joined: bool = n >= 1 && joins(order[n - 1], x);
        let ghost before = rows(out@);
        if joined {
            match out.pop() {
                Some(mut last) => {
                    let ghost l = last@;
                    proof {
                        assert(before.last() == l);
                        assert(rows(out@) =~= before.drop_last());
                    }
                    last.push(x);
                    out.push(last);
                    proof {
                        assert(rows(out@) =~= before.drop_last().push(l.push(x)));
                        assert forall|i: int| 0 <= i < rows(out@).len() implies (
                        #[trigger] rows(out@)[i]).len() > 0 && forall|j: int|
                            0 <= j < rows(out@)[i].len() ==> #[trigger] rows(out@)[i][j] < top by {
                            if i < before.len() - 1 {
                                assert(rows(out@)[i] == before[i]);
                            } else {
                                assert(rows(out@)[i] == l.push(x));
                                assert(before[before.len() - 1] == l);
                            }
                        }
                    }
                },
                None => {},
            }
        } else {
            let one: Vec<usize> = vec![x];
            proof {
                assert(one@ =~= seq![x]);
            }
            out.push(one);
            proof {
                assert(rows(out@) =~= before.push(seq![x]));
            }
        }
        n = n + 1;
    }
    out
}

/// The members of the runs are the items, in order and none left out.
pub open spec fn flat(r: Seq<Seq<usize>>, n: int) -> Seq<usize>
    decreases n,
{
    if n <= 0 || n > r.len() {
        Seq::empty()
    } else {
        flat(r, n - 1) + r[n - 1]
    }
}

proof fn lemma_flat_prefix(a: Seq<Seq<usize>>, b: Seq<Seq<usize>>, n: int)
    requires
        n <= a.len(),
        n <= b.len(),
        forall|i: int| 0 <= i < n ==> a[i] == b[i],
    ensures
        flat(a, n) == flat(b, n),
    decreases n,
{
    if n > 0 {
        lemma_flat_prefix(a, b, n - 1);
    }
}

/// Cutting into runs loses nothing and keeps the order.
pub proof fn law_runs_keep_items(order: Seq<usize>, joins: spec_fn(usize, usize) -> bool, n: int)
    requires
        0 <= n <= order.len(),
    ensures
        flat(runs_by(order, joins, n), runs_by(order, joins, n).len() as int) == order.take(n),
        n > 0 ==> runs_by(order, joins, n).len() > 0,
    decreases n,
{
    let r = runs_by(order, joins, n);
    if n > 0 {
        law_runs_keep_items(order, joins, n - 1);
        let before = runs_by(order, joins, n - 1);
        assert(order.take(n) =~= order.take(n - 1).push(order[n - 1]));
        if n >= 2 && joins(order[n - 2], order[n - 1]) {
            let k = before.len() - 1;
            lemma_flat_prefix(before, r, k);
            assert(flat(before, before.len() as int) == flat(before, k) + before[k]);
            assert(flat(r, r.len() as int) =~= flat(before, before.len() as int).push(
                order[n - 1],
            ));
        } else {
            lemma_flat_prefix(before, r, before.len() as int);
            assert(r[before.len() as int] == seq![order[n - 1]]);
            assert(flat(r, r.len() as int) =~= flat(before, before.len() as int).push(
                order[n - 1],
            ));
        }
    } else {
        assert(order.take(0) =~= Seq::empty());
    }
}

/// The indices `0..n`.
pub open spec fn upto(n: int) -> Seq<usize> {
    Seq::new(n as nat, |i: int| i as usize)
}

pub fn indices(n: usize) -> (v: Vec<usize>)
    ensures
        v@ == upto(n as int),
{
    let mut v: Vec<usize> = Vec::new();
    let mut i: usize = 0;
    while i < n
        invariant
            i <= n,
            v@ =~= upto(i as int),
        decreases n - i,
    {
        v.push(i);
        i = i + 1;
    }
    v
}

/// Does the list hold the index?
pub open spec fn includes(v: Seq<usize>, x: int) -> bool {
    exists|i: int| 0 <= i < v.len() && #[trigger] v[i] == x
}

pub fn list_includes(v: &[usize], x: usize) -> (r: bool)
    ensures
        r == includes(v@, x as int),
{
    let mut i: usize = 0;
    while i < v.len()
        invariant
            i <= v.len(),
            forall|k: int| 0 <= k < i ==> #[trigger] v@[k] != x,
        decreases v.len() - i,
    {
        if v[i] == x {
            return true;
        }
        i = i + 1;
    }
    false
}

// ---------------------------------------------------------------- order of texts

/// Does `a` come behind `b` when compared character by character, from place `i` on?
pub open spec fn behind_from(a: Seq<char>, b: Seq<char>, i: int) -> bool
    decreases a.len() - i,
{
    if i < 0 || i >= a.len() {
        false
    } else if i >= b.len() {
        true
    } else if a[i] != b[i] {
        a[i] as u32 > b[i] as u32
    } else {
        behind_from(a, b, i + 1)
    }
}

/// Does `a` come behind `b` when compared character by character?
pub open spec fn text_behind(a: Seq<char>, b: Seq<char>) -> bool {
    behind_from(a, b, 0)
}

pub fn is_text_behind(a: &String, b: &String) -> (r: bool)
    ensures
        r == text_behind(a@, b@),
{
    let x: Vec<char> = crate::text::chars_of(a.as_str());
    let y: Vec<char> = crate::text::chars_of(b.as_str());
    let mut i: usize = 0;
    while i < x.len()
        invariant
            i <= x.len(),
            i <= y.len(),
            x@ == a@,
            y@ == b@,
            text_behind(a@, b@) == behind_from(a@, b@, i as int),
        decreases x.len() - i,
    {
        if i >= y.len() {
            return true;
        }
        if x[i] != y[i] {
            return x[i] as u32 > y[i] as u32;
        }
        i = i + 1;
    }
    false
}

/// How two texts compare in natural order, where runs of digits compare as numbers:
/// negative, zero or positive.
pub uninterp spec fn natural_order(a: Seq<char>, b: Seq<char>) -> int;

/// `natord::compare`: the order of two texts as a person would sort them, `-1`, `0` or `1`.
/// It treats its two arguments alike, so exchanging them changes the sign.
#[verifier::external_body]
pub(crate) fn natural_compare(a: &str, b: &str) -> (r: i8)
    ensures
        r == natural_order(a@, b@),
        r == -natural_order(b@, a@),
        -1 <= r <= 1,
{
    match natord::compare(a, b) {
        std::cmp::Ordering::Less => -1,
        std::cmp::Ordering::Equal => 0,
        std::cmp::Ordering::Greater => 1,
    }
}

} // verus!
