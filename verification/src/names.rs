//! Names: unique ones, and ones made of safe characters.

use vstd::prelude::*;
use crate::text::{
    append_chars, chars_of, decimal, law_decimal_injective, lemma_decimal_nonempty,
    to_decimal, to_lower_char, lower_char, text_of,
};

verus! {

// ---------------------------------------------------------------- unique names

/// The names to try, one after the other: the plain one, then those with a number.
pub open spec fn candidate(base: Seq<char>, tail: Seq<char>, n: nat) -> Seq<char> {
    if n <= 1 {
        base + tail
    } else {
        base + seq!['_'] + decimal(n) + tail
    }
}

/// The first name from number `n` on that is not taken. There are more names than taken ones, so
/// the last one is free for certain.
pub open spec fn fresh_from(base: Seq<char>, tail: Seq<char>, taken: Seq<Seq<char>>, n: nat) -> Seq<char>
    decreases taken.len() + 1 - n,
{
    if n <= taken.len() && taken.contains(candidate(base, tail, n)) {
        fresh_from(base, tail, taken, n + 1)
    } else {
        candidate(base, tail, n)
    }
}

/// The first name that is not taken.
pub open spec fn fresh(base: Seq<char>, tail: Seq<char>, taken: Seq<Seq<char>>) -> Seq<char> {
    fresh_from(base, tail, taken, 1)
}

proof fn lemma_candidates_differ(base: Seq<char>, tail: Seq<char>, n: nat, m: nat)
    requires
        1 <= n < m,
    ensures
        candidate(base, tail, n) != candidate(base, tail, m),
{
    let a = candidate(base, tail, n);
    let c = candidate(base, tail, m);
    if a == c {
        lemma_decimal_nonempty(m);
        if n == 1 {
            assert(a.len() == base.len() + tail.len());
            assert(c.len() == base.len() + 1 + decimal(m).len() + tail.len());
        } else {
            let p = base + seq!['_'];
            assert(a.len() == p.len() + decimal(n).len() + tail.len());
            assert(c.len() == p.len() + decimal(m).len() + tail.len());
            assert(a.subrange(p.len() as int, (p.len() + decimal(n).len()) as int) =~= decimal(n));
            assert(c.subrange(p.len() as int, (p.len() + decimal(m).len()) as int) =~= decimal(m));
            law_decimal_injective(n, m);
        }
    }
}

/// As many different names as there are taken ones cannot all be taken if one more is.
proof fn lemma_pigeons(base: Seq<char>, tail: Seq<char>, taken: Seq<Seq<char>>, n: nat)
    requires
        forall|m: nat| 1 <= m <= n ==> taken.contains(#[trigger] candidate(base, tail, m)),
    ensures
        n <= taken.len(),
    decreases n,
{
    if n > 0 {
        let last = candidate(base, tail, n);
        assert(taken.contains(last));
        let k = choose|k: int| 0 <= k < taken.len() && taken[k] == last;
        let rest = taken.remove(k);
        assert forall|m: nat| 1 <= m <= n - 1 implies rest.contains(
            #[trigger] candidate(base, tail, m),
        ) by {
            lemma_candidates_differ(base, tail, m, n);
            let c = candidate(base, tail, m);
            assert(taken.contains(c));
            let j = choose|j: int| 0 <= j < taken.len() && taken[j] == c;
            assert(j != k);
            let i = if j < k {
                j
            } else {
                j - 1
            };
            assert(rest[i] == c);
        }
        lemma_pigeons(base, tail, rest, (n - 1) as nat);
    }
}

proof fn lemma_fresh_from(base: Seq<char>, tail: Seq<char>, taken: Seq<Seq<char>>, n: nat)
    requires
        1 <= n <= taken.len() + 1,
        forall|m: nat| 1 <= m < n ==> taken.contains(#[trigger] candidate(base, tail, m)),
    ensures
        !taken.contains(fresh_from(base, tail, taken, n)),
    decreases taken.len() + 1 - n,
{
    if n <= taken.len() && taken.contains(candidate(base, tail, n)) {
        lemma_fresh_from(base, tail, taken, n + 1);
    } else if taken.contains(candidate(base, tail, n)) {
        lemma_pigeons(base, tail, taken, n);
    }
}

/// A fresh name is not among the taken ones.
pub proof fn law_fresh_is_free(base: Seq<char>, tail: Seq<char>, taken: Seq<Seq<char>>)
    ensures
        !taken.contains(fresh(base, tail, taken)),
{
    lemma_fresh_from(base, tail, taken, 1);
}

/// A base that is free itself is used as it is.
pub proof fn law_free_base_is_kept(base: Seq<char>, tail: Seq<char>, taken: Seq<Seq<char>>)
    requires
        !taken.contains(base + tail),
    ensures
        fresh(base, tail, taken) == base + tail,
{
}

/// A fresh name starts with its base.
pub proof fn law_fresh_starts_with_base(base: Seq<char>, tail: Seq<char>, taken: Seq<Seq<char>>)
    ensures
        base.is_prefix_of(fresh(base, tail, taken)),
{
    lemma_fresh_prefix(base, tail, taken, 1);
}

proof fn lemma_fresh_prefix(base: Seq<char>, tail: Seq<char>, taken: Seq<Seq<char>>, n: nat)
    ensures
        base.is_prefix_of(fresh_from(base, tail, taken, n)),
    decreases taken.len() + 1 - n,
{
    if n <= taken.len() && taken.contains(candidate(base, tail, n)) {
        lemma_fresh_prefix(base, tail, taken, n + 1);
    } else {
        let c = candidate(base, tail, n);
        assert(c.subrange(0, base.len() as int) =~= base);
    }
}

/// The contents of several texts.
pub open spec fn views(v: Seq<String>) -> Seq<Seq<char>> {
    Seq::new(v.len(), |i: int| v[i]@)
}

/// Is the text among the list?
pub fn list_has(list: &Vec<String>, s: &String) -> (r: bool)
    ensures
        r == views(list@).contains(s@),
{
    let mut i: usize = 0;
    while i < list.len()
        invariant
            i <= list.len(),
            forall|k: int| 0 <= k < i ==> (#[trigger] list@[k])@ != s@,
        decreases list.len() - i,
    {
        if list[i] == *s {
            proof {
                assert(views(list@)[i as int] == s@);
            }
            return true;
        }
        i = i + 1;
    }
    proof {
        assert forall|k: int| 0 <= k < views(list@).len() implies views(list@)[k] != s@ by {
            assert(list@[k]@ != s@);
        }
    }
    false
}

fn name_number(base: &Vec<char>, tail: &Vec<char>, n: u128) -> (r: String)
    ensures
        r@ == candidate(base@, tail@, n as nat),
{
    let mut v: Vec<char> = Vec::new();
    append_chars(&mut v, base);
    if n > 1 {
        v.push('_');
        append_chars(&mut v, &to_decimal(n));
    }
    append_chars(&mut v, tail);
    proof {
        assert(v@ =~= candidate(base@, tail@, n as nat));
    }
    text_of(&v)
}

/// The first name that is not taken: the plain one, or one with a number from 2 on.
pub fn fresh_name(base: &Vec<char>, tail: &Vec<char>, taken: &Vec<String>) -> (r: String)
    ensures
        r@ == fresh(base@, tail@, views(taken@)),
        !views(taken@).contains(r@),
{
    let ghost used = views(taken@);
    let mut n: u128 = 1;
    proof {
        law_fresh_is_free(base@, tail@, used);
    }
    let mut name: String = name_number(base, tail, n);
    while n <= taken.len() as u128 && list_has(taken, &name)
        invariant
            used == views(taken@),
            1 <= n <= taken@.len() + 1,
            name@ == candidate(base@, tail@, n as nat),
            fresh(base@, tail@, used) == fresh_from(base@, tail@, used, n as nat),
        decreases taken@.len() + 1 - n,
    {
        n = n + 1;
        name = name_number(base, tail, n);
    }
    name
}

// ---------------------------------------------------------------- file names

pub open spec fn is_alnum(c: char) -> bool {
    let u = c as u32;
    48 <= u <= 57 || 65 <= u <= 90 || 97 <= u <= 122
}

pub fn is_ascii_alnum(c: char) -> (r: bool)
    ensures
        r == is_alnum(c),
{
    let u: u32 = c as u32;
    (48 <= u && u <= 57) || (65 <= u && u <= 90) || (97 <= u && u <= 122)
}

/// The first `n` characters in small letters and digits, every run of others as one underscore,
/// none at the front.
pub open spec fn slug_upto(s: Seq<char>, n: int) -> Seq<char>
    decreases n,
{
    if n <= 0 || n > s.len() {
        Seq::empty()
    } else {
        let before = slug_upto(s, n - 1);
        if is_alnum(s[n - 1]) {
            before.push(lower_char(s[n - 1]))
        } else if before.len() > 0 && before.last() != '_' {
            before.push('_')
        } else {
            before
        }
    }
}

/// A text as a safe file name.
pub open spec fn slug(s: Seq<char>) -> Seq<char> {
    let t = slug_upto(s, s.len() as int);
    if t.len() > 0 && t.last() == '_' {
        t.drop_last()
    } else {
        t
    }
}

/// A text as a safe file name: small letters and digits, with single underscores between them.
pub fn slugify(value: &str) -> (r: String)
    ensures
        r@ == slug(value@),
{
    let s: Vec<char> = chars_of(value);
    let mut out: Vec<char> = Vec::new();
    let mut n: usize = 0;
    while n < s.len()
        invariant
            n <= s.len(),
            s@ == value@,
            out@ == slug_upto(value@, n as int),
        decreases s.len() - n,
    {
        if is_ascii_alnum(s[n]) {
            out.push(to_lower_char(s[n]));
        } else if out.len() > 0 && out[out.len() - 1] != '_' {
            out.push('_');
        }
        n = n + 1;
    }
    if out.len() > 0 && out[out.len() - 1] == '_' {
        let _ = out.pop();
        proof {
            assert(out@ =~= slug(value@));
        }
    }
    text_of(&out)
}

/// A small letter or a digit.
pub open spec fn is_slug_char(c: char) -> bool {
    let u = c as u32;
    48 <= u <= 57 || 97 <= u <= 122
}

/// Only small letters, digits and underscores, no underscore at the front and no two in a row.
pub open spec fn slug_like(s: Seq<char>) -> bool {
    &&& forall|i: int| 0 <= i < s.len() ==> is_slug_char(#[trigger] s[i]) || s[i] == '_'
    &&& s.len() > 0 ==> s[0] != '_'
    &&& forall|i: int| 0 <= i && i + 1 < s.len() ==> !(#[trigger] s[i] == '_' && s[i + 1] == '_')
}

proof fn lemma_slug_upto(s: Seq<char>, n: int)
    requires
        0 <= n <= s.len(),
    ensures
        slug_like(slug_upto(s, n)),
    decreases n,
{
    if n > 0 {
        lemma_slug_upto(s, n - 1);
        let before = slug_upto(s, n - 1);
        let c = s[n - 1];
        if is_alnum(c) {
            let u = c as u32;
            if 65 <= u <= 90 {
                assert(((u + 32) as u8 as char) as u32 == u + 32);
            }
            assert(is_slug_char(lower_char(c)));
            assert(lower_char(c) != '_');
        }
        let now = slug_upto(s, n);
        assert forall|i: int| 0 <= i && i + 1 < now.len() implies !(#[trigger] now[i] == '_'
            && now[i + 1] == '_') by {
            if i + 1 < before.len() {
                assert(now[i] == before[i]);
            }
        }
    }
}

/// A safe file name holds nothing but small letters, digits and single underscores between them.
pub proof fn law_slug_is_safe(s: Seq<char>)
    ensures
        slug_like(slug(s)),
        slug(s).len() > 0 ==> slug(s).last() != '_',
{
    lemma_slug_upto(s, s.len() as int);
    let t = slug_upto(s, s.len() as int);
    if t.len() > 0 && t.last() == '_' {
        let r = t.drop_last();
        assert forall|i: int| 0 <= i && i + 1 < r.len() implies !(#[trigger] r[i] == '_' && r[i + 1]
            == '_') by {
            assert(r[i] == t[i]);
        }
        if r.len() > 0 {
            assert(t[t.len() - 2] == r.last());
            assert(t[r.len() - 1] != '_' || t[r.len() - 1 + 1] != '_');
        }
    }
}

// ---------------------------------------------------------------- symbol names

pub open spec fn is_name_char(c: char) -> bool {
    is_alnum(c) || c == '_' || c == '+' || c == '.' || c == '-'
}

/// Every character that a symbol name may not hold as an underscore.
pub open spec fn sanitized(s: Seq<char>) -> Seq<char> {
    if s.len() == 0 {
        "NET"@
    } else {
        Seq::new(
            s.len(),
            |i: int|
                if is_name_char(s[i]) {
                    s[i]
                } else {
                    '_'
                },
        )
    }
}

/// A net name as part of a symbol name.
pub fn sanitize_name(name: &str) -> (r: String)
    ensures
        r@ == sanitized(name@),
{
    let s: Vec<char> = chars_of(name);
    if s.len() == 0 {
        return "NET".to_owned();
    }
    let mut out: Vec<char> = Vec::new();
    let mut n: usize = 0;
    while n < s.len()
        invariant
            n <= s.len(),
            s@ == name@,
            s@.len() > 0,
            out@ =~= sanitized(name@).take(n as int),
        decreases s.len() - n,
    {
        let c: char = s[n];
        if is_ascii_alnum(c) || c == '_' || c == '+' || c == '.' || c == '-' {
            out.push(c);
        } else {
            out.push('_');
        }
        n = n + 1;
    }
    proof {
        assert(out@ =~= sanitized(name@));
    }
    text_of(&out)
}

/// A sanitized name is never empty, and holds only characters that a symbol name may hold.
pub proof fn law_sanitized_is_safe(s: Seq<char>)
    ensures
        sanitized(s).len() > 0,
        forall|i: int| 0 <= i < sanitized(s).len() ==> is_name_char(#[trigger] sanitized(s)[i]),
{
    reveal_strlit("NET");
}

} // verus!
