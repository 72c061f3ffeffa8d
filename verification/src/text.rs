//! Small operations on text that the rest of the library needs.

use vstd::prelude::*;

verus! {

/// Do the two texts hold the same characters?
pub fn same(a: &str, b: &str) -> (r: bool)
    ensures
        r == (a@ == b@),
{
    a.to_owned() == b.to_owned()
}

/// Number of characters.
pub fn width(s: &str) -> (n: usize)
    ensures
        n == s@.len(),
{
    s.unicode_len()
}

/// The characters of a text, one by one.
pub fn chars_of(s: &str) -> (v: Vec<char>)
    ensures
        v@ == s@,
{
    let mut v: Vec<char> = Vec::new();
    for c in it: s.chars()
        invariant
            it.seq() == s@,
            v@ == s@.take(it.index() as int),
    {
        proof {
            assert(s@.take(it.index() + 1) =~= s@.take(it.index() as int).push(s@[it.index() as int]));
        }
        v.push(c);
    }
    proof {
        assert(s@.take(s@.len() as int) =~= s@);
    }
    v
}

/// [`String::push`] adds one character at the end.
pub assume_specification[ String::push ](s: &mut String, c: char)
    ensures
        final(s)@ == old(s)@.push(c),
;

/// The text made of the given characters.
pub fn text_of(v: &Vec<char>) -> (s: String)
    ensures
        s@ == v@,
{
    let mut s: String = String::new();
    let mut i: usize = 0;
    while i < v.len()
        invariant
            i <= v.len(),
            s@ == v@.take(i as int),
        decreases v.len() - i,
    {
        s.push(v[i]);
        proof {
            assert(v@.take(i + 1) =~= v@.take(i as int).push(v@[i as int]));
        }
        i = i + 1;
    }
    proof {
        assert(v@.take(v.len() as int) =~= v@);
    }
    s
}

/// `Vec::into_boxed_slice`: the same items, in a list that no longer grows.
#[verifier::external_body]
pub(crate) fn boxed<T>(v: Vec<T>) -> (r: Box<[T]>)
    ensures
        r@ == v@,
{
    v.into_boxed_slice()
}

/// A text that is its characters and nothing besides.
#[derive(Debug, PartialEq, Eq)]
pub struct Text {
    pub chars: Box<[char]>,
}

impl View for Text {
    type V = Seq<char>;

    open spec fn view(&self) -> Seq<char> {
        self.chars@
    }
}

impl Text {
    pub fn of(s: &str) -> (r: Text)
        ensures
            r@ == s@,
    {
        Text { chars: boxed(chars_of(s)) }
    }

    pub fn of_chars(v: Vec<char>) -> (r: Text)
        ensures
            r@ == v@,
    {
        Text { chars: boxed(v) }
    }

    /// The characters, one by one.
    pub fn to_chars(&self) -> (v: Vec<char>)
        ensures
            v@ == self@,
    {
        let mut v: Vec<char> = Vec::new();
        let mut i: usize = 0;
        while i < self.chars.len()
            invariant
                i <= self.chars@.len(),
                v@ == self.chars@.take(i as int),
            decreases self.chars@.len() - i,
        {
            v.push(self.chars[i]);
            proof {
                assert(self.chars@.take(i + 1) =~= self.chars@.take(i as int).push(
                    self.chars@[i as int],
                ));
            }
            i = i + 1;
        }
        proof {
            assert(self.chars@.take(i as int) =~= self.chars@);
        }
        v
    }

    pub fn show(&self) -> (s: String)
        ensures
            s@ == self@,
    {
        text_of(&self.to_chars())
    }

    /// Does the text hold the same characters?
    pub fn is(&self, s: &str) -> (r: bool)
        ensures
            r == (self@ == s@),
    {
        let mut i: usize = 0;
        for c in it: s.chars()
            invariant
                it.seq() == s@,
                i == it.index(),
                i <= self.chars@.len(),
                self.chars@.take(i as int) == s@.take(i as int),
        {
            if i >= self.chars.len() || self.chars[i] != c {
                return false;
            }
            proof {
                assert(self.chars@.take(i + 1) =~= self.chars@.take(i as int).push(
                    self.chars@[i as int],
                ));
                assert(s@.take(i + 1) =~= s@.take(i as int).push(s@[i as int]));
            }
            i = i + 1;
        }
        proof {
            assert(s@.take(i as int) =~= s@);
            if i == self.chars@.len() {
                assert(self.chars@.take(i as int) =~= self.chars@);
            }
        }
        i == self.chars.len()
    }
}

impl Clone for Text {
    fn clone(&self) -> (r: Text)
        ensures
            r == *self,
    {
        let r: Text = Text { chars: boxed(self.to_chars()) };
        proof {
            lemma_text(r, *self);
        }
        r
    }
}

/// Lists with the same items are the same.
pub proof fn lemma_list<T>(a: Box<[T]>, c: Box<[T]>)
    requires
        a@ == c@,
    ensures
        a == c,
{
    assert(a =~= c);
}

/// Texts with the same characters are the same.
pub proof fn lemma_text(a: Text, c: Text)
    requires
        a@ == c@,
    ensures
        a == c,
{
    lemma_list(a.chars, c.chars);
}

/// Two texts, one after the other.
pub fn joined(a: &str, b: &str) -> (s: String)
    ensures
        s@ == a@ + b@,
{
    a.to_owned().concat(b)
}

// ---------------------------------------------------------------- characters

pub open spec fn upper_char(c: char) -> char {
    if 'a' <= c <= 'z' {
        ((c as u8) - 32) as u8 as char
    } else {
        c
    }
}

pub open spec fn lower_char(c: char) -> char {
    if 'A' <= c <= 'Z' {
        ((c as u8) + 32) as u8 as char
    } else {
        c
    }
}

/// Text with its ASCII letters in upper case.
pub open spec fn upper(s: Seq<char>) -> Seq<char> {
    Seq::new(s.len(), |i: int| upper_char(s[i]))
}

/// Text with its ASCII letters in lower case.
pub open spec fn lower(s: Seq<char>) -> Seq<char> {
    Seq::new(s.len(), |i: int| lower_char(s[i]))
}

pub fn to_upper_char(c: char) -> (r: char)
    ensures
        r == upper_char(c),
{
    if 'a' <= c && c <= 'z' {
        (c as u8 - 32) as char
    } else {
        c
    }
}

pub fn to_lower_char(c: char) -> (r: char)
    ensures
        r == lower_char(c),
{
    if 'A' <= c && c <= 'Z' {
        (c as u8 + 32) as char
    } else {
        c
    }
}

pub fn to_upper(s: &str) -> (v: Vec<char>)
    ensures
        v@ == upper(s@),
{
    let cs: Vec<char> = chars_of(s);
    let mut v: Vec<char> = Vec::new();
    let mut i: usize = 0;
    while i < cs.len()
        invariant
            i <= cs.len(),
            v@ =~= upper(cs@).take(i as int),
        decreases cs.len() - i,
    {
        v.push(to_upper_char(cs[i]));
        i = i + 1;
    }
    v
}

pub fn to_lower(s: &str) -> (v: Vec<char>)
    ensures
        v@ == lower(s@),
{
    let cs: Vec<char> = chars_of(s);
    let mut v: Vec<char> = Vec::new();
    let mut i: usize = 0;
    while i < cs.len()
        invariant
            i <= cs.len(),
            v@ =~= lower(cs@).take(i as int),
        decreases cs.len() - i,
    {
        v.push(to_lower_char(cs[i]));
        i = i + 1;
    }
    v
}

/// Does `s` hold `part` from place `at` on?
pub open spec fn holds_at(s: Seq<char>, part: Seq<char>, at: int) -> bool {
    0 <= at && at + part.len() <= s.len() && s.subrange(at, at + part.len()) == part
}

/// Does `s` hold `part` somewhere?
pub open spec fn holds(s: Seq<char>, part: Seq<char>) -> bool {
    exists|at: int| #[trigger] holds_at(s, part, at)
}

pub fn has_at(s: &Vec<char>, part: &Vec<char>, at: usize) -> (r: bool)
    ensures
        r == holds_at(s@, part@, at as int),
{
    if at > s.len() || part.len() > s.len() - at {
        return false;
    }
    let mut i: usize = 0;
    while i < part.len()
        invariant
            i <= part.len(),
            at + part.len() <= s.len(),
            forall|k: int| 0 <= k < i ==> s@[at + k] == #[trigger] part@[k],
        decreases part.len() - i,
    {
        if s[at + i] != part[i] {
            proof {
                assert(s@.subrange(at as int, at + part@.len())[i as int] != part@[i as int]);
            }
            return false;
        }
        i = i + 1;
    }
    proof {
        assert(s@.subrange(at as int, at + part@.len()) =~= part@);
    }
    true
}

pub fn has(s: &Vec<char>, part: &Vec<char>) -> (r: bool)
    ensures
        r == holds(s@, part@),
{
    let mut at: usize = 0;
    while at < s.len()
        invariant
            at <= s.len(),
            forall|k: int| 0 <= k < at ==> !#[trigger] holds_at(s@, part@, k),
        decreases s.len() - at,
    {
        if has_at(s, part, at) {
            return true;
        }
        at = at + 1;
    }
    has_at(s, part, at)
}

/// White space as Unicode defines it.
pub open spec fn is_space(c: char) -> bool {
    let u = c as u32;
    9 <= u <= 13 || u == 32 || u == 0x85 || u == 0xa0 || u == 0x1680 || 0x2000 <= u <= 0x200a
        || u == 0x2028 || u == 0x2029 || u == 0x202f || u == 0x205f || u == 0x3000
}

pub fn is_white(c: char) -> (r: bool)
    ensures
        r == is_space(c),
{
    let u: u32 = c as u32;
    (9 <= u && u <= 13) || u == 32 || u == 0x85 || u == 0xa0 || u == 0x1680 || (0x2000 <= u && u
        <= 0x200a) || u == 0x2028 || u == 0x2029 || u == 0x202f || u == 0x205f || u == 0x3000
}

/// Number of white space characters that `s[from..]` starts with.
pub open spec fn spaces_from(s: Seq<char>, from: int) -> int
    decreases s.len() - from,
{
    if 0 <= from < s.len() && is_space(s[from]) {
        1 + spaces_from(s, from + 1)
    } else {
        0
    }
}

/// Number of white space characters that `s[..to]` ends with.
pub open spec fn spaces_to(s: Seq<char>, to: int) -> int
    decreases to,
{
    if 0 < to <= s.len() && is_space(s[to - 1]) {
        1 + spaces_to(s, to - 1)
    } else {
        0
    }
}

/// Text without the white space at its two ends.
pub open spec fn trimmed(s: Seq<char>) -> Seq<char> {
    let rest = s.skip(spaces_from(s, 0));
    rest.take(rest.len() - spaces_to(rest, rest.len() as int))
}

/// The text from place `from` on.
pub fn skip_chars(s: &Vec<char>, from: usize) -> (r: Vec<char>)
    requires
        from <= s.len(),
    ensures
        r@ == s@.skip(from as int),
{
    let mut r: Vec<char> = Vec::new();
    let mut i: usize = from;
    while i < s.len()
        invariant
            from <= i <= s.len(),
            r@ =~= s@.subrange(from as int, i as int),
        decreases s.len() - i,
    {
        r.push(s[i]);
        i = i + 1;
    }
    proof {
        assert(s@.subrange(from as int, s.len() as int) =~= s@.skip(from as int));
    }
    r
}

pub fn trim(s: &Vec<char>) -> (r: Vec<char>)
    ensures
        r@ == trimmed(s@),
{
    let mut from: usize = 0;
    while from < s.len() && is_white(s[from])
        invariant
            from <= s.len(),
            spaces_from(s@, 0) == from + spaces_from(s@, from as int),
        decreases s.len() - from,
    {
        from = from + 1;
    }
    let mut r: Vec<char> = skip_chars(s, from);
    let ghost rest = r@;
    let mut to: usize = r.len();
    while to > 0 && is_white(r[to - 1])
        invariant
            to <= r.len(),
            r@ == rest,
            spaces_to(rest, rest.len() as int) == (rest.len() - to) + spaces_to(rest, to as int),
        decreases to,
    {
        to = to - 1;
    }
    r.truncate(to);
    proof {
        assert(r@ =~= rest.take(to as int));
    }
    r
}

// ---------------------------------------------------------------- numbers

pub open spec fn digit(d: int) -> char {
    (48 + d) as u8 as char
}

/// A number in decimal notation.
pub open spec fn decimal(n: nat) -> Seq<char>
    decreases n,
{
    if n < 10 {
        seq![digit(n as int)]
    } else {
        decimal(n / 10).push(digit((n % 10) as int))
    }
}

pub fn to_decimal(n: u128) -> (v: Vec<char>)
    ensures
        v@ == decimal(n as nat),
    decreases n,
{
    if n < 10 {
        let c: char = (48 + n as u8) as char;
        let v: Vec<char> = vec![c];
        proof {
            assert(v@ =~= seq![digit(n as int)]);
        }
        v
    } else {
        let mut v: Vec<char> = to_decimal(n / 10);
        v.push((48 + (n % 10) as u8) as char);
        v
    }
}

pub proof fn lemma_digit_injective(a: int, b: int)
    requires
        0 <= a < 10,
        0 <= b < 10,
        digit(a) == digit(b),
    ensures
        a == b,
{
    assert(((48 + a) as u8 as char) as u32 == 48 + a);
    assert(((48 + b) as u8 as char) as u32 == 48 + b);
}

/// Two numbers with the same notation are the same number.
pub proof fn law_decimal_injective(a: nat, b: nat)
    requires
        decimal(a) == decimal(b),
    ensures
        a == b,
    decreases a,
{
    assert(decimal(a).len() == decimal(b).len());
    if a < 10 && b < 10 {
        assert(decimal(a) == seq![digit(a as int)]);
        assert(decimal(b) == seq![digit(b as int)]);
        let s = decimal(a);
        let t = decimal(b);
        assert(s[0] == digit(a as int));
        assert(t[0] == digit(b as int));
        assert(s[0] == t[0]);
        lemma_digit_injective(a as int, b as int);
    } else if a < 10 {
        lemma_decimal_nonempty(b / 10);
        assert(decimal(b).len() >= 2);
    } else if b < 10 {
        lemma_decimal_nonempty(a / 10);
        assert(decimal(a).len() >= 2);
    } else {
        assert(decimal(a) == decimal(a / 10).push(digit((a % 10) as int)));
        assert(decimal(b) == decimal(b / 10).push(digit((b % 10) as int)));
        let s = decimal(a);
        let t = decimal(b);
        assert(s[s.len() - 1] == digit((a % 10) as int));
        assert(t[t.len() - 1] == digit((b % 10) as int));
        assert(s[s.len() - 1] == t[t.len() - 1]);
        assert(decimal(a).drop_last() =~= decimal(a / 10));
        assert(decimal(b).drop_last() =~= decimal(b / 10));
        lemma_digit_injective((a % 10) as int, (b % 10) as int);
        law_decimal_injective(a / 10, b / 10);
    }
}

pub proof fn lemma_decimal_nonempty(n: nat)
    ensures
        decimal(n).len() >= 1,
    decreases n,
{
    if n >= 10 {
        lemma_decimal_nonempty(n / 10);
    }
}

/// No number but zero starts with a zero.
pub proof fn lemma_decimal_first(n: nat)
    requires
        n > 0,
    ensures
        decimal(n).len() > 0,
        decimal(n)[0] != '0',
    decreases n,
{
    if n >= 10 {
        lemma_decimal_first(n / 10);
    } else {
        assert(((48 + n) as u8 as char) as u32 == 48 + n);
        assert('0' as u32 == 48);
    }
}

/// Texts put one after the other.
pub fn append_chars(v: &mut Vec<char>, more: &Vec<char>)
    ensures
        final(v)@ == old(v)@ + more@,
{
    let ghost before = v@;
    let mut i: usize = 0;
    proof {
        assert(v@ =~= before + more@.take(0));
    }
    while i < more.len()
        invariant
            i <= more.len(),
            v@ == before + more@.take(i as int),
        decreases more.len() - i,
    {
        v.push(more[i]);
        i = i + 1;
        proof {
            assert(v@ =~= before + more@.take(i as int));
        }
    }
    proof {
        assert(more@.take(i as int) =~= more@);
    }
}

/// Is the text this literal?
pub fn is_text(v: &Vec<char>, s: &str) -> (r: bool)
    ensures
        r == (v@ == s@),
{
    let t: Vec<char> = chars_of(s);
    if v.len() != t.len() {
        return false;
    }
    let mut i: usize = 0;
    while i < v.len()
        invariant
            i <= v.len(),
            v@.len() == t@.len(),
            t@ == s@,
            forall|k: int| 0 <= k < i ==> v@[k] == t@[k],
        decreases v.len() - i,
    {
        if v[i] != t[i] {
            return false;
        }
        i = i + 1;
    }
    proof {
        assert(v@ =~= t@);
    }
    true
}

// ---------------------------------------------------------------- parts of a text

/// The place of the first `c` at or behind `from`.
pub open spec fn place_of_char(s: Seq<char>, c: char, from: int) -> Option<int>
    decreases s.len() - from,
{
    if from < 0 || from >= s.len() {
        None
    } else if s[from] == c {
        Some(from)
    } else {
        place_of_char(s, c, from + 1)
    }
}

pub fn find_char(s: &Vec<char>, c: char, from: usize) -> (r: Option<usize>)
    ensures
        match r {
            Some(k) => place_of_char(s@, c, from as int) == Some(k as int) && from <= k < s@.len(),
            None => place_of_char(s@, c, from as int) is None,
        },
{
    let mut i: usize = from;
    while i < s.len()
        invariant
            from <= i,
            place_of_char(s@, c, from as int) == place_of_char(s@, c, i as int),
        decreases
            if i < s.len() {
                s.len() - i
            } else {
                0
            },
    {
        if s[i] == c {
            return Some(i);
        }
        i = i + 1;
    }
    None
}

/// The text from place `from` up to place `to`.
pub fn cut(s: &Vec<char>, from: usize, to: usize) -> (r: Vec<char>)
    requires
        from <= to <= s.len(),
    ensures
        r@ == s@.subrange(from as int, to as int),
{
    let mut r: Vec<char> = Vec::new();
    let mut i: usize = from;
    while i < to
        invariant
            from <= i <= to,
            to <= s.len(),
            r@ =~= s@.subrange(from as int, i as int),
        decreases to - i,
    {
        r.push(s[i]);
        i = i + 1;
    }
    r
}

/// The text without this ending, where it has it.
pub open spec fn stem(s: Seq<char>, ending: Seq<char>) -> Option<Seq<char>> {
    let n = s.len() - ending.len();
    if n >= 0 && holds_at(s, ending, n) {
        Some(s.take(n))
    } else {
        None
    }
}

pub fn stem_of(s: &Vec<char>, ending: &str) -> (r: Option<Vec<char>>)
    ensures
        match r {
            Some(v) => stem(s@, ending@) == Some(v@),
            None => stem(s@, ending@) is None,
        },
{
    let e: Vec<char> = chars_of(ending);
    if s.len() < e.len() {
        return None;
    }
    let n: usize = s.len() - e.len();
    if has_at(s, &e, n) {
        let v: Vec<char> = cut(s, 0, n);
        proof {
            assert(v@ =~= s@.take(n as int));
        }
        Some(v)
    } else {
        None
    }
}

/// The parts of the first `n` characters between the places of `c`.
pub open spec fn pieces(s: Seq<char>, c: char, n: int) -> Seq<Seq<char>>
    decreases n,
{
    if n <= 0 || n > s.len() {
        seq![Seq::empty()]
    } else {
        let before = pieces(s, c, n - 1);
        if s[n - 1] == c {
            before.push(Seq::empty())
        } else {
            before.drop_last().push(before.last().push(s[n - 1]))
        }
    }
}

pub open spec fn char_rows(v: Seq<Vec<char>>) -> Seq<Seq<char>> {
    Seq::new(v.len(), |i: int| v[i]@)
}

pub fn split_chars(s: &Vec<char>, c: char) -> (r: Vec<Vec<char>>)
    ensures
        char_rows(r@) == pieces(s@, c, s@.len() as int),
        r@.len() > 0,
{
    let mut out: Vec<Vec<char>> = Vec::new();
    let mut open: Vec<char> = Vec::new();
    let mut n: usize = 0;
    proof {
        assert(char_rows(out@).push(open@) =~= seq![Seq::<char>::empty()]);
    }
    while n < s.len()
        invariant
            n <= s.len(),
            char_rows(out@).push(open@) == pieces(s@, c, n as int),
        decreases s.len() - n,
    {
        let ghost rows0 = char_rows(out@);
        let ghost open0 = open@;
        if s[n] == c {
            let mut next: Vec<char> = Vec::new();
            std::mem::swap(&mut open, &mut next);
            out.push(next);
            proof {
                assert(char_rows(out@) =~= rows0.push(open0));
                assert(open@ =~= Seq::empty());
            }
        } else {
            open.push(s[n]);
            proof {
                let before = rows0.push(open0);
                assert(before.drop_last() =~= rows0);
                assert(before.last() == open0);
            }
        }
        n = n + 1;
    }
    let ghost rows0 = char_rows(out@);
    let ghost open0 = open@;
    out.push(open);
    proof {
        assert(char_rows(out@) =~= rows0.push(open0));
    }
    out
}

/// Every `a` as a `b`.
pub open spec fn exchanged(s: Seq<char>, a: char, b: char) -> Seq<char> {
    Seq::new(
        s.len(),
        |i: int|
            if s[i] == a {
                b
            } else {
                s[i]
            },
    )
}

pub fn exchange(s: &Vec<char>, a: char, b: char) -> (r: Vec<char>)
    ensures
        r@ == exchanged(s@, a, b),
{
    let mut r: Vec<char> = Vec::new();
    let mut i: usize = 0;
    while i < s.len()
        invariant
            i <= s.len(),
            r@ =~= exchanged(s@, a, b).take(i as int),
        decreases s.len() - i,
    {
        r.push(
            if s[i] == a {
                b
            } else {
                s[i]
            },
        );
        i = i + 1;
    }
    proof {
        assert(r@ =~= exchanged(s@, a, b));
    }
    r
}

// ---------------------------------------------------------------- lengths as text

/// The first `n` digits, with zeros in front, of a number.
pub open spec fn padded(v: nat, n: nat) -> Seq<char>
    decreases n,
{
    if n == 0 {
        Seq::empty()
    } else {
        padded(v / 10, (n - 1) as nat).push(digit((v % 10) as int))
    }
}

/// A fraction in ten-thousandths, without zeros at its end.
pub open spec fn fraction(f: nat) -> Seq<char> {
    if f == 0 {
        Seq::empty()
    } else if f % 10 != 0 {
        seq!['.'] + padded(f, 4)
    } else if (f / 10) % 10 != 0 {
        seq!['.'] + padded(f / 10, 3)
    } else if (f / 100) % 10 != 0 {
        seq!['.'] + padded(f / 100, 2)
    } else {
        seq!['.'] + padded(f / 1000, 1)
    }
}

/// A length in millimetres, as short as it can be written exactly.
pub open spec fn mm_text(v: int) -> Seq<char> {
    let a = (if v < 0 {
        -v
    } else {
        v
    }) as nat;
    (if v < 0 {
        seq!['-']
    } else {
        Seq::empty()
    }) + decimal(a / 10000) + fraction(a % 10000)
}

fn to_padded(v: u32, n: u32) -> (r: Vec<char>)
    ensures
        r@ == padded(v as nat, n as nat),
    decreases n,
{
    if n == 0 {
        return Vec::new();
    }
    let mut r: Vec<char> = to_padded(v / 10, n - 1);
    r.push((48 + (v % 10) as u8) as char);
    r
}

pub fn to_mm_text(v: i32) -> (r: Vec<char>)
    ensures
        r@ == mm_text(v as int),
{
    let a: u32 = if v < 0 {
        (-(v as i64)) as u32
    } else {
        v as u32
    };
    let mut r: Vec<char> = Vec::new();
    if v < 0 {
        r.push('-');
    }
    let ghost sign = r@;
    append_chars(&mut r, &to_decimal((a / 10000) as u128));
    let f: u32 = a % 10000;
    if f != 0 {
        r.push('.');
        let digits: Vec<char> = if f % 10 != 0 {
            to_padded(f, 4)
        } else if (f / 10) % 10 != 0 {
            to_padded(f / 10, 3)
        } else if (f / 100) % 10 != 0 {
            to_padded(f / 100, 2)
        } else {
            to_padded(f / 1000, 1)
        };
        append_chars(&mut r, &digits);
    }
    proof {
        assert(sign =~= if v < 0 {
            seq!['-']
        } else {
            Seq::empty()
        });
        assert(r@ =~= mm_text(v as int));
    }
    r
}

} // verus!
