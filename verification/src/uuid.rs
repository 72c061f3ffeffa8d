//! Deterministic identifiers: every one is derived from the name of its sheet file and a key, so
//! that the same design always gives the same files.

use vstd::prelude::*;
use crate::text::{append_chars, chars_of, decimal, digit, text_of, to_decimal};

verus! {

/// What the parts of a key are joined by. It occurs in no name.
pub const SEP: char = '\u{1f}';

/// The namespace of names that are addresses, as RFC 4122 gives it.
pub const NAMESPACE_URL: u128 = 0x6ba7b811_9dad_11d1_80b4_00c04fd430c8;

/// The version 5 identifier of a name in a namespace.
pub uninterp spec fn v5(namespace: u128, name: Seq<char>) -> u128;

/// `uuid::Uuid::new_v5`: the identifier of a name, taken as UTF-8, in a namespace. Its version
/// field is 5, and its variant field is that of RFC 4122. Which identifier it is, a SHA-1 hash
/// decides; that two names never share one is not claimed.
#[verifier::external_body]
pub(crate) fn new_v5(namespace: u128, name: &str) -> (r: u128)
    ensures
        r == v5(namespace, name@),
        (r as int / 0x1000_0000_0000_0000_0000) % 16 == 5,
        (r as int / 0x4000_0000_0000_0000) % 4 == 2,
{
    uuid::Uuid::new_v5(&uuid::Uuid::from_u128(namespace), name.as_bytes()).as_u128()
}

// ---------------------------------------------------------------- as text

pub open spec fn hex_digit(d: int) -> char {
    if d < 10 {
        digit(d)
    } else {
        (87 + d) as u8 as char
    }
}

/// The last `n` digits of a number in base sixteen.
pub open spec fn hex(u: int, n: nat) -> Seq<char>
    decreases n,
{
    if n == 0 {
        Seq::empty()
    } else {
        hex(u / 16, (n - 1) as nat).push(hex_digit(u % 16))
    }
}

/// An identifier as text: thirty-two digits in groups of eight, four, four, four and twelve.
pub open spec fn hyphenated(u: u128) -> Seq<char> {
    let h = hex(u as int, 32);
    h.subrange(0, 8) + seq!['-'] + h.subrange(8, 12) + seq!['-'] + h.subrange(12, 16) + seq!['-']
        + h.subrange(16, 20) + seq!['-'] + h.subrange(20, 32)
}

fn to_hex(u: u128, n: usize) -> (v: Vec<char>)
    ensures
        v@ == hex(u as int, n as nat),
    decreases n,
{
    if n == 0 {
        return Vec::new();
    }
    let mut v: Vec<char> = to_hex(u / 16, n - 1);
    let d: u8 = (u % 16) as u8;
    v.push(
        if d < 10 {
            (48 + d) as char
        } else {
            (87 + d) as char
        },
    );
    v
}

proof fn lemma_hex_len(u: int, n: nat)
    ensures
        hex(u, n).len() == n,
    decreases n,
{
    if n > 0 {
        lemma_hex_len(u / 16, (n - 1) as nat);
    }
}

fn to_hyphenated(u: u128) -> (s: String)
    ensures
        s@ == hyphenated(u),
{
    let h: Vec<char> = to_hex(u, 32);
    let ghost hs = h@;
    proof {
        lemma_hex_len(u as int, 32);
    }
    let mut v: Vec<char> = Vec::new();
    let mut i: usize = 0;
    while i < 32
        invariant
            i <= 32,
            h@ == hs,
            hs.len() == 32,
            v@ =~= hs.subrange(0, if i <= 8 { i as int } else { 8 }) + (if i > 8 {
                seq!['-'] + hs.subrange(8, if i <= 12 { i as int } else { 12 })
            } else {
                Seq::empty()
            }) + (if i > 12 {
                seq!['-'] + hs.subrange(12, if i <= 16 { i as int } else { 16 })
            } else {
                Seq::empty()
            }) + (if i > 16 {
                seq!['-'] + hs.subrange(16, if i <= 20 { i as int } else { 20 })
            } else {
                Seq::empty()
            }) + (if i > 20 {
                seq!['-'] + hs.subrange(20, i as int)
            } else {
                Seq::empty()
            }),
        decreases 32 - i,
    {
        if i == 8 || i == 12 || i == 16 || i == 20 {
            v.push('-');
        }
        v.push(h[i]);
        i = i + 1;
    }
    proof {
        assert(v@ =~= hyphenated(u));
    }
    text_of(&v)
}

/// Sixteen to the power of `n`.
pub open spec fn pow16(n: nat) -> int
    decreases n,
{
    if n == 0 {
        1
    } else {
        16 * pow16((n - 1) as nat)
    }
}

proof fn lemma_hex_at(u: int, n: nat, k: int)
    requires
        u >= 0,
        0 <= k < n,
    ensures
        hex(u, n).len() == n,
        pow16((n - 1 - k) as nat) > 0,
        hex(u, n)[k] == hex_digit((u / pow16((n - 1 - k) as nat)) % 16),
    decreases n,
{
    lemma_hex_len(u, n);
    lemma_hex_len(u / 16, (n - 1) as nat);
    if k == n - 1 {
        assert(u / 1 == u);
    } else {
        let q = pow16((n - 2 - k) as nat);
        lemma_hex_at(u / 16, (n - 1) as nat, k);
        vstd::arithmetic::div_mod::lemma_div_denominator(u, 16, q);
    }
}

/// Every identifier reads as one of version 5 of RFC 4122: thirty-six characters with hyphens at
/// four places, the version digit 5, and a variant digit of 8, 9, a or b.
pub proof fn law_reads_as_version_5(u: u128)
    requires
        (u as int / 0x1000_0000_0000_0000_0000) % 16 == 5,
        (u as int / 0x4000_0000_0000_0000) % 4 == 2,
    ensures
        ({
            let t = hyphenated(u);
            &&& t.len() == 36
            &&& t[8] == '-' && t[13] == '-' && t[18] == '-' && t[23] == '-'
            &&& t[14] == '5'
            &&& t[19] == '8' || t[19] == '9' || t[19] == 'a' || t[19] == 'b'
        }),
{
    let v = u as int;
    lemma_hex_len(v, 32);
    reveal_with_fuel(pow16, 21);
    assert(pow16(19) == 0x1000_0000_0000_0000_0000);
    assert(pow16(15) == 0x1000_0000_0000_0000);
    lemma_hex_at(v, 32, 12);
    lemma_hex_at(v, 32, 16);
    let t = hyphenated(u);
    let h = hex(v, 32);
    assert(t.len() == 36);
    assert(t[14] == h[12]);
    assert(t[19] == h[16]);
    let d = (v / 0x1000_0000_0000_0000) % 16;
    assert((v / 0x1000_0000_0000_0000) / 4 == v / 0x4000_0000_0000_0000);
    assert(8 <= d <= 11);
    assert(hex_digit(5) == '5');
    assert(hex_digit(8) == '8' && hex_digit(9) == '9');
    assert(hex_digit(10) == 'a' && hex_digit(11) == 'b');
}

// ---------------------------------------------------------------- keys

/// Texts joined by the separator.
pub open spec fn joined_parts(parts: Seq<Seq<char>>, n: int) -> Seq<char>
    decreases n,
{
    if n <= 0 || n > parts.len() {
        Seq::empty()
    } else if n == 1 {
        parts[0]
    } else {
        joined_parts(parts, n - 1) + seq![SEP] + parts[n - 1]
    }
}

pub open spec fn texts(parts: Seq<&str>) -> Seq<Seq<char>> {
    Seq::new(parts.len(), |i: int| parts[i]@)
}

pub open spec fn key_of(parts: Seq<Seq<char>>) -> Seq<char> {
    joined_parts(parts, parts.len() as int)
}

/// How often the key is among the first `n`.
pub open spec fn times(keys: Seq<Seq<char>>, key: Seq<char>, n: int) -> nat
    decreases n,
{
    if n <= 0 || n > keys.len() {
        0
    } else {
        times(keys, key, n - 1) + if keys[n - 1] == key {
            1nat
        } else {
            0
        }
    }
}

/// The name that an identifier is derived from: the seed, the key, and how often the key was
/// asked for before.
pub open spec fn name_of(seed: Seq<char>, key: Seq<char>, n: nat) -> Seq<char> {
    seed + seq![SEP] + key + seq![SEP] + decimal(n)
}

/// The name that the identifier of a sheet is derived from.
pub open spec fn root_name(seed: Seq<char>) -> Seq<char> {
    seed + seq![SEP] + "__root__"@
}

/// The text of the identifier of a name.
pub open spec fn id_of(name: Seq<char>) -> Seq<char> {
    hyphenated(v5(v5(NAMESPACE_URL, "pcb-schematic"@), name))
}

/// The namespace of all identifiers.
fn namespace() -> (r: u128)
    ensures
        r == v5(NAMESPACE_URL, "pcb-schematic"@),
{
    new_v5(NAMESPACE_URL, "pcb-schematic")
}

/// The identifier of a key: the same for the same key, always.
pub fn stable_uuid(key: &str) -> (r: String)
    ensures
        r@ == id_of(key@),
        r@.len() == 36,
        r@[14] == '5',
        r@[19] == '8' || r@[19] == '9' || r@[19] == 'a' || r@[19] == 'b',
{
    let u: u128 = new_v5(namespace(), key);
    proof {
        law_reads_as_version_5(u);
    }
    to_hyphenated(u)
}

/// The identifiers of one sheet. A key that is asked for again gets another identifier.
#[derive(Debug)]
pub struct UuidGen {
    seed: String,
    /// The keys asked for so far.
    issued: Vec<String>,
}

/// The contents of a [`UuidGen`].
pub struct UuidGenView {
    pub seed: Seq<char>,
    pub issued: Seq<Seq<char>>,
}

impl View for UuidGen {
    type V = UuidGenView;

    closed spec fn view(&self) -> UuidGenView {
        UuidGenView {
            seed: self.seed@,
            issued: Seq::new(self.issued@.len(), |i: int| self.issued@[i]@),
        }
    }
}

impl UuidGenView {
    /// The identifier that a key gets next.
    pub open spec fn next_id(self, key: Seq<char>) -> Seq<char> {
        id_of(name_of(self.seed, key, times(self.issued, key, self.issued.len() as int)))
    }

    pub open spec fn after(self, key: Seq<char>) -> UuidGenView {
        UuidGenView { seed: self.seed, issued: self.issued.push(key) }
    }

    /// The identifier of the sheet.
    pub open spec fn root_id(self) -> Seq<char> {
        id_of(root_name(self.seed))
    }
}

fn join_parts(parts: &[&str]) -> (r: Vec<char>)
    ensures
        r@ == key_of(texts(parts@)),
{
    let ghost ts = texts(parts@);
    let mut out: Vec<char> = Vec::new();
    let mut n: usize = 0;
    while n < parts.len()
        invariant
            n <= parts.len(),
            ts == texts(parts@),
            out@ == joined_parts(ts, n as int),
        decreases parts.len() - n,
    {
        let ghost before = out@;
        if n > 0 {
            out.push(SEP);
        }
        let part: Vec<char> = chars_of(parts[n]);
        append_chars(&mut out, &part);
        n = n + 1;
        proof {
            assert(part@ == ts[n - 1]);
            if n == 1 {
                assert(out@ =~= ts[0]);
            } else {
                assert(out@ =~= before + seq![SEP] + ts[n - 1]);
            }
        }
    }
    out
}

impl UuidGen {
    /// The identifiers of the sheet with this file name.
    pub fn new(seed: &str) -> (r: UuidGen)
        ensures
            r@ == (UuidGenView { seed: seed@, issued: Seq::empty() }),
    {
        let r: UuidGen = UuidGen { seed: seed.to_owned(), issued: Vec::new() };
        proof {
            assert(r@.issued =~= Seq::empty());
        }
        r
    }

    /// The next identifier of a key.
    pub fn next(&mut self, parts: &[&str]) -> (r: String)
        ensures
            r@ == old(self)@.next_id(key_of(texts(parts@))),
            final(self)@ == old(self)@.after(key_of(texts(parts@))),
    {
        let key: Vec<char> = join_parts(parts);
        let key_text: String = text_of(&key);
        let ghost g = self@;
        let mut count: usize = 0;
        let mut n: usize = 0;
        while n < self.issued.len()
            invariant
                n <= self.issued@.len(),
                g == self@,
                key_text@ == key@,
                count == times(g.issued, key@, n as int),
                count <= n,
            decreases self.issued.len() - n,
        {
            proof {
                assert(g.issued[n as int] == self.issued@[n as int]@);
            }
            if self.issued[n] == key_text {
                count = count + 1;
            }
            n = n + 1;
        }
        let mut name: Vec<char> = chars_of(self.seed.as_str());
        name.push(SEP);
        append_chars(&mut name, &key);
        name.push(SEP);
        append_chars(&mut name, &to_decimal(count as u128));
        proof {
            assert(name@ =~= name_of(g.seed, key@, count as nat));
        }
        let r: String = stable_uuid(text_of(&name).as_str());
        self.issued.push(key_text);
        proof {
            assert(self@.issued =~= g.issued.push(key@));
        }
        r
    }

    /// The identifier of the sheet itself.
    pub fn root_uuid(&self) -> (r: String)
        ensures
            r@ == self@.root_id(),
    {
        let mut name: Vec<char> = chars_of(self.seed.as_str());
        name.push(SEP);
        append_chars(&mut name, &chars_of("__root__"));
        proof {
            assert(name@ =~= root_name(self@.seed));
        }
        stable_uuid(text_of(&name).as_str())
    }
}

// ---------------------------------------------------------------- no two keys are confused

/// The separator does not occur in the text.
pub open spec fn plain(s: Seq<char>) -> bool {
    forall|i: int| 0 <= i < s.len() ==> #[trigger] s[i] != SEP
}

pub open spec fn all_plain(parts: Seq<Seq<char>>) -> bool {
    forall|i: int| 0 <= i < parts.len() ==> plain(#[trigger] parts[i])
}

/// Where the last separator is fixes what stands before and behind it.
proof fn lemma_last_split(x: Seq<char>, p: Seq<char>, y: Seq<char>, q: Seq<char>)
    requires
        plain(p),
        plain(q),
        x + seq![SEP] + p == y + seq![SEP] + q,
    ensures
        x == y,
        p == q,
{
    let s = x + seq![SEP] + p;
    let t = y + seq![SEP] + q;
    assert(s.len() == x.len() + 1 + p.len());
    assert(t.len() == y.len() + 1 + q.len());
    if x.len() < y.len() {
        assert(t[y.len() as int] == SEP);
        assert(s[y.len() as int] == p[y.len() - x.len() - 1]);
        assert(false);
    }
    if y.len() < x.len() {
        assert(s[x.len() as int] == SEP);
        assert(t[x.len() as int] == q[x.len() - y.len() - 1]);
        assert(false);
    }
    assert(s.take(x.len() as int) =~= x);
    assert(t.take(y.len() as int) =~= y);
    assert(s.skip(x.len() as int + 1) =~= p);
    assert(t.skip(y.len() as int + 1) =~= q);
}

/// Where the first separator is fixes what stands before and behind it.
proof fn lemma_first_split(x: Seq<char>, p: Seq<char>, y: Seq<char>, q: Seq<char>)
    requires
        plain(x),
        plain(y),
        x + seq![SEP] + p == y + seq![SEP] + q,
    ensures
        x == y,
        p == q,
{
    let s = x + seq![SEP] + p;
    let t = y + seq![SEP] + q;
    if x.len() < y.len() {
        assert(s[x.len() as int] == SEP);
        assert(t[x.len() as int] == y[x.len() as int]);
        assert(false);
    }
    if y.len() < x.len() {
        assert(t[y.len() as int] == SEP);
        assert(s[y.len() as int] == x[y.len() as int]);
        assert(false);
    }
    assert(s.take(x.len() as int) =~= x);
    assert(t.take(y.len() as int) =~= y);
    assert(s.skip(x.len() as int + 1) =~= p);
    assert(t.skip(y.len() as int + 1) =~= q);
}

proof fn lemma_joined_take(parts: Seq<Seq<char>>, n: int, m: int)
    requires
        0 <= n <= m <= parts.len(),
    ensures
        joined_parts(parts.take(m), n) == joined_parts(parts, n),
    decreases n,
{
    if n > 1 {
        lemma_joined_take(parts, n - 1, m);
    }
}

/// Keys whose parts hold no separator are the same only where all of their parts are.
pub proof fn law_keys_are_unambiguous(a: Seq<Seq<char>>, b: Seq<Seq<char>>)
    requires
        a.len() > 0,
        b.len() > 0,
        all_plain(a),
        all_plain(b),
        key_of(a) == key_of(b),
    ensures
        a == b,
    decreases a.len(),
{
    let m = a.len() as int;
    let n = b.len() as int;
    assert(plain(a[m - 1]));
    assert(plain(b[n - 1]));
    if m == 1 && n == 1 {
        assert(a =~= b);
    } else if m == 1 {
        let t = key_of(b);
        let k = joined_parts(b, n - 1).len() as int;
        assert(t[k] == SEP);
        assert(plain(a[0]));
    } else if n == 1 {
        let t = key_of(a);
        let k = joined_parts(a, m - 1).len() as int;
        assert(t[k] == SEP);
        assert(plain(b[0]));
    } else {
        lemma_last_split(joined_parts(a, m - 1), a[m - 1], joined_parts(b, n - 1), b[n - 1]);
        let c = a.take(m - 1);
        let d = b.take(n - 1);
        lemma_joined_take(a, m - 1, m - 1);
        lemma_joined_take(b, n - 1, n - 1);
        assert forall|i: int| 0 <= i < c.len() implies plain(#[trigger] c[i]) by {
            assert(plain(a[i]));
        }
        assert forall|i: int| 0 <= i < d.len() implies plain(#[trigger] d[i]) by {
            assert(plain(b[i]));
        }
        law_keys_are_unambiguous(c, d);
        assert(a =~= c.push(a[m - 1]));
        assert(b =~= d.push(b[n - 1]));
    }
}

proof fn lemma_decimal_plain(n: nat)
    ensures
        plain(decimal(n)),
    decreases n,
{
    let d = (n % 10) as int;
    assert(((48 + d) as u8 as char) as u32 == 48 + d);
    assert(SEP as u32 == 31);
    assert(digit(d) != SEP);
    if n >= 10 {
        lemma_decimal_plain(n / 10);
    }
}

/// Two identifiers are derived from the same name only if they are of the same sheet, the same
/// key, and the same occurrence of it.
pub proof fn law_names_are_unambiguous(
    s: Seq<char>,
    a: Seq<Seq<char>>,
    i: nat,
    t: Seq<char>,
    b: Seq<Seq<char>>,
    j: nat,
)
    requires
        plain(s),
        plain(t),
        a.len() > 0,
        b.len() > 0,
        all_plain(a),
        all_plain(b),
        name_of(s, key_of(a), i) == name_of(t, key_of(b), j),
    ensures
        s == t,
        a == b,
        i == j,
{
    lemma_decimal_plain(i);
    lemma_decimal_plain(j);
    lemma_last_split(s + seq![SEP] + key_of(a), decimal(i), t + seq![SEP] + key_of(b), decimal(j));
    crate::text::law_decimal_injective(i, j);
    lemma_first_split(s, key_of(a), t, key_of(b));
    law_keys_are_unambiguous(a, b);
}

/// The name of a sheet's own identifier is that of no element of a sheet.
pub proof fn law_root_name_is_apart(s: Seq<char>, t: Seq<char>, key: Seq<char>, n: nat)
    requires
        plain(s),
        plain(t),
    ensures
        root_name(s) != name_of(t, key, n),
{
    if root_name(s) == name_of(t, key, n) {
        let tail = key + seq![SEP] + decimal(n);
        assert(name_of(t, key, n) =~= t + seq![SEP] + tail);
        lemma_first_split(s, "__root__"@, t, tail);
        reveal_strlit("__root__");
        assert("__root__"@[key.len() as int] == tail[key.len() as int]);
        assert(tail[key.len() as int] == SEP);
        assert(forall|k: int| 0 <= k < 8 ==> "__root__"@[k] != SEP);
        assert("__root__"@.len() == 8);
        assert(tail.len() > key.len());
    }
}

} // verus!
