//! The project file beside a generated schematic: checks that embedded symbols cannot pass are
//! switched off in it, and everything else in it is kept.

use vstd::prelude::*;
use crate::text::{append_chars, chars_of, text_of};

verus! {

/// A JSON value.
#[verifier::external_type_specification]
#[verifier::external_body]
pub struct ExValue(serde_json::Value);

/// Why a text is no JSON.
#[verifier::external_type_specification]
#[verifier::external_body]
pub struct ExError(serde_json::Error);

// ---------------------------------------------------------------- what a value holds

/// The members of an object; none for any other value.
pub uninterp spec fn members(v: serde_json::Value) -> Option<Map<Seq<char>, serde_json::Value>>;

/// The characters of a text; none for any other value.
pub uninterp spec fn text_in(v: serde_json::Value) -> Option<Seq<char>>;

/// The number that a value is; none for any other value.
pub uninterp spec fn number_in(v: serde_json::Value) -> Option<u64>;

/// The value that a JSON text stands for; none where the text is no JSON.
pub uninterp spec fn json_read(text: Seq<char>) -> Option<serde_json::Value>;

/// The indented JSON text of a value.
pub uninterp spec fn json_pretty(v: serde_json::Value) -> Seq<char>;

/// A text, a whole number, or an object of such values, at most `depth` levels deep.
pub open spec fn plain_json(v: serde_json::Value, depth: nat) -> bool
    decreases depth,
{
    depth > 0 && (text_in(v) is Some || number_in(v) is Some || (members(v) is Some && forall|
        k: Seq<char>,
    | #[trigger]
        members(v)->0.dom().contains(k) ==> plain_json(members(v)->0[k], (depth - 1) as nat)))
}

/// The first `n` members as a table.
pub open spec fn table(ms: Seq<(String, serde_json::Value)>, n: int) -> Map<
    Seq<char>,
    serde_json::Value,
>
    decreases n,
{
    if n <= 0 || n > ms.len() {
        Map::empty()
    } else {
        table(ms, n - 1).insert(ms[n - 1].0@, ms[n - 1].1)
    }
}

/// No name comes twice.
pub open spec fn distinct(ms: Seq<(String, serde_json::Value)>) -> bool {
    forall|i: int, j: int|
        0 <= i < j < ms.len() ==> (#[trigger] ms[i]).0@ != (#[trigger] ms[j]).0@
}

/// `serde_json::from_str` for a value of any shape: the value of the text, or an error where the
/// text is no JSON.
#[verifier::external_body]
fn parse_json(text: &str) -> (r: Result<serde_json::Value, serde_json::Error>)
    ensures
        match r {
            Ok(v) => json_read(text@) == Some(v),
            Err(_) => json_read(text@) is None,
        },
{
    serde_json::from_str(text)
}

/// `serde_json::to_string_pretty` for a value of any shape: its indented text. A value has nothing
/// that cannot be written, so there always is one. Read again, with a line end behind it, the text
/// gives the value back; this is not claimed of values that hold fractions, which may be read a
/// little off, nor of values that are nested deeper than the reader goes.
#[verifier::external_body]
fn print_json(v: &serde_json::Value) -> (r: Result<String, serde_json::Error>)
    ensures
        r is Ok,
        r->Ok_0@ == json_pretty(*v),
        plain_json(*v, 64) ==> json_read(r->Ok_0@.push('\n')) == Some(*v),
{
    serde_json::to_string_pretty(v)
}

/// `serde_json::Value::Object`, taken apart: the members of the object, each name once; nothing
/// for a value that is no object.
#[verifier::external_body]
fn take_members(v: serde_json::Value) -> (r: Option<Vec<(String, serde_json::Value)>>)
    ensures
        match r {
            Some(ms) => members(v) == Some(table(ms@, ms@.len() as int)) && distinct(ms@),
            None => members(v) is None,
        },
{
    match v {
        serde_json::Value::Object(map) => Some(map.into_iter().collect()),
        _ => None,
    }
}

/// `serde_json::Value::Object`, put together: an object with these members.
#[verifier::external_body]
fn make_object(ms: Vec<(String, serde_json::Value)>) -> (r: serde_json::Value)
    requires
        distinct(ms@),
    ensures
        members(r) == Some(table(ms@, ms@.len() as int)),
{
    serde_json::Value::Object(ms.into_iter().collect())
}

/// `serde_json::Value::String`: a text as a value.
#[verifier::external_body]
fn make_text(s: &str) -> (r: serde_json::Value)
    ensures
        text_in(r) == Some(s@),
{
    serde_json::Value::String(s.to_owned())
}

/// `serde_json::Value::from` for a whole number: the number as a value.
#[verifier::external_body]
fn make_number(n: u64) -> (r: serde_json::Value)
    ensures
        number_in(r) == Some(n),
{
    serde_json::Value::from(n)
}

// ---------------------------------------------------------------- patching

/// Why a project file could not be made.
#[derive(Clone, Copy, Debug, PartialEq, Eq, Structural)]
pub enum ProjectError {
    /// The text is no JSON.
    Unreadable,
    /// The project is no object.
    RootNotObject,
    /// The `erc` member is no object.
    ErcNotObject,
    /// The `erc.rule_severities` member is no object.
    SeveritiesNotObject,
}

/// The checks that are switched off: symbols and footprints are embedded, so no installed library
/// can hold them.
pub open spec fn ignored_rules() -> Seq<Seq<char>> {
    seq!["lib_symbol_issues"@, "lib_symbol_mismatch"@, "footprint_link_issues"@]
}

/// The members of a member, where it is an object; no members where there is none.
pub open spec fn inner(m: Map<Seq<char>, serde_json::Value>, key: Seq<char>) -> Option<
    Map<Seq<char>, serde_json::Value>,
> {
    if m.dom().contains(key) {
        members(m[key])
    } else {
        Some(Map::empty())
    }
}

/// Nothing but one member differs, and that one is there.
pub open spec fn only_changes(
    a: Map<Seq<char>, serde_json::Value>,
    b: Map<Seq<char>, serde_json::Value>,
    key: Seq<char>,
) -> bool {
    b.dom().contains(key) && b =~= a.insert(key, b[key])
}

/// The checks are switched off, and every other severity is kept.
pub open spec fn switched_off(
    a: Map<Seq<char>, serde_json::Value>,
    b: Map<Seq<char>, serde_json::Value>,
) -> bool {
    &&& forall|i: int|
        0 <= i < ignored_rules().len() ==> b.dom().contains(#[trigger] ignored_rules()[i])
            && text_in(b[ignored_rules()[i]]) == Some("ignore"@)
    &&& forall|k: Seq<char>|
        !ignored_rules().contains(k) ==> #[trigger] b.dom().contains(k) == a.dom().contains(k) && (
        a.dom().contains(k) ==> b[k] == a[k])
}

/// What stops a project from being patched.
pub open spec fn patch_fault(v: serde_json::Value) -> Option<ProjectError> {
    match members(v) {
        None => Some(ProjectError::RootNotObject),
        Some(root) => match inner(root, "erc"@) {
            None => Some(ProjectError::ErcNotObject),
            Some(erc) => match inner(erc, "rule_severities"@) {
                None => Some(ProjectError::SeveritiesNotObject),
                Some(_) => None,
            },
        },
    }
}

/// `r` is the project `v` with the checks switched off and nothing else changed.
pub open spec fn is_patched(v: serde_json::Value, r: serde_json::Value) -> bool {
    let root = members(v)->0;
    let root2 = members(r)->0;
    let erc = inner(root, "erc"@)->0;
    let erc2 = members(root2["erc"@])->0;
    let sev = inner(erc, "rule_severities"@)->0;
    let sev2 = members(erc2["rule_severities"@])->0;
    &&& members(r) is Some
    &&& only_changes(root, root2, "erc"@)
    &&& members(root2["erc"@]) is Some
    &&& only_changes(erc, erc2, "rule_severities"@)
    &&& members(erc2["rule_severities"@]) is Some
    &&& switched_off(sev, sev2)
}

proof fn lemma_table_dom(ms: Seq<(String, serde_json::Value)>, n: int, key: Seq<char>)
    requires
        0 <= n <= ms.len(),
        distinct(ms),
    ensures
        table(ms, n).dom().contains(key) <==> exists|i: int|
            0 <= i < n && (#[trigger] ms[i]).0@ == key,
        forall|i: int| 0 <= i < n ==> table(ms, n)[(#[trigger] ms[i]).0@] == ms[i].1,
    decreases n,
{
    if n > 0 {
        lemma_table_dom(ms, n - 1, key);
        assert forall|i: int| 0 <= i < n implies table(ms, n)[(#[trigger] ms[i]).0@]
            == ms[i].1 by {
            if i < n - 1 {
                assert(ms[i].0@ != ms[n - 1].0@);
            }
        }
        if table(ms, n).dom().contains(key) {
            if key == ms[n - 1].0@ {
                assert(ms[n - 1].0@ == key);
            } else {
                let i = choose|i: int| 0 <= i < n - 1 && (#[trigger] ms[i]).0@ == key;
                assert(ms[i].0@ == key);
            }
        }
    }
}

proof fn lemma_table_prefix(a: Seq<(String, serde_json::Value)>, b: Seq<(String, serde_json::Value)>, n: int)
    requires
        0 <= n <= a.len(),
        n <= b.len(),
        forall|i: int| 0 <= i < n ==> #[trigger] a[i] == b[i],
    ensures
        table(a, n) == table(b, n),
    decreases n,
{
    if n > 0 {
        lemma_table_prefix(a, b, n - 1);
        assert(a[n - 1] == b[n - 1]);
    }
}

/// Take the member out of the list, where it is there.
fn take_member(ms: &mut Vec<(String, serde_json::Value)>, key: &str) -> (r: Option<
    serde_json::Value,
>)
    requires
        distinct(old(ms)@),
    ensures
        distinct(final(ms)@),
        ({
            let before = table(old(ms)@, old(ms)@.len() as int);
            let after = table(final(ms)@, final(ms)@.len() as int);
            &&& after =~= before.remove(key@)
            &&& match r {
                Some(v) => before.dom().contains(key@) && before[key@] == v,
                None => !before.dom().contains(key@),
            }
        }),
        forall|i: int| 0 <= i < final(ms)@.len() ==> (#[trigger] final(ms)@[i]).0@ != key@,
{
    let ghost m0 = ms@;
    let ghost before = table(m0, m0.len() as int);
    let wanted: String = key.to_owned();
    let mut i: usize = 0;
    while i < ms.len()
        invariant
            i <= ms@.len(),
            ms@ == m0,
            m0 == old(ms)@,
            distinct(m0),
            wanted@ == key@,
            before == table(m0, m0.len() as int),
            forall|k: int| 0 <= k < i ==> (#[trigger] m0[k]).0@ != key@,
        decreases ms.len() - i,
    {
        if ms[i].0 == wanted {
            let taken: (String, serde_json::Value) = ms.remove(i);
            proof {
                let m1 = ms@;
                assert(m1 =~= m0.remove(i as int));
                assert(m0[i as int].0@ == key@);
                assert(taken == m0[i as int]);
                assert forall|a: int, b: int| 0 <= a < b < m1.len() implies (#[trigger] m1[a]).0@
                    != (#[trigger] m1[b]).0@ by {
                    let x = if a < i {
                        a
                    } else {
                        a + 1
                    };
                    let y = if b < i {
                        b
                    } else {
                        b + 1
                    };
                    assert(m1[a] == m0[x] && m1[b] == m0[y]);
                }
                assert forall|a: int| 0 <= a < m1.len() implies (#[trigger] m1[a]).0@ != key@ by {
                    let x = if a < i {
                        a
                    } else {
                        a + 1
                    };
                    assert(m1[a] == m0[x]);
                    if x < i {
                        assert(m0[x].0@ != m0[i as int].0@);
                    } else {
                        assert(m0[i as int].0@ != m0[x].0@);
                    }
                }
                lemma_table_remove(m0, i as int);
                lemma_table_dom(m0, m0.len() as int, key@);
                assert(m1.len() == m0.len() - 1);
                assert(table(m1, m1.len() as int) =~= before.remove(key@));
                assert(before[m0[i as int].0@] == m0[i as int].1);
            }
            return Some(taken.1);
        }
        i = i + 1;
    }
    proof {
        lemma_table_dom(m0, m0.len() as int, key@);
        assert(before.remove(key@) =~= before);
    }
    None
}

proof fn lemma_table_remove(ms: Seq<(String, serde_json::Value)>, k: int)
    requires
        distinct(ms),
        0 <= k < ms.len(),
    ensures
        table(ms.remove(k), ms.len() - 1) =~= table(ms, ms.len() as int).remove(ms[k].0@),
{
    let r = ms.remove(k);
    let n = ms.len() as int;
    assert forall|a: int, b: int| 0 <= a < b < r.len() implies (#[trigger] r[a]).0@ != (
    #[trigger] r[b]).0@ by {
        let x = if a < k {
            a
        } else {
            a + 1
        };
        let y = if b < k {
            b
        } else {
            b + 1
        };
        assert(r[a] == ms[x] && r[b] == ms[y]);
    }
    let t = table(ms, n).remove(ms[k].0@);
    let u = table(r, n - 1);
    assert forall|key: Seq<char>| #[trigger] u.dom().contains(key) == t.dom().contains(key) && (
    u.dom().contains(key) ==> u[key] == t[key]) by {
        lemma_table_dom(ms, n, key);
        lemma_table_dom(r, n - 1, key);
        if u.dom().contains(key) {
            let i = choose|i: int| 0 <= i < n - 1 && (#[trigger] r[i]).0@ == key;
            let x = if i < k {
                i
            } else {
                i + 1
            };
            assert(r[i] == ms[x]);
            if x < k {
                assert(ms[x].0@ != ms[k].0@);
            } else {
                assert(ms[k].0@ != ms[x].0@);
            }
            assert(ms[x].0@ == key);
        }
        if t.dom().contains(key) {
            let x = choose|x: int| 0 <= x < n && (#[trigger] ms[x]).0@ == key;
            let i = if x < k {
                x
            } else {
                x - 1
            };
            assert(r[i] == ms[x]);
        }
    }
    assert(u =~= t);
}

/// Put a member that is not there behind the others.
fn put_member(ms: &mut Vec<(String, serde_json::Value)>, key: &str, v: serde_json::Value)
    requires
        distinct(old(ms)@),
        forall|i: int| 0 <= i < old(ms)@.len() ==> (#[trigger] old(ms)@[i]).0@ != key@,
    ensures
        distinct(final(ms)@),
        table(final(ms)@, final(ms)@.len() as int) == table(
            old(ms)@,
            old(ms)@.len() as int,
        ).insert(key@, v),
        final(ms)@.len() == old(ms)@.len() + 1,
        final(ms)@.last().0@ == key@,
        final(ms)@.drop_last() == old(ms)@,
{
    let ghost m0 = ms@;
    ms.push((key.to_owned(), v));
    proof {
        let m1 = ms@;
        lemma_table_prefix(m0, m1, m0.len() as int);
        assert(m1.drop_last() =~= m0);
        assert forall|a: int, b: int| 0 <= a < b < m1.len() implies (#[trigger] m1[a]).0@ != (
        #[trigger] m1[b]).0@ by {
            if b < m0.len() {
                assert(m1[a] == m0[a] && m1[b] == m0[b]);
            } else {
                assert(m1[a] == m0[a]);
            }
        }
    }
}

/// The members of the member, taken out of the list; none where it is there and no object.
fn take_inner(ms: &mut Vec<(String, serde_json::Value)>, key: &str) -> (r: Option<
    Vec<(String, serde_json::Value)>,
>)
    requires
        distinct(old(ms)@),
    ensures
        distinct(final(ms)@),
        forall|i: int| 0 <= i < final(ms)@.len() ==> (#[trigger] final(ms)@[i]).0@ != key@,
        ({
            let before = table(old(ms)@, old(ms)@.len() as int);
            let after = table(final(ms)@, final(ms)@.len() as int);
            &&& after == before.remove(key@)
            &&& match r {
                Some(xs) => inner(before, key@) == Some(table(xs@, xs@.len() as int))
                    && distinct(xs@),
                None => inner(before, key@) is None,
            }
        }),
{
    match take_member(ms, key) {
        Some(v) => take_members(v),
        None => {
            let none: Vec<(String, serde_json::Value)> = Vec::new();
            proof {
                assert(table(none@, 0) == Map::<Seq<char>, serde_json::Value>::empty());
            }
            Some(none)
        },
    }
}

fn set_text(ms: &mut Vec<(String, serde_json::Value)>, key: &str, text: &str)
    requires
        distinct(old(ms)@),
    ensures
        distinct(final(ms)@),
        ({
            let before = table(old(ms)@, old(ms)@.len() as int);
            let after = table(final(ms)@, final(ms)@.len() as int);
            only_changes(before, after, key@) && text_in(after[key@]) == Some(text@)
        }),
{
    let _ = take_member(ms, key);
    put_member(ms, key, make_text(text));
}

/// Switch the checks off in a project.
pub fn patch_project(v: serde_json::Value) -> (r: Result<serde_json::Value, ProjectError>)
    ensures
        match patch_fault(v) {
            Some(e) => r == Err::<serde_json::Value, ProjectError>(e),
            None => r matches Ok(p) && is_patched(v, p),
        },
{
    let mut root: Vec<(String, serde_json::Value)> = match take_members(v) {
        Some(ms) => ms,
        None => return Err(ProjectError::RootNotObject),
    };
    let mut erc: Vec<(String, serde_json::Value)> = match take_inner(&mut root, "erc") {
        Some(ms) => ms,
        None => return Err(ProjectError::ErcNotObject),
    };
    let mut sev: Vec<(String, serde_json::Value)> = match take_inner(&mut erc, "rule_severities") {
        Some(ms) => ms,
        None => return Err(ProjectError::SeveritiesNotObject),
    };
    let ghost s0 = table(sev@, sev@.len() as int);
    set_text(&mut sev, "lib_symbol_issues", "ignore");
    let ghost s1 = table(sev@, sev@.len() as int);
    set_text(&mut sev, "lib_symbol_mismatch", "ignore");
    let ghost s2 = table(sev@, sev@.len() as int);
    set_text(&mut sev, "footprint_link_issues", "ignore");
    let ghost s3 = table(sev@, sev@.len() as int);
    proof {
        lemma_rules_differ();
        let rules = ignored_rules();
        assert(rules[0] == "lib_symbol_issues"@);
        assert(rules[1] == "lib_symbol_mismatch"@);
        assert(rules[2] == "footprint_link_issues"@);
        assert forall|k: Seq<char>| !rules.contains(k) implies #[trigger] s3.dom().contains(k)
            == s0.dom().contains(k) && (s0.dom().contains(k) ==> s3[k] == s0[k]) by {
            assert(rules.contains(rules[0]));
            assert(rules.contains(rules[1]));
            assert(rules.contains(rules[2]));
        }
        assert(switched_off(s0, s3));
    }
    put_member(&mut erc, "rule_severities", make_object(sev));
    put_member(&mut root, "erc", make_object(erc));
    Ok(make_object(root))
}

proof fn lemma_rules_differ()
    ensures
        "lib_symbol_issues"@ != "lib_symbol_mismatch"@,
        "lib_symbol_issues"@ != "footprint_link_issues"@,
        "lib_symbol_mismatch"@ != "footprint_link_issues"@,
{
    reveal_strlit("lib_symbol_issues");
    reveal_strlit("lib_symbol_mismatch");
    reveal_strlit("footprint_link_issues");
    assert("lib_symbol_issues"@.len() == 17);
    assert("lib_symbol_mismatch"@.len() == 19);
    assert("footprint_link_issues"@.len() == 21);
}

/// A project of its own: its file name and its version.
pub open spec fn is_new_project(v: serde_json::Value, name: Seq<char>) -> bool {
    let root = members(v)->0;
    let meta = members(root["meta"@])->0;
    &&& members(v) is Some
    &&& root.dom() =~= set!["meta"@]
    &&& members(root["meta"@]) is Some
    &&& meta.dom() =~= set!["filename"@, "version"@]
    &&& text_in(meta["filename"@]) == Some(name + ".kicad_pro"@)
    &&& number_in(meta["version"@]) == Some(3u64)
}

/// A project of its own, before it is patched.
pub fn new_project(project_name: &str) -> (r: serde_json::Value)
    ensures
        is_new_project(r, project_name@),
        patch_fault(r) is None,
{
    let mut file: Vec<char> = chars_of(project_name);
    append_chars(&mut file, &chars_of(".kicad_pro"));
    let mut meta: Vec<(String, serde_json::Value)> = Vec::new();
    put_member(&mut meta, "filename", make_text(text_of(&file).as_str()));
    proof {
        reveal_strlit("filename");
        reveal_strlit("version");
        reveal_strlit("erc");
        reveal_strlit("meta");
        assert("filename"@.len() == 8 && "version"@.len() == 7);
        assert("erc"@.len() == 3 && "meta"@.len() == 4);
    }
    put_member(&mut meta, "version", make_number(3));
    let ghost m = table(meta@, meta@.len() as int);
    let mut root: Vec<(String, serde_json::Value)> = Vec::new();
    put_member(&mut root, "meta", make_object(meta));
    proof {
        assert(m.dom() =~= set!["filename"@, "version"@]);
        assert(table(root@, root@.len() as int).dom() =~= set!["meta"@]);
    }
    make_object(root)
}

/// The project that a file starts from.
pub open spec fn starts_from(existing: Option<&str>, name: Seq<char>, v: serde_json::Value) -> bool {
    match existing {
        Some(text) => json_read(text@) == Some(v),
        None => is_new_project(v, name),
    }
}

/// A new project holds nothing that is lost when it is written and read again.
proof fn lemma_new_is_plain(v: serde_json::Value, p: serde_json::Value, name: Seq<char>)
    requires
        is_new_project(v, name),
        is_patched(v, p),
    ensures
        plain_json(p, 64),
{
    reveal_with_fuel(plain_json, 5);
    reveal_strlit("erc");
    reveal_strlit("meta");
    assert("erc"@.len() == 3 && "meta"@.len() == 4);
    let root = members(p)->0;
    let erc = members(root["erc"@])->0;
    let sev = members(erc["rule_severities"@])->0;
    let none = Map::<Seq<char>, serde_json::Value>::empty();
    assert(inner(members(v)->0, "erc"@) == Some(none));
    assert(inner(none, "rule_severities"@) == Some(none));
    assert forall|k: Seq<char>| #[trigger] sev.dom().contains(k) implies plain_json(
        sev[k],
        61,
    ) by {
        if ignored_rules().contains(k) {
            let i = choose|i: int| 0 <= i < ignored_rules().len() && ignored_rules()[i] == k;
            assert(text_in(sev[ignored_rules()[i]]) == Some("ignore"@));
        } else {
            assert(none.dom().contains(k));
        }
    }
    assert(plain_json(erc["rule_severities"@], 62));
    assert forall|k: Seq<char>| #[trigger] erc.dom().contains(k) implies plain_json(
        erc[k],
        62,
    ) by {
        assert(k == "rule_severities"@);
    }
    assert(plain_json(root["erc"@], 63));
    let meta = members(root["meta"@])->0;
    assert forall|k: Seq<char>| #[trigger] meta.dom().contains(k) implies plain_json(
        meta[k],
        62,
    ) by {
        assert(k == "filename"@ || k == "version"@);
    }
    assert(plain_json(root["meta"@], 63));
    assert forall|k: Seq<char>| #[trigger] root.dom().contains(k) implies plain_json(
        root[k],
        63,
    ) by {
        assert(k == "erc"@ || k == "meta"@);
    }
}

/// The project file beside a schematic: the existing one with the checks switched off, or a new
/// one.
pub fn kicad_pro_content(existing: Option<&str>, project_name: &str) -> (r: Result<
    String,
    ProjectError,
>)
    ensures
        match existing {
            Some(text) => match json_read(text@) {
                Some(v) => match patch_fault(v) {
                    Some(f) => r == Err::<String, ProjectError>(f),
                    None => r is Ok,
                },
                None => r == Err::<String, ProjectError>(ProjectError::Unreadable),
            },
            None => r is Ok,
        },
        r matches Ok(s) ==> exists|v: serde_json::Value, p: serde_json::Value|
            {
                &&& starts_from(existing, project_name@, v)
                &&& patch_fault(v) is None
                &&& #[trigger] is_patched(v, p)
                &&& s@ == json_pretty(p).push('\n')
                &&& plain_json(p, 64) ==> json_read(s@) == Some(p)
                &&& existing is None ==> plain_json(p, 64)
            },
{
    let v: serde_json::Value = match existing {
        Some(text) => match parse_json(text) {
            Ok(v) => v,
            Err(_) => return Err(ProjectError::Unreadable),
        },
        None => new_project(project_name),
    };
    let ghost start = v;
    let p: serde_json::Value = match patch_project(v) {
        Ok(p) => p,
        Err(e) => return Err(e),
    };
    let text: String = print_json(&p).unwrap();
    let mut out: Vec<char> = chars_of(text.as_str());
    out.push('\n');
    proof {
        assert(is_patched(start, p));
        if existing is None {
            lemma_new_is_plain(start, p, project_name@);
        }
    }
    Ok(text_of(&out))
}

/// Patching a project again gives a project that is just as well the first one patched once.
pub proof fn law_patch_again(v: serde_json::Value, p: serde_json::Value, q: serde_json::Value)
    requires
        patch_fault(v) is None,
        is_patched(v, p),
        is_patched(p, q),
    ensures
        patch_fault(p) is None,
        is_patched(v, q),
{
    let root = members(v)->0;
    let root1 = members(p)->0;
    let root2 = members(q)->0;
    let erc = inner(root, "erc"@)->0;
    let erc1 = members(root1["erc"@])->0;
    let erc2 = members(root2["erc"@])->0;
    assert(root2 =~= root.insert("erc"@, root2["erc"@]));
    assert(erc2 =~= erc.insert("rule_severities"@, erc2["rule_severities"@]));
    let sev = inner(erc, "rule_severities"@)->0;
    let sev1 = members(erc1["rule_severities"@])->0;
    let sev2 = members(erc2["rule_severities"@])->0;
    assert(switched_off(sev, sev1));
    assert(switched_off(sev1, sev2));
    assert forall|k: Seq<char>| !ignored_rules().contains(k) implies #[trigger] sev2.dom().contains(
        k,
    ) == sev.dom().contains(k) && (sev.dom().contains(k) ==> sev2[k] == sev[k]) by {
        assert(sev1.dom().contains(k) == sev.dom().contains(k));
    }
}

/// Every member of a project but its checks survives patching.
pub proof fn law_patch_keeps_the_rest(v: serde_json::Value, p: serde_json::Value, key: Seq<char>)
    requires
        patch_fault(v) is None,
        is_patched(v, p),
        key != "erc"@,
    ensures
        members(v)->0.dom().contains(key) == members(p)->0.dom().contains(key),
        members(v)->0.dom().contains(key) ==> members(p)->0[key] == members(v)->0[key],
{
}

} // verus!
