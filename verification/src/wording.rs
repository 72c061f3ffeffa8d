//! The wording of remarks and errors.

use vstd::prelude::*;
use crate::document::{two_digits, NotRegistered};
use crate::extract::BuildError;
use crate::geometry::SymbolError;
use crate::project::ProjectError;
use crate::text::{append_chars, chars_of, decimal, text_of, to_decimal};
use crate::units::Iu;
use crate::warning::Warning;

verus! {

// ---------------------------------------------------------------- lengths

/// A number of three digits.
pub open spec fn three_digits(n: nat) -> Seq<char> {
    if n < 100 {
        seq!['0'] + two_digits(n)
    } else {
        decimal(n)
    }
}

/// The length in steps of `unit`, to the nearest one.
pub open spec fn nearest(v: int, unit: int) -> nat {
    ((if v < 0 {
        -v
    } else {
        v
    } + unit / 2) / unit) as nat
}

pub open spec fn sign_text(v: int) -> Seq<char> {
    if v < 0 {
        "-"@
    } else {
        ""@
    }
}

/// A length in millimetres with three digits behind the point.
pub open spec fn thousandths(v: int) -> Seq<char> {
    let n = nearest(v, 10);
    sign_text(v) + decimal(n / 1000) + "."@ + three_digits(n % 1000)
}

/// A length in millimetres with two digits behind the point.
pub open spec fn hundredths(v: int) -> Seq<char> {
    let n = nearest(v, 100);
    sign_text(v) + decimal(n / 100) + "."@ + two_digits(n % 100)
}

fn put(v: &mut Vec<char>, s: &str)
    ensures
        final(v)@ == old(v)@ + s@,
{
    append_chars(v, &chars_of(s));
}

fn put_number(v: &mut Vec<char>, n: usize)
    ensures
        final(v)@ == old(v)@ + decimal(n as nat),
{
    append_chars(v, &to_decimal(n as u128));
}

fn two_digits_of(n: u64) -> (r: Vec<char>)
    ensures
        r@ == two_digits(n as nat),
{
    let mut r: Vec<char> = Vec::new();
    if n < 10 {
        r.push('0');
        proof {
            assert(r@ =~= seq!['0']);
        }
        append_chars(&mut r, &to_decimal(n as u128));
        r
    } else {
        to_decimal(n as u128)
    }
}

fn three_digits_of(n: u64) -> (r: Vec<char>)
    ensures
        r@ == three_digits(n as nat),
{
    if n < 100 {
        let mut r: Vec<char> = Vec::new();
        r.push('0');
        proof {
            assert(r@ =~= seq!['0']);
        }
        append_chars(&mut r, &two_digits_of(n));
        r
    } else {
        to_decimal(n as u128)
    }
}

fn sign_of_length(v: Iu) -> (r: Vec<char>)
    ensures
        r@ == sign_text(v as int),
{
    if v < 0 {
        chars_of("-")
    } else {
        chars_of("")
    }
}

fn nearest_of(v: Iu, unit: u64) -> (r: u64)
    requires
        0 < unit <= 100,
    ensures
        r == nearest(v as int, unit as int),
{
    let v: i64 = v as i64;
    let size: u64 = if v < 0 {
        (-v) as u64
    } else {
        v as u64
    };
    (size + unit / 2) / unit
}

fn put_thousandths(v: &mut Vec<char>, length: Iu)
    ensures
        final(v)@ == old(v)@ + thousandths(length as int),
{
    let n: u64 = nearest_of(length, 10);
    let mut t: Vec<char> = sign_of_length(length);
    append_chars(&mut t, &to_decimal((n / 1000) as u128));
    put(&mut t, ".");
    append_chars(&mut t, &three_digits_of(n % 1000));
    append_chars(v, &t);
}

fn put_hundredths(v: &mut Vec<char>, length: Iu)
    ensures
        final(v)@ == old(v)@ + hundredths(length as int),
{
    let n: u64 = nearest_of(length, 100);
    let mut t: Vec<char> = sign_of_length(length);
    append_chars(&mut t, &to_decimal((n / 100) as u128));
    put(&mut t, ".");
    append_chars(&mut t, &two_digits_of(n % 100));
    append_chars(v, &t);
}

// ---------------------------------------------------------------- remarks

/// The remark in words.
pub open spec fn warning_text(w: Warning) -> Seq<char> {
    match w {
        Warning::BoxSymbol { refdes, path } => "component "@ + refdes@ + " ("@ + path@
            + ") has no symbol; generated a box symbol from its pads"@,
        Warning::DenseSheet { title, count, max } => "sheet \""@ + title@ + "\": "@ + decimal(
            count as nat,
        ) + " components exceed max-parts-per-sheet ("@ + decimal(max as nat)
            + ") — automatic split is out of scope, the sheet will be dense"@,
        Warning::ManualMultiUnit { key } => "manual position "@ + key@
            + ": multi-unit symbols are not supported yet — ignored"@,
        Warning::ManualNotFound { key } => "manual position "@ + key@
            + ": component not found — ignored"@,
        Warning::ManualSnapped { refdes, dx, dy } => "manual position of "@ + refdes@
            + " snapped onto the grid ("@ + thousandths(dx as int) + " mm, "@ + thousandths(
            dy as int,
        ) + " mm)"@,
        Warning::ManualTranslated { dx, dy } => "manual positions translated uniformly by ("@
            + hundredths(dx as int) + " mm, "@ + hundredths(dy as int)
            + " mm) to fit the page (relative geometry preserved)"@,
        Warning::AnchorNotFound { anchor, refdes } => "anchor \""@ + anchor@ + "\" of "@ + refdes@
            + " not found on its sheet — placed by flow"@,
        Warning::AnchorChain { refdes } => "unresolved anchor chain for "@ + refdes@
            + " — treated as a major"@,
        Warning::Stranded { refdes, .. } => "unresolved anchor chain for: "@ + refdes@,
        Warning::Overlap { refdes } => "unresolved overlap for "@ + refdes@ + " (kept in place)"@,
        Warning::PowerStubOverlap { net, refdes } => "power stub "@ + net@ + " of "@ + refdes@
            + " placed with visual overlap (electrically clean)"@,
        Warning::PowerStubContact { net, refdes } => "power stub "@ + net@ + " of "@ + refdes@
            + " placed with residual contact — REVIEW REQUIRED"@,
        Warning::AnalogBroken { net, wired, total } => "analog net "@ + net@ + ": "@ + decimal(
            wired as nat,
        ) + "/"@ + decimal(total as nat)
            + " endpoint(s) wired continuously, the rest fell back to labels (no clean route)"@,
        Warning::RootPorts => "ports declared on the root sheet — ignored"@,
        Warning::PortFallback { net } => "port \""@ + net@
            + "\" has no internal anchor — edge-column fallback"@,
        Warning::TextOverlap { refdes } => "texts of "@ + refdes@
            + " kept at their canonical spot despite an overlap"@,
    }
}

impl Warning {
    /// The remark in words.
    pub fn text(&self) -> (r: String)
        ensures
            r@ == warning_text(*self),
    {
        let mut v: Vec<char>;
        match self {
            Warning::BoxSymbol { refdes, path } => {
                v = chars_of("component ");
                put(&mut v, refdes.as_str());
                put(&mut v, " (");
                put(&mut v, path.show().as_str());
                put(&mut v, ") has no symbol; generated a box symbol from its pads");
            },
            Warning::DenseSheet { title, count, max } => {
                v = chars_of("sheet \"");
                put(&mut v, title.show().as_str());
                put(&mut v, "\": ");
                put_number(&mut v, *count);
                put(&mut v, " components exceed max-parts-per-sheet (");
                put_number(&mut v, *max);
                put(&mut v, ") — automatic split is out of scope, the sheet will be dense");
            },
            Warning::ManualMultiUnit { key } => {
                v = chars_of("manual position ");
                put(&mut v, key.as_str());
                put(&mut v, ": multi-unit symbols are not supported yet — ignored");
            },
            Warning::ManualNotFound { key } => {
                v = chars_of("manual position ");
                put(&mut v, key.as_str());
                put(&mut v, ": component not found — ignored");
            },
            Warning::ManualSnapped { refdes, dx, dy } => {
                v = chars_of("manual position of ");
                put(&mut v, refdes.as_str());
                put(&mut v, " snapped onto the grid (");
                put_thousandths(&mut v, *dx);
                put(&mut v, " mm, ");
                put_thousandths(&mut v, *dy);
                put(&mut v, " mm)");
            },
            Warning::ManualTranslated { dx, dy } => {
                v = chars_of("manual positions translated uniformly by (");
                put_hundredths(&mut v, *dx);
                put(&mut v, " mm, ");
                put_hundredths(&mut v, *dy);
                put(&mut v, " mm) to fit the page (relative geometry preserved)");
            },
            Warning::AnchorNotFound { anchor, refdes } => {
                v = chars_of("anchor \"");
                put(&mut v, anchor.as_str());
                put(&mut v, "\" of ");
                put(&mut v, refdes.as_str());
                put(&mut v, " not found on its sheet — placed by flow");
            },
            Warning::AnchorChain { refdes } => {
                v = chars_of("unresolved anchor chain for ");
                put(&mut v, refdes.as_str());
                put(&mut v, " — treated as a major");
            },
            Warning::Stranded { refdes, first } => {
                v = chars_of("unresolved anchor chain for: ");
                put(&mut v, refdes.as_str());
            },
            Warning::Overlap { refdes } => {
                v = chars_of("unresolved overlap for ");
                put(&mut v, refdes.as_str());
                put(&mut v, " (kept in place)");
            },
            Warning::PowerStubOverlap { net, refdes } => {
                v = chars_of("power stub ");
                put(&mut v, net.as_str());
                put(&mut v, " of ");
                put(&mut v, refdes.as_str());
                put(&mut v, " placed with visual overlap (electrically clean)");
            },
            Warning::PowerStubContact { net, refdes } => {
                v = chars_of("power stub ");
                put(&mut v, net.as_str());
                put(&mut v, " of ");
                put(&mut v, refdes.as_str());
                put(&mut v, " placed with residual contact — REVIEW REQUIRED");
            },
            Warning::AnalogBroken { net, wired, total } => {
                v = chars_of("analog net ");
                put(&mut v, net.as_str());
                put(&mut v, ": ");
                put_number(&mut v, *wired);
                put(&mut v, "/");
                put_number(&mut v, *total);
                put(
                    &mut v,
                    " endpoint(s) wired continuously, the rest fell back to labels (no clean route)",
                );
            },
            Warning::RootPorts => {
                v = chars_of("ports declared on the root sheet — ignored");
            },
            Warning::PortFallback { net } => {
                v = chars_of("port \"");
                put(&mut v, net.as_str());
                put(&mut v, "\" has no internal anchor — edge-column fallback");
            },
            Warning::TextOverlap { refdes } => {
                v = chars_of("texts of ");
                put(&mut v, refdes.as_str());
                put(&mut v, " kept at their canonical spot despite an overlap");
            },
        }
        text_of(&v)
    }
}

/// Does the remark go on from the one before it? Satellites that are stranded together share a
/// line.
pub open spec fn goes_on(w: Warning) -> bool {
    match w {
        Warning::Stranded { first, .. } => !first,
        _ => false,
    }
}

/// The reference of a stranded satellite.
pub open spec fn stranded_refdes(w: Warning) -> Seq<char> {
    match w {
        Warning::Stranded { refdes, .. } => refdes@,
        _ => Seq::empty(),
    }
}

/// The first `n` remarks, a line for each but for those that go on.
pub open spec fn lines_upto(ws: Seq<Warning>, n: int) -> Seq<Seq<char>>
    decreases n,
{
    if n <= 0 || n > ws.len() {
        Seq::empty()
    } else {
        let before = lines_upto(ws, n - 1);
        let w = ws[n - 1];
        if goes_on(w) && before.len() > 0 {
            before.drop_last().push(before.last() + ", "@ + stranded_refdes(w))
        } else {
            before.push(warning_text(w))
        }
    }
}

/// What the lines say.
pub open spec fn line_views(v: Seq<String>) -> Seq<Seq<char>> {
    Seq::new(v.len(), |i: int| v[i]@)
}

/// The remarks in words, one line each; satellites that were stranded together share one.
pub fn warning_lines(ws: &[Warning]) -> (r: Vec<String>)
    ensures
        line_views(r@) == lines_upto(ws@, ws@.len() as int),
{
    let mut out: Vec<String> = Vec::new();
    let mut n: usize = 0;
    proof {
        assert(line_views(out@) =~= lines_upto(ws@, 0));
    }
    while n < ws.len()
        invariant
            n <= ws.len(),
            line_views(out@) == lines_upto(ws@, n as int),
        decreases ws.len() - n,
    {
        let ghost before = line_views(out@);
        proof {
            assert(before.len() == out@.len());
        }
        let more: Option<&String> = match &ws[n] {
            Warning::Stranded { refdes, first } => if *first {
                None
            } else {
                Some(refdes)
            },
            _ => None,
        };
        let last: Option<String> = if more.is_some() {
            out.pop()
        } else {
            None
        };
        match (more, last) {
            (Some(refdes), Some(line)) => {
                let mut v: Vec<char> = chars_of(line.as_str());
                put(&mut v, ", ");
                put(&mut v, refdes.as_str());
                proof {
                    assert(line@ == before.last());
                    assert(line_views(out@) =~= before.drop_last());
                }
                let ghost shorter = out@;
                out.push(text_of(&v));
                proof {
                    assert(line_views(out@) =~= line_views(shorter).push(out@.last()@));
                }
            },
            _ => {
                proof {
                    assert(line_views(out@) =~= before);
                }
                let ghost same = out@;
                out.push(ws[n].text());
                proof {
                    assert(line_views(out@) =~= line_views(same).push(out@.last()@));
                }
            },
        }
        n = n + 1;
    }
    out
}

// ---------------------------------------------------------------- errors

impl NotRegistered {
    /// The error in words.
    pub fn text(&self) -> (r: String)
        ensures
            r@ == "symbol \""@ + self.lib_id@ + "\" not registered"@,
    {
        let mut v: Vec<char> = chars_of("symbol \"");
        put(&mut v, self.lib_id.as_str());
        put(&mut v, "\" not registered");
        text_of(&v)
    }
}

pub open spec fn symbol_error_text(e: SymbolError) -> Seq<char> {
    match e {
        SymbolError::NotAList => "symbol block is not a list"@,
        SymbolError::NotASymbol => "expected a (symbol ...) block"@,
        SymbolError::NoName => "(symbol ...) block has no name"@,
        SymbolError::NameNotString => "(symbol ...) name is not a string"@,
    }
}

impl SymbolError {
    /// The error in words.
    pub fn text(&self) -> (r: String)
        ensures
            r@ == symbol_error_text(*self),
    {
        let v: Vec<char> = match self {
            SymbolError::NotAList => chars_of("symbol block is not a list"),
            SymbolError::NotASymbol => chars_of("expected a (symbol ...) block"),
            SymbolError::NoName => chars_of("(symbol ...) block has no name"),
            SymbolError::NameNotString => chars_of("(symbol ...) name is not a string"),
        };
        text_of(&v)
    }
}

pub open spec fn build_error_text(e: BuildError) -> Seq<char> {
    match e {
        BuildError::NoDesignator { path } => "component "@ + path@ + " has no reference designator"@,
        BuildError::UnreadableSymbol { path } => "invalid symbol for component "@ + path@
            + ": failed to parse symbol s-expression"@,
        BuildError::InvalidSymbol { path, why } => "invalid symbol for component "@ + path@ + ": "@
            + symbol_error_text(why),
        BuildError::NoPads { refdes } => "component "@ + refdes@ + " has neither symbol nor pads"@,
    }
}

impl BuildError {
    /// The error in words.
    pub fn text(&self) -> (r: String)
        ensures
            r@ == build_error_text(*self),
    {
        let mut v: Vec<char>;
        match self {
            BuildError::NoDesignator { path } => {
                v = chars_of("component ");
                put(&mut v, path.as_str());
                put(&mut v, " has no reference designator");
            },
            BuildError::UnreadableSymbol { path } => {
                v = chars_of("invalid symbol for component ");
                put(&mut v, path.as_str());
                put(&mut v, ": failed to parse symbol s-expression");
            },
            BuildError::InvalidSymbol { path, why } => {
                v = chars_of("invalid symbol for component ");
                put(&mut v, path.as_str());
                put(&mut v, ": ");
                put(&mut v, why.text().as_str());
            },
            BuildError::NoPads { refdes } => {
                v = chars_of("component ");
                put(&mut v, refdes.as_str());
                put(&mut v, " has neither symbol nor pads");
            },
        }
        text_of(&v)
    }
}

pub open spec fn project_error_text(e: ProjectError) -> Seq<char> {
    match e {
        ProjectError::Unreadable => "failed to parse existing .kicad_pro JSON"@,
        ProjectError::RootNotObject => ".kicad_pro root is not a JSON object"@,
        ProjectError::ErcNotObject => ".kicad_pro `erc` is not a JSON object"@,
        ProjectError::SeveritiesNotObject =>
            ".kicad_pro `erc.rule_severities` is not a JSON object"@,
    }
}

impl ProjectError {
    /// The error in words.
    pub fn text(&self) -> (r: String)
        ensures
            r@ == project_error_text(*self),
    {
        let v: Vec<char> = match self {
            ProjectError::Unreadable => chars_of("failed to parse existing .kicad_pro JSON"),
            ProjectError::RootNotObject => chars_of(".kicad_pro root is not a JSON object"),
            ProjectError::ErcNotObject => chars_of(".kicad_pro `erc` is not a JSON object"),
            ProjectError::SeveritiesNotObject => chars_of(
                ".kicad_pro `erc.rule_severities` is not a JSON object",
            ),
        };
        text_of(&v)
    }
}

} // verus!
