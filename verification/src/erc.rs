//! What the command line decides: where the schematic goes, and what a check of it means.

use vstd::prelude::*;
use crate::text::{append_chars, chars_of, is_text, text_of};

verus! {

// ---------------------------------------------------------------- output

/// Where the root document goes.
#[derive(Debug)]
pub enum Output {
    /// To the path as it was given.
    AsGiven,
    /// Into the given directory, under this name.
    InDirectory { file: String },
    /// Nothing was given: beside the layout, or else beside the source.
    Unsaid,
}

/// What the command line says of the output: the ending of the path, where one was given.
#[derive(Debug)]
pub struct OutputArg {
    pub ending: Option<String>,
}

/// The source has no name to call the output after.
#[derive(Clone, Copy, Debug, PartialEq, Eq, Structural)]
pub struct NoSourceName;

pub open spec fn names_document(arg: OutputArg) -> bool {
    arg.ending matches Some(e) && e@ == "kicad_sch"@
}

/// Where the root document goes: a path that ends in `kicad_sch` is a file, any other path is a
/// directory.
pub fn choose_output(arg: &Option<OutputArg>, stem: &Option<String>) -> (r: Result<
    Output,
    NoSourceName,
>)
    ensures
        match *arg {
            None => r matches Ok(Output::Unsaid),
            Some(a) => if names_document(a) {
                r matches Ok(Output::AsGiven)
            } else {
                match *stem {
                    Some(s) => r matches Ok(Output::InDirectory { file }) && file@ == s@
                        + ".kicad_sch"@,
                    None => r is Err,
                }
            },
        },
{
    match arg {
        None => Ok(Output::Unsaid),
        Some(a) => {
            let named: bool = match &a.ending {
                Some(e) => is_text(&chars_of(e.as_str()), "kicad_sch"),
                None => false,
            };
            if named {
                return Ok(Output::AsGiven);
            }
            match stem {
                Some(s) => {
                    let mut v: Vec<char> = chars_of(s.as_str());
                    append_chars(&mut v, &chars_of(".kicad_sch"));
                    Ok(Output::InDirectory { file: text_of(&v) })
                },
                None => Err(NoSourceName),
            }
        },
    }
}

// ---------------------------------------------------------------- electrical rules

/// A finding of the electrical rule check.
#[derive(Debug)]
pub struct Violation {
    pub severity: String,
    /// The finding was excluded by the user.
    pub excluded: bool,
}

/// How many findings count.
#[derive(Clone, Copy, Debug, PartialEq, Eq, Structural)]
pub struct Tally {
    pub errors: usize,
    pub warnings: usize,
}

/// The number of findings among the first `n` that count and are errors, or that are not.
pub open spec fn counted(vs: Seq<Violation>, errors: bool, n: int) -> nat
    decreases n,
{
    if n <= 0 || n > vs.len() {
        0
    } else {
        counted(vs, errors, n - 1) + if !vs[n - 1].excluded && (vs[n - 1].severity@ == "error"@)
            == errors {
            1nat
        } else {
            0
        }
    }
}

/// Count the findings: what is excluded does not count, and what is no error is a warning.
pub fn tally(vs: &Vec<Violation>) -> (r: Tally)
    ensures
        r.errors == counted(vs@, true, vs@.len() as int),
        r.warnings == counted(vs@, false, vs@.len() as int),
{
    let mut errors: usize = 0;
    let mut warnings: usize = 0;
    let mut n: usize = 0;
    while n < vs.len()
        invariant
            n <= vs.len(),
            errors == counted(vs@, true, n as int),
            warnings == counted(vs@, false, n as int),
            errors <= n,
            warnings <= n,
        decreases vs.len() - n,
    {
        if !vs[n].excluded {
            if is_text(&chars_of(vs[n].severity.as_str()), "error") {
                errors = errors + 1;
            } else {
                warnings = warnings + 1;
            }
        }
        n = n + 1;
    }
    Tally { errors, warnings }
}

/// What a check of the schematic comes to.
#[derive(Clone, Copy, Debug, PartialEq, Eq, Structural)]
pub enum Verdict {
    /// There are findings that count: the command fails.
    Failed,
    Clean,
}

/// Any finding that counts fails the command.
pub fn verdict(t: Tally) -> (r: Verdict)
    ensures
        r == Verdict::Failed <==> t.errors + t.warnings > 0,
        r == Verdict::Clean <==> t.errors == 0 && t.warnings == 0,
{
    if t.errors > 0 || t.warnings > 0 {
        Verdict::Failed
    } else {
        Verdict::Clean
    }
}

} // verus!
