//! Compiled course-name / course-id patterns.
//!
//! Matching is delegated to the `regex` crate. Whether a pattern compiles,
//! and whether a compiled pattern matches a given text, are pure functions
//! of the pattern and the text; the library names those two results
//! ([`regex_ok`], [`regex_match`]) and states every matcher contract over
//! them.

use vstd::prelude::*;

verus! {

#[verifier::external_type_specification]
#[verifier::external_body]
pub struct ExRegex(regex::Regex);

/// Whether `regex::Regex::new` accepts the pattern: compilation succeeds or
/// fails on the pattern text alone.
pub uninterp spec fn regex_ok(pat: Seq<char>) -> bool;

/// Whether the regex compiled from `pat` matches anywhere in `text`:
/// `regex::Regex::is_match` decides that from the pattern and the text alone.
pub uninterp spec fn regex_match(pat: Seq<char>, text: Seq<char>) -> bool;

/// A pattern compiled once at rule-construction time and reused for every
/// record, kept beside the pattern text it was compiled from.
pub struct CompiledPattern {
    pattern: String,
    reg: regex::Regex,
}

impl View for CompiledPattern {
    type V = Seq<char>;

    /// A compiled pattern is, to the contracts, the pattern text itself.
    closed spec fn view(&self) -> Seq<char> {
        self.pattern@
    }
}

/// Relies on `regex::Regex::new`: it returns `Ok` exactly when the pattern
/// is a valid regex within the default size limit, which depends on the
/// pattern alone; the compiled regex is kept beside its pattern text, and
/// nothing else ever builds a `CompiledPattern`.
#[verifier::external_body]
pub(crate) fn compile_pattern(pat: &str) -> (r: Option<CompiledPattern>)
    ensures
        r is Some <==> regex_ok(pat@),
        r matches Some(p) ==> p@ == pat@,
{
    match regex::Regex::new(pat) {
        Ok(reg) => Some(CompiledPattern { pattern: pat.to_string(), reg }),
        Err(_) => None,
    }
}

/// Relies on `regex::Regex::is_match`: whether the compiled pattern matches
/// anywhere in the text is a pure function of the pattern and the text.
#[verifier::external_body]
pub(crate) fn pattern_matches(p: &CompiledPattern, text: &str) -> (r: bool)
    ensures
        r == regex_match(p@, text@),
{
    p.reg.is_match(text)
}

} // verus!
