//! Trusted bridge to the `glob` crate: pattern compilation and matching.
//!
//! A compiled `glob::Pattern` is opaque here; `pattern_text` names the
//! pattern text it holds, and `glob_ok` / `glob_match` name what
//! `Pattern::new` and `Pattern::matches` decide, both functions of their
//! string arguments alone.

use vstd::prelude::*;

verus! {

#[verifier::external_type_specification]
#[verifier::external_body]
pub struct ExPattern(glob::Pattern);

/// The pattern text a compiled `glob::Pattern` holds.
pub uninterp spec fn pattern_text(p: glob::Pattern) -> Seq<char>;

/// Whether `glob::Pattern::new` accepts a pattern text.
pub uninterp spec fn glob_ok(pattern: Seq<char>) -> bool;

/// What `glob::Pattern::matches` returns for a pattern text and a
/// candidate string.
pub uninterp spec fn glob_match(pattern: Seq<char>, text: Seq<char>) -> bool;

/// Relies on glob::Pattern::new: compilation succeeds or fails on the
/// pattern text alone, and the compiled pattern keeps that text. The
/// error is rendered through the crate's own Display form.
#[verifier::external_body]
pub(crate) fn glob_compile(pattern: &str) -> (r: Result<glob::Pattern, String>)
    ensures
        r is Ok <==> glob_ok(pattern@),
        r matches Ok(p) ==> pattern_text(p) == pattern@,
{
    match glob::Pattern::new(pattern) {
        Ok(p) => Ok(p),
        Err(e) => Err(e.to_string()),
    }
}

/// Relies on glob::Pattern::matches: the result is a function of the
/// pattern's text and the candidate string alone.
#[verifier::external_body]
pub(crate) fn glob_matches(p: &glob::Pattern, s: &str) -> (r: bool)
    ensures
        r == glob_match(pattern_text(*p), s@),
{
    p.matches(s)
}

/// Relies on glob::Pattern's derived Clone: every field is cloned, so the
/// clone equals the original.
pub assume_specification[ <glob::Pattern as Clone>::clone ](p: &glob::Pattern) -> (r:
    glob::Pattern)
    ensures
        r == *p,
;

} // verus!
