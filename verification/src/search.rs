//! Regular expressions, as `regex_lite` has them.

use vstd::prelude::*;

verus! {

/// A compiled regular expression.
#[verifier::external_type_specification]
#[verifier::external_body]
pub struct ExRegex(regex_lite::Regex);

/// Why a regular expression did not compile.
#[verifier::external_type_specification]
#[verifier::external_body]
pub struct ExRegexError(regex_lite::Error);

/// What `regex_lite::Regex::new` makes of a pattern where it succeeds: the
/// expression that the pattern writes.
pub uninterp spec fn regex_of(pattern: Seq<char>) -> regex_lite::Regex;

/// What `regex_lite::Regex::new` says of a pattern where it fails: the first error
/// in the pattern, or, where there is none, that it is too large to compile.
pub uninterp spec fn regex_error_of(pattern: Seq<char>) -> regex_lite::Error;

/// What `regex_lite::Regex::is_match` returns: whether the expression matches
/// anywhere in the text.
pub uninterp spec fn regex_finds(regex: regex_lite::Regex, text: Seq<char>) -> bool;

/// Calls `regex_lite::Regex::new`. Claimed of it is only that the pattern alone
/// decides what the expression is, where it succeeds, and what the error is, where
/// it fails. It fails where the pattern is invalid, and where its compiled form is
/// over a limit in bytes; as the size of that form depends on the machine, nothing
/// is claimed of when it succeeds.
#[verifier::external_body]
pub(crate) fn compile(pattern: &str) -> (compiled: Result<regex_lite::Regex, regex_lite::Error>)
    ensures
        compiled matches Ok(regex) ==> regex == regex_of(pattern@),
        compiled matches Err(error) ==> error == regex_error_of(pattern@),
{
    regex_lite::Regex::new(pattern)
}

/// Calls `regex_lite::Regex::is_match`. Claimed of it is only that the
/// expression and the text alone decide its result.
#[verifier::external_body]
pub(crate) fn is_match(regex: &regex_lite::Regex, text: &str) -> (found: bool)
    ensures
        found == regex_finds(*regex, text@),
{
    regex.is_match(text)
}

} // verus!
