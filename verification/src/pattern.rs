//! Regular expressions, compiled and run by the `regex` crate.

use vstd::prelude::*;
use regex::Regex;
use crate::html::opt_view;

verus! {

#[verifier::external_type_specification]
#[verifier::external_body]
pub struct ExRegex(regex::Regex);

#[verifier::external_type_specification]
#[verifier::external_body]
pub struct ExRegexError(regex::Error);

/// Whether `regex::Regex::new` accepts `pattern`.
pub uninterp spec fn regex_compiles(pattern: Seq<char>) -> bool;

/// The text of the leftmost-first match of `pattern` in `haystack`
/// (group 0 of `Regex::captures`), if any.
pub uninterp spec fn regex_first_match(pattern: Seq<char>, haystack: Seq<char>) -> Option<Seq<char>>;

/// A compiled regular expression, with the pattern it was compiled from.
pub struct Pattern {
    source: String,
    re: Regex,
}

impl Pattern {
    /// The pattern this was compiled from.
    pub closed spec fn source(&self) -> Seq<char> {
        self.source@
    }
}

/// Compiles `pattern` with `regex::Regex::new`. Claims that the outcome
/// depends on the pattern alone, and that a compiled regex keeps its pattern.
#[verifier::external_body]
pub(crate) fn compile(pattern: &str) -> (r: Result<Pattern, regex::Error>)
    ensures
        r is Ok <==> regex_compiles(pattern@),
        r matches Ok(p) ==> p.source() == pattern@,
{
    Regex::new(pattern).map(|re| Pattern { source: pattern.to_string(), re })
}

/// The whole match (`captures(..)[0]`) of the regex in `haystack`, as
/// `regex::Regex::captures` finds it.
#[verifier::external_body]
pub(crate) fn first_match(p: &Pattern, haystack: &str) -> (r: Option<String>)
    ensures
        opt_view(r) == regex_first_match(p.source(), haystack@),
{
    p.re.captures(haystack).map(|c| c[0].to_string())
}

} // verus!
