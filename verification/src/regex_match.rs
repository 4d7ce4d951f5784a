//! Pattern matching through the `regex` crate.

use vstd::prelude::*;

verus! {

/// Whether `regex::Regex::new` accepts `pattern` (with the crate's default
/// size limit).
pub uninterp spec fn regex_compiles(pattern: Seq<char>) -> bool;

/// Whether the compiled `pattern` finds a match anywhere in `haystack`
/// (`regex::Regex::is_match`; a match is anchored only where the pattern
/// says `^` or `$`).
pub uninterp spec fn regex_finds(pattern: Seq<char>, haystack: Seq<char>) -> bool;

/// What compiling `pattern` and searching `haystack` with it answers:
/// `None` when the pattern does not compile.
pub open spec fn regex_answer(pattern: Seq<char>, haystack: Seq<char>) -> Option<bool> {
    if regex_compiles(pattern) {
        Some(regex_finds(pattern, haystack))
    } else {
        None
    }
}

/// Compiles `pattern` with `regex::Regex::new` and, when that succeeds,
/// asks `regex::Regex::is_match` about `haystack`.
///
/// Trusted: the result is `None` exactly when compilation fails, and
/// otherwise the crate's answer, each a function of the two texts alone.
/// What the answer is for given texts is not stated here.
#[verifier::external_body]
pub(crate) fn regex_is_match(pattern: &str, haystack: &str) -> (r: Option<bool>)
    ensures
        r == (if regex_compiles(pattern@) {
            Some(regex_finds(pattern@, haystack@))
        } else {
            None
        }),
{
    match regex::Regex::new(pattern) {
        Ok(re) => Some(re.is_match(haystack)),
        Err(_) => None,
    }
}

} // verus!
