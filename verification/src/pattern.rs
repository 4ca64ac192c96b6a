//! The regular expressions configuration rules are written in, evaluated by
//! the `regex` crate. Its matching semantics take pages to state, so each
//! result is named here and the callers' contracts speak of those names.

use vstd::prelude::*;

verus! {

/// `regex::Regex::new(pattern)` succeeds.
pub uninterp spec fn regex_compiles(pattern: Seq<char>) -> bool;

/// The text of the error `regex::Regex::new(pattern)` fails with.
pub uninterp spec fn regex_error(pattern: Seq<char>) -> Seq<char>;

/// `Regex::is_match` of the compiled `pattern` on `haystack`.
pub uninterp spec fn regex_is_match(pattern: Seq<char>, haystack: Seq<char>) -> bool;

/// `Regex::replace` of the compiled `pattern`: the leftmost match in
/// `haystack` replaced by `replacement`, with `$name` expanded.
pub uninterp spec fn regex_replace(
    pattern: Seq<char>,
    haystack: Seq<char>,
    replacement: Seq<char>,
) -> Seq<char>;

/// Compiles `pattern` with `regex::Regex::new` and reports whether it
/// compiled, with the crate's diagnostic when it did not. Trusted: the
/// contract says only that the outcome is the named one for this pattern.
#[verifier::external_body]
pub(crate) fn check_pattern(pattern: &str) -> (r: Result<(), String>)
    ensures
        match r {
            Ok(()) => regex_compiles(pattern@),
            Err(e) => !regex_compiles(pattern@) && e@ == regex_error(pattern@),
        },
{
    match regex::Regex::new(pattern) {
        Ok(_) => Ok(()),
        Err(error) => Err(error.to_string()),
    }
}

/// `regex::Regex::is_match` for a pattern known to compile. Trusted: the
/// result is the named match outcome for this pattern and haystack.
#[verifier::external_body]
pub(crate) fn pattern_matches(pattern: &str, haystack: &str) -> (r: bool)
    requires
        regex_compiles(pattern@),
    ensures
        r == regex_is_match(pattern@, haystack@),
{
    match regex::Regex::new(pattern) {
        Ok(re) => re.is_match(haystack),
        Err(_) => false,
    }
}

/// `regex::Regex::replace` for a pattern known to compile. Trusted: the
/// result is the named replacement for this pattern, haystack and template.
#[verifier::external_body]
pub(crate) fn pattern_replace(pattern: &str, haystack: &str, replacement: &str) -> (r: String)
    requires
        regex_compiles(pattern@),
    ensures
        r@ == regex_replace(pattern@, haystack@, replacement@),
{
    match regex::Regex::new(pattern) {
        Ok(re) => re.replace(haystack, replacement).into_owned(),
        Err(_) => haystack.to_string(),
    }
}

} // verus!
