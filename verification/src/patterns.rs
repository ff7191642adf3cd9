//! Regular expressions, matched by the `regex` crate.
use vstd::prelude::*;

verus! {

/// Whether a pattern is a valid regular expression of the `regex` crate and matches somewhere in a
/// text.
pub uninterp spec fn regex_matches(pattern: Seq<char>, text: Seq<char>) -> bool;

/// `regex::Regex::new` followed by `Regex::is_match`. A pattern that does not compile matches
/// nothing. Both depend on their arguments alone.
#[verifier::external_body]
pub(crate) fn pattern_matches(pattern: &str, text: &str) -> (r: bool)
    ensures
        r == regex_matches(pattern@, text@),
{
    regex::Regex::new(pattern).map_or(false, |regex| regex.is_match(text))
}

} // verus!
