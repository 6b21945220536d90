//! Regular expressions, as far as the argument parser needs them.

use vstd::prelude::*;

verus! {

/// What the groups named `first` and `second` hold when the regular
/// expression `pattern` is searched for in `haystack`: the text that each
/// matched in the leftmost match, or `None` where the pattern does not
/// compile, matches nowhere, or one of the two groups took no part.
pub uninterp spec fn named_captures(
    pattern: Seq<char>,
    haystack: Seq<char>,
    first: Seq<char>,
    second: Seq<char>,
) -> Option<(Seq<char>, Seq<char>)>;

/// Searches `haystack` for `pattern` and returns the text of two named
/// groups of the leftmost match.
///
/// Trusted: the body compiles the pattern with `regex::Regex::new`, searches
/// with `Regex::captures` and reads the groups with `Captures::name` and
/// `Match::as_str`. None of them panics, and what they return depends on the
/// four texts alone; the contract gives that result its name and says
/// nothing else about it.
#[verifier::external_body]
pub(crate) fn capture_pair(pattern: &str, haystack: &str, first: &str, second: &str) -> (groups:
    Option<(String, String)>)
    ensures
        match groups {
            Some(pair) => named_captures(pattern@, haystack@, first@, second@) == Some(
                (pair.0@, pair.1@),
            ),
            None => named_captures(pattern@, haystack@, first@, second@) is None,
        },
{
    let expression = regex::Regex::new(pattern).ok()?;
    let captures = expression.captures(haystack)?;
    let one = captures.name(first)?.as_str().to_string();
    let two = captures.name(second)?.as_str().to_string();
    Some((one, two))
}

} // verus!
