use vstd::prelude::*;

verus! {

/// Whether the regex crate accepts `pattern` (`regex::Regex::new` returns `Ok`).
pub uninterp spec fn regex_compiles(pattern: Seq<char>) -> bool;

/// Whether the regex compiled from `pattern` finds a match anywhere in `haystack`
/// (`regex::Regex::is_match`).
pub uninterp spec fn regex_is_match(pattern: Seq<char>, haystack: Seq<char>) -> bool;

/// The byte offset at which the first match of `pattern` in `haystack` ends, if there
/// is a match (`regex::Regex::find`, then `Match::end`).
pub uninterp spec fn regex_first_match_end(pattern: Seq<char>, haystack: Seq<char>) -> Option<usize>;

/// Whether `haystack` holds a match of `pattern`, a pattern that does not compile matching nothing.
pub open spec fn pattern_matches(pattern: Seq<char>, haystack: Seq<char>) -> bool {
    regex_compiles(pattern) && regex_is_match(pattern, haystack)
}

/// Compiles `pattern` with `regex::Regex::new` and, when that succeeds, asks
/// `regex::Regex::is_match` whether `haystack` holds a match.
/// Claimed: the answer is `None` exactly when the pattern does not compile, and
/// otherwise the crate's answer, which depends on the pattern and the haystack alone.
#[verifier::external_body]
fn compile_and_match(pattern: &str, haystack: &str) -> (r: Option<bool>)
    ensures
        r is Some <==> regex_compiles(pattern@),
        r matches Some(b) ==> b == regex_is_match(pattern@, haystack@),
{
    match regex::Regex::new(pattern) {
        Ok(re) => Some(re.is_match(haystack)),
        Err(_) => None,
    }
}

/// Compiles `pattern` with `regex::Regex::new` and, when that succeeds, asks
/// `regex::Regex::find` for the first match in `haystack`, giving its end (`Match::end`).
/// Claimed: `None` exactly when the pattern does not compile; otherwise the end offset
/// of the first match, or `None` inside when there is no match, a function of the
/// pattern and the haystack alone.
#[verifier::external_body]
fn compile_and_find_end(pattern: &str, haystack: &str) -> (r: Option<Option<usize>>)
    ensures
        r is Some <==> regex_compiles(pattern@),
        r matches Some(m) ==> match m {
            Some(e) => regex_first_match_end(pattern@, haystack@) == Some(e),
            None => regex_first_match_end(pattern@, haystack@) is None,
        },
{
    match regex::Regex::new(pattern) {
        Ok(re) => match re.find(haystack) {
            Some(m) => Some(Some(m.end())),
            None => Some(None),
        },
        Err(_) => None,
    }
}

/// Whether `haystack` holds a match of the regular expression `pattern`.
pub fn pattern_found(pattern: &str, haystack: &str) -> (b: bool)
    ensures
        b == pattern_matches(pattern@, haystack@),
{
    match compile_and_match(pattern, haystack) {
        Some(b) => b,
        None => false,
    }
}

/// Where the first match of `pattern` in `haystack` ends, in bytes; `None` when there
/// is no match or the pattern does not compile.
pub fn first_match_end(pattern: &str, haystack: &str) -> (r: Option<usize>)
    ensures
        r == (if regex_compiles(pattern@) {
            regex_first_match_end(pattern@, haystack@)
        } else {
            None::<usize>
        }),
{
    match compile_and_find_end(pattern, haystack) {
        Some(m) => m,
        None => None,
    }
}

} // verus!
