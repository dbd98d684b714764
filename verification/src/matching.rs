//! Regular-expression matching over bytes, as the `regex` crate does it.
use vstd::prelude::*;

verus! {

#[verifier::external_type_specification]
#[verifier::external_body]
pub struct ExRegexError(regex::Error);

/// What compiling `pattern` as a `regex::bytes::Regex` and running
/// `find_iter` over `haystack` yields: `None` when the pattern does not
/// compile, otherwise the (start, end) byte offsets of the successive
/// matches.
pub uninterp spec fn byte_regex_matches(pattern: Seq<char>, haystack: Seq<u8>) -> Option<Seq<(usize, usize)>>;

/// Matches as `find_iter` documents them: every match lies inside the
/// haystack with `start <= end`, and successive matches do not overlap.
pub open spec fn successive_matches(m: Seq<(usize, usize)>, len: int) -> bool {
    &&& forall|i: int| 0 <= i < m.len() ==> #[trigger] m[i].0 <= m[i].1 && m[i].1 <= len
    &&& forall|i: int, j: int| 0 <= i < j < m.len() ==> #[trigger] m[i].1 <= #[trigger] m[j].0
}

/// `regex::bytes::Regex::new(pattern)` and, when it compiles, the offsets of
/// every match of `find_iter(haystack)`. The result is the named
/// `byte_regex_matches`; beside it the contract states only what the regex
/// documentation gives: offsets lie inside the haystack, `start <= end`,
/// and successive matches do not overlap.
#[verifier::external_body]
pub(crate) fn byte_regex_find_all(pattern: &str, haystack: &[u8]) -> (r: Result<Vec<(usize, usize)>, regex::Error>)
    ensures
        match r {
            Ok(v) => byte_regex_matches(pattern@, haystack@) == Some(v@),
            Err(_) => byte_regex_matches(pattern@, haystack@) is None,
        },
        r matches Ok(v) ==> successive_matches(v@, haystack@.len() as int),
{
    match regex::bytes::Regex::new(pattern) {
        Ok(re) => Ok(re.find_iter(haystack).map(|m| (m.start(), m.end())).collect()),
        Err(e) => Err(e),
    }
}

} // verus!
