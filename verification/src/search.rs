//! The importance flag: a release is important when its body matches the
//! configured search pattern.

use vstd::prelude::*;

verus! {

/// Whether `pattern` is a well-formed regular expression, as
/// `regex::Regex::new` decides from the pattern text alone.
pub uninterp spec fn pattern_ok(pattern: Seq<char>) -> bool;

/// Whether the regular expression `pattern` matches somewhere in `text`, as
/// `regex::Regex::is_match` decides from the two texts alone.
pub uninterp spec fn pattern_matches(pattern: Seq<char>, text: Seq<char>) -> bool;

/// A release is important when a search pattern is configured at all, the
/// pattern is a well-formed regular expression, and it matches the release
/// body. An empty pattern flags nothing.
pub open spec fn importance(search: Seq<char>, body: Seq<char>) -> bool {
    &&& search.len() > 0
    &&& pattern_ok(search)
    &&& pattern_matches(search, body)
}

/// Relies on `regex::Regex::new` and `regex::Regex::is_match`: `new` accepts
/// or refuses a pattern from the pattern text alone, and `is_match` reports
/// whether the compiled pattern matches somewhere in the haystack, a function
/// of pattern and haystack alone. `None` is returned exactly when the
/// pattern does not compile.
#[verifier::external_body]
fn compile_and_match(pattern: &str, text: &str) -> (r: Option<bool>)
    ensures
        r is Some <==> pattern_ok(pattern@),
        r matches Some(b) ==> b == pattern_matches(pattern@, text@),
{
    match regex::Regex::new(pattern) {
        Ok(re) => Some(re.is_match(text)),
        Err(_) => None,
    }
}

/// Whether a release with body `body` is important under the configured
/// `search` pattern. An empty pattern never flags, and a pattern that is no
/// well-formed regular expression never flags either.
pub fn is_important(search: &str, body: &str) -> (r: bool)
    ensures
        r == importance(search@, body@),
{
    if search.is_empty() {
        false
    } else {
        match compile_and_match(search, body) {
            Some(b) => b,
            None => false,
        }
    }
}

/// An empty search pattern never flags a release as important.
pub proof fn lemma_empty_pattern_never_important(body: Seq<char>)
    ensures
        !importance(Seq::<char>::empty(), body),
{
}

/// Under a configured, well-formed, non-empty pattern, a release is
/// important exactly when its body matches the pattern.
pub proof fn lemma_importance_is_match(search: Seq<char>, body: Seq<char>)
    requires
        search.len() > 0,
        pattern_ok(search),
    ensures
        importance(search, body) == pattern_matches(search, body),
{
}

} // verus!
