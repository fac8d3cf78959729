//! The two patterns of the label grammar and the calls into the `regex`
//! crate that search with them.
//!
//! Nothing is proved of the `regex` crate. What a search returns is given a
//! name here, so that contracts elsewhere can speak of it; the library's own
//! rules are proved for whatever the search returned.

use vstd::prelude::*;

verus! {

/// A hashtag: `#`, one ASCII letter, then any run of letters, digits, `_`
/// and `-`.
pub const HASHTAG_PATTERN: &'static str = "#[A-Za-z][A-Za-z0-9_-]*";

/// A variable: `$name=value`. The first group is the name, the second the
/// value.
pub const VARIABLE_PATTERN: &'static str = "\\$([A-Za-z][A-Za-z0-9_-]*)=([A-Za-z0-9_-]+)";

/// What a search found, as values: one entry for each match, in the order
/// of the matches. An entry holds the text of each capture group of the
/// pattern in turn, the whole match first; `None` stands for a group that
/// took no part in the match.
pub type Found = Seq<Seq<Option<Seq<char>>>>;

/// What a search found, as data.
pub type Matches = Vec<Vec<Option<String>>>;

/// Whether `Regex::new` accepts `pattern`.
pub uninterp spec fn regex_compiles(pattern: Seq<char>) -> bool;

/// What `Regex::captures_iter` yields for `pattern` on `haystack`: one entry
/// for each of the successive non-overlapping matches, in the order in which
/// they are found. An entry holds, for each capture group of the pattern in
/// turn, the text that the group matched, or `None` where the group took no
/// part in the match; group 0 is the whole match.
pub uninterp spec fn regex_captures(pattern: Seq<char>, haystack: Seq<char>) -> Seq<
    Seq<Option<Seq<char>>>,
>;

/// Both patterns of the label grammar are accepted by the `regex` crate.
pub open spec fn patterns_compile() -> bool {
    regex_compiles(HASHTAG_PATTERN@) && regex_compiles(VARIABLE_PATTERN@)
}

/// Calls `regex::Regex::new` and reports whether it returned `Ok`.
///
/// Trusted: the answer depends on the pattern alone.
#[verifier::external_body]
pub(crate) fn compiles(pattern: &str) -> (out: bool)
    ensures
        out == regex_compiles(pattern@),
{
    regex::Regex::new(pattern).is_ok()
}

/// Compiles `pattern` with `regex::Regex::new` and collects what
/// `Regex::captures_iter` yields on `haystack`; each group of each match is
/// read with `Captures::iter` and `Match::as_str`.
///
/// Trusted: the matches depend on the pattern and the haystack alone. Nothing
/// is claimed about which texts match. A pattern that `Regex::new` refuses
/// is left out, since the call would panic on it.
#[verifier::external_body]
pub(crate) fn captures(pattern: &str, haystack: &str) -> (out: Matches)
    requires
        regex_compiles(pattern@),
    ensures
        out.deep_view() == regex_captures(pattern@, haystack@),
{
    let rx = regex::Regex::new(pattern).expect("not a regex");
    rx.captures_iter(haystack)
        .map(|found| found.iter().map(|group| group.map(|m| m.as_str().to_string())).collect())
        .collect()
}

/// Tests whether both patterns of the label grammar compile.
pub fn patterns_ready() -> (out: bool)
    ensures
        out == patterns_compile(),
{
    compiles(HASHTAG_PATTERN) && compiles(VARIABLE_PATTERN)
}

} // verus!
