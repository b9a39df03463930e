//! Regular-expression searches, made through the `regex` crate.
//!
//! Each search compiles its pattern and reports byte spans; what a match means
//! for the completion logic is decided by the verified callers.

use vstd::prelude::*;

verus! {

/// Whether `pattern` compiles and matches somewhere in `text`.
pub uninterp spec fn regex_found(pattern: Seq<char>, text: Seq<char>) -> bool;

/// The capture-group spans of the leftmost-first match of `pattern` in `text`
/// (group zero is the whole match); `None` when nothing matches or the
/// pattern does not compile.
pub uninterp spec fn regex_first_captures(pattern: Seq<char>, text: Seq<char>) -> Option<
    Seq<Option<(usize, usize)>>,
>;

/// The capture-group spans of each successive non-overlapping match of
/// `pattern` in `text`; empty when the pattern does not compile.
pub uninterp spec fn regex_all_captures(pattern: Seq<char>, text: Seq<char>) -> Seq<
    Seq<Option<(usize, usize)>>,
>;

/// Relies on `regex::Regex::new` and `Regex::is_match`.
#[verifier::external_body]
pub(crate) fn search(pattern: &str, text: &str) -> (r: bool)
    ensures
        r == regex_found(pattern@, text@),
{
    match regex::Regex::new(pattern) {
        Ok(re) => re.is_match(text),
        Err(_) => false,
    }
}

/// Relies on `regex::Regex::new` and `Regex::captures`: the byte span of
/// each group of the first match, `None` for a group that did not take part.
#[verifier::external_body]
pub(crate) fn first_captures(pattern: &str, text: &str) -> (r: Option<Vec<Option<(usize, usize)>>>)
    ensures
        match r {
            Some(v) => regex_first_captures(pattern@, text@) == Some(v@),
            None => regex_first_captures(pattern@, text@) is None,
        },
{
    let re = match regex::Regex::new(pattern) {
        Ok(re) => re,
        Err(_) => return None,
    };
    re.captures(text).map(|caps| caps.iter().map(|g| g.map(|m| (m.start(), m.end()))).collect())
}

/// Relies on `regex::Regex::new` and `Regex::captures_iter`: for each match in
/// turn, the byte span of each of its groups.
#[verifier::external_body]
pub(crate) fn all_captures(pattern: &str, text: &str) -> (r: Vec<Vec<Option<(usize, usize)>>>)
    ensures
        r@.len() == regex_all_captures(pattern@, text@).len(),
        forall|i: int|
            0 <= i < r@.len() ==> #[trigger] r@[i]@ == regex_all_captures(pattern@, text@)[i],
{
    let re = match regex::Regex::new(pattern) {
        Ok(re) => re,
        Err(_) => return Vec::new(),
    };
    re.captures_iter(text).map(|caps| caps.iter().map(|g| g.map(|m| (m.start(), m.end()))).collect()).collect()
}

} // verus!
