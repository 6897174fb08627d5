//! Fuzzy matching of the search query: the skim matcher finds the matched
//! characters, and a match is kept only when they lie close together.
use vstd::prelude::*;

use crate::text::{chars_of, string_from, trim, trim_chars};
use fuzzy_matcher::FuzzyMatcher;

verus! {

/// What `SkimMatcherV2::default().fuzzy_indices(value, query)` returns for
/// the positions of the matched characters (its score left out).
pub uninterp spec fn skim_indices(value: Seq<char>, query: Seq<char>) -> Option<Seq<usize>>;

/// Trusted: calls `fuzzy_matcher::skim::SkimMatcherV2::fuzzy_indices` on a
/// fresh default matcher (smart case), whose result depends on its
/// arguments alone. Only the matched positions are kept. Nothing else is
/// claimed of them.
#[verifier::external_body]
fn skim_fuzzy_indices(value: &str, query: &str) -> (r: Option<Vec<usize>>)
    ensures
        match r {
            Some(v) => skim_indices(value@, query@) == Some(v@),
            None => skim_indices(value@, query@) is None,
        },
{
    fuzzy_matcher::skim::SkimMatcherV2::default().fuzzy_indices(value, query).map(|m| m.1)
}

pub open spec fn sat_sub(a: int, b: int) -> int {
    if a >= b {
        a - b
    } else {
        0
    }
}

pub open spec fn sat_inc(a: int) -> int {
    if a < usize::MAX {
        a + 1
    } else {
        a
    }
}

/// How many characters between the first and the last matched one were
/// not matched (saturating).
pub open spec fn unmatched_span(indices: Seq<usize>) -> int {
    sat_sub(sat_inc(sat_sub(indices.last() as int, indices[0] as int)), indices.len() as int)
}

/// How many unmatched characters a match may span: half the matched ones,
/// rounded up, between 1 and 4.
pub open spec fn allowed_gap(n: int) -> int {
    let half = n / 2 + n % 2;
    if half < 1 {
        1
    } else if half > 4 {
        4
    } else {
        half
    }
}

/// A match is kept when its characters lie close together.
pub open spec fn compact_match(indices: Seq<usize>) -> Option<Seq<usize>> {
    if indices.len() == 0 {
        None
    } else if unmatched_span(indices) <= allowed_gap(indices.len() as int) {
        Some(indices)
    } else {
        None
    }
}

/// The positions of the characters of `value` that the (trimmed) query
/// matches, when it matches compactly; `None` for a blank query.
pub open spec fn fuzzy_match(value: Seq<char>, query: Seq<char>) -> Option<Seq<usize>> {
    let q = trim(query);
    if q.len() == 0 {
        None
    } else {
        match skim_indices(value, q) {
            Some(ix) => compact_match(ix),
            None => None,
        }
    }
}

/// Keeps the matched positions found by the matcher when they lie close
/// together.
pub fn accept_compact_match(indices: Vec<usize>) -> (r: Option<Vec<usize>>)
    ensures
        match r {
            Some(v) => compact_match(indices@) == Some(v@),
            None => compact_match(indices@) is None,
        },
{
    if indices.len() == 0 {
        return None;
    }
    let first = indices[0];
    let last = indices[indices.len() - 1];
    let n = indices.len();
    let unmatched = last.saturating_sub(first).saturating_add(1).saturating_sub(n);
    let half = n / 2 + n % 2;
    let allowed = if half < 1 {
        1
    } else if half > 4 {
        4
    } else {
        half
    };
    if unmatched <= allowed {
        Some(indices)
    } else {
        None
    }
}

/// Fuzzy search of `query` in `value`.
pub fn fuzzy_indices(value: &str, query: &str) -> (r: Option<Vec<usize>>)
    ensures
        match r {
            Some(v) => fuzzy_match(value@, query@) == Some(v@),
            None => fuzzy_match(value@, query@) is None,
        },
{
    let q = trim_chars(&chars_of(query));
    if q.len() == 0 {
        return None;
    }
    let qs = string_from(&q);
    match skim_fuzzy_indices(value, qs.as_str()) {
        Some(ix) => accept_compact_match(ix),
        None => None,
    }
}

} // verus!
