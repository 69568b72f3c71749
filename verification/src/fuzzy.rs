//! The fuzzy similarity backend: a linear-scan score between a stored name
//! and the query, computed by an outside matcher.

use vstd::prelude::*;

verus! {

/// What the skim matcher returns for a candidate string and a query: `None`
/// when the candidate does not match, a relevance score otherwise. The value
/// depends on the two strings alone; within one query, higher is better.
pub uninterp spec fn fuzzy_score(name: Seq<char>, query: Seq<char>) -> Option<i64>;

/// Relies on fuzzy_matcher's `SkimMatcherV2::fuzzy_match` under the default
/// configuration: a deterministic similarity score computed from the two
/// strings alone.
#[verifier::external_body]
pub(crate) fn skim_fuzzy_match(name: &str, query: &str) -> (r: Option<i64>)
    ensures
        r == fuzzy_score(name@, query@),
{
    let matcher = fuzzy_matcher::skim::SkimMatcherV2::default();
    fuzzy_matcher::FuzzyMatcher::fuzzy_match(&matcher, name, query)
}

} // verus!
