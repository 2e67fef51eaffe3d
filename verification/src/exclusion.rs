//! The LCA exclusion matcher: a multi-pattern substring automaton from the
//! `aho_corasick` crate, held behind a library type whose contracts speak of
//! the pattern set it was built from.

use vstd::prelude::*;

use crate::lines::views;
use crate::scan::contains_bytes;

verus! {

#[verifier::external_type_specification]
#[verifier::external_body]
pub struct ExAhoCorasick(aho_corasick::AhoCorasick);

/// The patterns an automaton was built from.
pub uninterp spec fn ac_patterns(ac: aho_corasick::AhoCorasick) -> Seq<Seq<u8>>;

/// Some pattern of `pats` occurs in `hay` as a contiguous run of bytes.
pub open spec fn matches_any(pats: Seq<Seq<u8>>, hay: Seq<u8>) -> bool {
    exists|i: int| 0 <= i < pats.len() && contains_bytes(hay, #[trigger] pats[i])
}

/// Building the automaton failed (a limit of the matcher was exceeded).
#[derive(Debug, Clone, PartialEq, Eq)]
pub struct ExclusionBuildError;

/// A compiled multi-pattern byte matcher with find-any queries. Only
/// `ExclusionMatcher::new` builds one, with the matcher crate's default
/// configuration, so its searches cannot fail.
pub struct ExclusionMatcher {
    ac: aho_corasick::AhoCorasick,
}

impl ExclusionMatcher {
    /// The patterns this matcher searches for.
    pub closed spec fn patterns(&self) -> Seq<Seq<u8>> {
        ac_patterns(self.ac)
    }

    /// Relies on `aho_corasick::AhoCorasick::new`: on success the automaton
    /// is built over exactly the given patterns.
    #[verifier::external_body]
    pub fn new(patterns: &Vec<Vec<u8>>) -> (r: Result<ExclusionMatcher, ExclusionBuildError>)
        ensures
            r matches Ok(m) ==> m.patterns() == views(patterns@),
    {
        match aho_corasick::AhoCorasick::new(patterns) {
            Ok(ac) => Ok(ExclusionMatcher { ac }),
            Err(_) => Err(ExclusionBuildError),
        }
    }

    /// Whether some pattern occurs in the haystack.
    pub fn is_match(&self, haystack: &[u8]) -> (r: bool)
        ensures
            r == matches_any(self.patterns(), haystack@),
    {
        ac_is_match_raw(&self.ac, haystack)
    }
}

/// Relies on `aho_corasick::AhoCorasick::is_match`: true if and only if the
/// automaton matches the haystack at some position, that is, some pattern
/// occurs in it as a contiguous run of bytes. Called only on automatons of
/// the default configuration, whose searches cannot fail.
#[verifier::external_body]
fn ac_is_match_raw(ac: &aho_corasick::AhoCorasick, haystack: &[u8]) -> (r: bool)
    ensures
        r == matches_any(ac_patterns(*ac), haystack@),
{
    ac.is_match(haystack)
}

/// The pattern set of an optional exclusion matcher.
pub open spec fn exclusion_patterns(ex: Option<&ExclusionMatcher>) -> Option<Seq<Seq<u8>>> {
    match ex {
        Some(m) => Some(m.patterns()),
        None => None,
    }
}

}
