//! The multi-pattern literal search that anchors every scan: an Aho-Corasick
//! automaton over the patterns' anchor needles, searched with overlapping
//! semantics so that every occurrence of every needle is reported.

use vstd::prelude::*;

use aho_corasick::{AhoCorasick, AhoCorasickBuilder, BuildError, MatchKind};

verus! {

#[verifier::external_type_specification]
#[verifier::external_body]
pub struct ExAhoCorasick(AhoCorasick);

#[verifier::external_type_specification]
#[verifier::external_body]
pub struct ExBuildError(BuildError);

/// The needles an automaton searches for, by pattern index.
pub uninterp spec fn automaton_needles(automaton: AhoCorasick) -> Seq<Seq<u8>>;

/// Whether an automaton was built for overlapping search: standard match
/// semantics with unanchored starts.
pub uninterp spec fn automaton_overlapping(automaton: AhoCorasick) -> bool;

/// `needle` occurs in `haystack` at `start`.
pub open spec fn occurs_at(needle: Seq<u8>, haystack: Seq<u8>, start: int) -> bool {
    &&& 0 <= start
    &&& start + needle.len() <= haystack.len()
    &&& haystack.subrange(start, start + needle.len()) == needle
}

/// Builds an automaton over `needles` with `MatchKind::Standard`
/// (`AhoCorasickBuilder::build`). On success the automaton searches for exactly
/// these needles, indexed as given, and supports overlapping search.
///
/// The builder fails only when a pattern length, or a state, transition, match
/// or pattern identifier, would pass the crate's index limit (`SmallIndex::MAX`,
/// `i32::MAX - 1` on the 32- and 64-bit targets this library verifies for); when
/// the DFA or contiguous NFA cannot be built it falls back to the noncontiguous
/// NFA. At most 64 needles of at most 4096 bytes each make a trie of at most
/// 2^18 states, with at most 2^24 match links and a few hundred thousand dense
/// transitions, far inside that limit, so such a build succeeds.
#[verifier::external_body]
pub(crate) fn build_automaton(needles: &Vec<Vec<u8>>) -> (res: core::result::Result<AhoCorasick, BuildError>)
    ensures
        needles@.len() <= 64 && (forall|p: int| 0 <= p < needles@.len() ==> (#[trigger] needles@[p])@.len() <= 4096) ==> res is Ok,
        res matches Ok(automaton) ==> automaton_overlapping(automaton)
            && automaton_needles(automaton).len() == needles@.len()
            && forall|p: int| 0 <= p < needles@.len() ==> #[trigger] automaton_needles(automaton)[p] == needles@[p]@,
{
    AhoCorasickBuilder::new().match_kind(MatchKind::Standard).build(needles)
}

/// The text of an automaton build error (its `Display`).
#[verifier::external_body]
pub(crate) fn build_error_text(error: &BuildError) -> (res: String) {
    error.to_string()
}

/// Every occurrence of every needle in `haystack`
/// (`AhoCorasick::find_overlapping_iter`), as `(pattern, start, end)` triples.
/// Each triple is a genuine occurrence, and, as the crate documents, the search
/// reports all possible matches at every position, so every occurrence is
/// among them.
#[verifier::external_body]
pub(crate) fn find_overlapping(automaton: &AhoCorasick, haystack: &[u8]) -> (res: Vec<(usize, usize, usize)>)
    requires
        automaton_overlapping(*automaton),
        forall|p: int| 0 <= p < automaton_needles(*automaton).len() ==> #[trigger] automaton_needles(*automaton)[p].len() > 0,
    ensures
        forall|k: int| 0 <= k < res@.len() ==> {
            let (p, start, end) = #[trigger] res@[k];
            &&& p < automaton_needles(*automaton).len()
            &&& end == start + automaton_needles(*automaton)[p as int].len()
            &&& occurs_at(automaton_needles(*automaton)[p as int], haystack@, start as int)
        },
        forall|p: int, start: int|
            0 <= p < automaton_needles(*automaton).len() && #[trigger] occurs_at(automaton_needles(*automaton)[p], haystack@, start)
                ==> exists|k: int| 0 <= k < res@.len() && #[trigger] res@[k] == (p as usize, start as usize, (start + automaton_needles(*automaton)[p].len()) as usize),
{
    automaton.find_overlapping_iter(haystack).map(|m| (m.pattern().as_usize(), m.start(), m.end())).collect()
}

} // verus!
