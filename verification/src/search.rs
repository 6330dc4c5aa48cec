//! Searching a text for several patterns at once, with the `aho-corasick`
//! crate behind contracts.

use aho_corasick::AhoCorasick;
use vstd::prelude::*;

verus! {

/// A multi-pattern searcher: an Aho-Corasick automaton with the standard
/// match semantics.
#[verifier::external_body]
pub struct Searcher {
    automaton: AhoCorasick,
}

/// The patterns that a searcher was built from, in the order given.
pub uninterp spec fn searcher_patterns(s: Searcher) -> Seq<Seq<u8>>;

/// `pattern` stands in `haystack` at offset `at`.
pub open spec fn occurs_at(pattern: Seq<u8>, haystack: Seq<u8>, at: int) -> bool {
    &&& 0 <= at
    &&& at + pattern.len() <= haystack.len()
    &&& haystack.subrange(at, at + pattern.len()) == pattern
}

/// All patterns have the same length `width`, which is not zero, and no two
/// are equal.
pub open spec fn uniform(patterns: Seq<Seq<u8>>, width: nat) -> bool {
    &&& width > 0
    &&& forall|k: int| 0 <= k < patterns.len() ==> (#[trigger] patterns[k]).len() == width
    &&& forall|j: int, k: int|
        0 <= j < k < patterns.len() ==> #[trigger] patterns[j] != #[trigger] patterns[k]
}

/// No pattern stands in `haystack` at an offset below `limit`.
pub open spec fn none_before(patterns: Seq<Seq<u8>>, haystack: Seq<u8>, limit: int) -> bool {
    forall|k: int, at: int|
        0 <= k < patterns.len() && 0 <= at < limit ==> !#[trigger] occurs_at(
            patterns[k],
            haystack,
            at,
        )
}

/// `AhoCorasick::new_auto_configured`: an automaton for exactly the patterns
/// given, numbered in their order, with the standard match semantics.
#[verifier::external_body]
pub(crate) fn build_searcher(patterns: &Vec<Vec<u8>>) -> (s: Searcher)
    ensures
        searcher_patterns(s) == patterns.deep_view(),
{
    Searcher { automaton: AhoCorasick::new_auto_configured(patterns) }
}

/// `AhoCorasick::find`: the first match that the automaton sees, as pattern
/// number, start and end. With patterns of one common length that is the
/// leftmost place at which any pattern stands; `None` says that none stands
/// anywhere.
#[verifier::external_body]
pub(crate) fn first_match(s: &Searcher, haystack: &[u8]) -> (m: Option<(usize, usize, usize)>)
    requires
        exists|width: nat| uniform(searcher_patterns(*s), width),
    ensures
        match m {
            Some((k, start, end)) => {
                &&& k < searcher_patterns(*s).len()
                &&& occurs_at(searcher_patterns(*s)[k as int], haystack@, start as int)
                &&& end == start + searcher_patterns(*s)[k as int].len()
                &&& none_before(searcher_patterns(*s), haystack@, start as int)
            },
            None => none_before(searcher_patterns(*s), haystack@, haystack@.len() as int),
        },
{
    match s.automaton.find(haystack) {
        Some(m) => Some((m.pattern(), m.start(), m.end())),
        None => None,
    }
}

} // verus!
