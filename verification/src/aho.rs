//! Lookup of a unit designator by an Aho-Corasick automaton that is anchored
//! at the start of the input and reports the longest match.

use vstd::prelude::*;
use aho_corasick::automaton::Automaton;
use crate::designator::designator_needles;
use crate::designator::designators;
use crate::designator::is_prefix_lookup;
use crate::designator::LookupError;
use crate::designator::prefix_outcome;
use crate::matching::first_occurrence;
use crate::matching::is_longest_match;
use crate::matching::no_repeats;
use crate::needles::TrieNeedles;
use crate::Unit;

verus! {

/// The automaton of the aho-corasick crate, of which nothing is seen here but
/// what the two names below say.
#[verifier::external_type_specification]
#[verifier::external_body]
pub struct ExDfa(aho_corasick::dfa::DFA);

/// The patterns that an automaton was built of, in the order in which they
/// were given.
pub uninterp spec fn dfa_patterns(dfa: aho_corasick::dfa::DFA) -> Seq<Seq<u8>>;

/// Whether an automaton was built to report the longest match and to support
/// searches that are anchored at the start of the input.
pub uninterp spec fn dfa_anchored_longest(dfa: aho_corasick::dfa::DFA) -> bool;

/// The byte strings that the patterns spell.
pub open spec fn pattern_bytes(patterns: Seq<&'static [u8]>) -> Seq<Seq<u8>> {
    Seq::new(patterns.len(), |i: int| patterns[i]@)
}

/// The byte strings that the labels spell.
pub open spec fn label_bytes(labels: Seq<(Seq<u8>, Unit)>) -> Seq<Seq<u8>> {
    Seq::new(labels.len(), |i: int| labels[i].0)
}

/// Calls `aho_corasick::dfa::Builder::build` on a builder that is set to the
/// match kind `LeftmostLongest` and the start kind `Anchored`. Where the
/// crate builds the automaton, it is one of the given patterns, made for
/// anchored searches for the longest match; the crate may also refuse to
/// build it.
#[verifier::external_body]
fn build_dfa(patterns: &Vec<&'static [u8]>) -> (r: Option<aho_corasick::dfa::DFA>)
    ensures
        match r {
            Some(dfa) => dfa_patterns(dfa) == pattern_bytes(patterns@) && dfa_anchored_longest(dfa),
            None => true,
        },
{
    aho_corasick::dfa::DFA::builder()
        .match_kind(aho_corasick::MatchKind::LeftmostLongest)
        .start_kind(aho_corasick::StartKind::Anchored)
        .build(patterns)
        .ok()
}

/// Calls `aho_corasick::automaton::Automaton::try_find` on the whole of
/// `input`, anchored at its start. Where the search gives a match, it is
/// the number of a pattern that the input starts with and the length of that
/// pattern, and the input starts with no longer pattern; where it gives
/// none, the input starts with no pattern. The search may also end in an
/// error, which is handed on as `None`.
#[verifier::external_body]
fn dfa_find(dfa: &aho_corasick::dfa::DFA, input: &[u8]) -> (r: Option<Option<(usize, usize)>>)
    requires
        dfa_anchored_longest(*dfa),
    ensures
        match r {
            Some(Some((pattern, end))) => {
                &&& pattern < dfa_patterns(*dfa).len()
                &&& end <= input@.len()
                &&& dfa_patterns(*dfa)[pattern as int] == input@.take(end as int)
                &&& forall|k: int|
                    0 <= k < dfa_patterns(*dfa).len() && (#[trigger] dfa_patterns(
                        *dfa,
                    )[k]).is_prefix_of(input@) ==> dfa_patterns(*dfa)[k].len() <= end
            },
            Some(None) => forall|k: int|
                0 <= k < dfa_patterns(*dfa).len() ==> !(#[trigger] dfa_patterns(*dfa)[k]).is_prefix_of(
                    input@,
                ),
            None => true,
        },
{
    let search = aho_corasick::Input::new(input).anchored(aho_corasick::Anchored::Yes);
    match dfa.try_find(&search) {
        Ok(Some(mat)) => Some(Some((mat.pattern().as_usize(), mat.end()))),
        Ok(None) => Some(None),
        Err(_) => None,
    }
}

/// An automaton of needles that spell different byte strings.
pub struct Searcher {
    dfa: aho_corasick::dfa::DFA,
    needles: TrieNeedles<Unit>,
}

impl Searcher {
    /// The automaton is one of the needles, made for anchored searches for the
    /// longest match, and the needles spell different byte strings.
    #[verifier::type_invariant]
    spec fn inv(self) -> bool {
        &&& dfa_anchored_longest(self.dfa)
        &&& dfa_patterns(self.dfa) == label_bytes(self.needles@)
        &&& no_repeats(self.needles@, self.needles@.len() as int)
    }

    /// The labels that the automaton was built of, with their units.
    pub closed spec fn needles(&self) -> Seq<(Seq<u8>, Unit)> {
        self.needles@
    }

    /// The patterns that were handed to the crate to build the automaton of,
    /// in the order in which they were given.
    pub closed spec fn patterns(&self) -> Seq<Seq<u8>> {
        dfa_patterns(self.dfa)
    }

    /// Builds the automaton of the needles: the crate is handed the byte
    /// strings of the needles, all of them and in their order. There is no
    /// automaton where a needle spells the same bytes as an earlier one, nor
    /// where the crate does not build one.
    pub fn new(needles: TrieNeedles<Unit>) -> (r: Option<Searcher>)
        ensures
            match r {
                Some(searcher) => {
                    &&& searcher.needles() == needles@
                    &&& searcher.patterns() == label_bytes(needles@)
                    &&& no_repeats(needles@, needles@.len() as int)
                },
                None => true,
            },
            !no_repeats(needles@, needles@.len() as int) ==> r is None,
    {
        let mut patterns: Vec<&'static [u8]> = Vec::new();
        let mut i: usize = 0;
        while i < needles.len()
            invariant
                i <= needles@.len(),
                patterns@.len() == i,
                forall|k: int| 0 <= k < i ==> (#[trigger] patterns@[k])@ == needles@[k].0,
            decreases needles@.len() - i,
        {
            patterns.push(needles.label(i));
            i += 1;
        }
        assert(pattern_bytes(patterns@) =~= label_bytes(needles@));
        Searcher::with_dfa(needles, build_dfa(&patterns))
    }

    /// Joins the needles with the automaton that was built of them, if one
    /// was built and the needles spell different byte strings.
    pub fn with_dfa(needles: TrieNeedles<Unit>, built: Option<aho_corasick::dfa::DFA>) -> (r:
        Option<Searcher>)
        requires
            match built {
                Some(dfa) => dfa_anchored_longest(dfa) && dfa_patterns(dfa) == label_bytes(
                    needles@,
                ),
                None => true,
            },
        ensures
            r is Some <==> built is Some && no_repeats(needles@, needles@.len() as int),
            match r {
                Some(searcher) => searcher.needles() == needles@ && searcher.patterns()
                    == label_bytes(needles@),
                None => true,
            },
    {
        match built {
            Some(dfa) => {
                if needles.has_repeats() {
                    None
                } else {
                    Some(Searcher { dfa, needles })
                }
            },
            None => None,
        }
    }

    /// Finds the longest of the automaton's labels at the start of
    /// `haystack`, and returns its unit and its length.
    ///
    /// Should the search end in an error, the labels are compared with the
    /// input one by one instead, which finds the same.
    pub fn find(&self, haystack: &[u8]) -> (r: Option<(Unit, usize)>)
        ensures
            is_longest_match(self.needles(), haystack@, r),
    {
        proof {
            use_type_invariant(self);
        }
        let ghost labels = self.needles@;
        match dfa_find(&self.dfa, haystack) {
            Some(Some((pattern, end))) => {
                proof {
                    let found = labels[pattern as int];
                    assert(label_bytes(labels)[pattern as int] == found.0);
                    assert(found == (haystack@.take(end as int), found.1));
                    assert(first_occurrence(labels, pattern as int));
                    assert forall|j: int|
                        0 <= j < labels.len() && (#[trigger] labels[j]).0.is_prefix_of(
                            haystack@,
                        ) implies labels[j].0.len() <= end by {
                        assert(label_bytes(labels)[j] == labels[j].0);
                    }
                }
                Some((self.needles.value(pattern), end))
            },
            Some(None) => {
                proof {
                    assert forall|j: int| 0 <= j < labels.len() implies !(#[trigger] labels[j]).0.is_prefix_of(
                    haystack@) by {
                        assert(label_bytes(labels)[j] == labels[j].0);
                    }
                }
                None
            },
            None => self.needles.find_longest(haystack),
        }
    }
}

/// Finds the longest of the automaton's labels at the start of `input`, and
/// returns its unit and the input after it.
pub fn lookup_with<'i>(searcher: &Searcher, input: &'i [u8]) -> (r: Result<
    (Unit, &'i [u8]),
    LookupError<'i>,
>)
    ensures
        is_prefix_lookup(searcher.needles(), input, r),
{
    prefix_outcome(input, searcher.find(input))
}

/// Finds the longest designator at the start of `input`, and returns its unit
/// and the input after it.
///
/// The automaton is built for the call. Should there be none, the
/// designators are compared with the input one by one instead, which finds
/// the same.
#[inline(never)]
pub fn lookup<'i>(input: &'i [u8]) -> (r: Result<(Unit, &'i [u8]), LookupError<'i>>)
    ensures
        is_prefix_lookup(designators(), input, r),
{
    match Searcher::new(designator_needles()) {
        Some(searcher) => lookup_with(&searcher, input),
        None => prefix_outcome(input, designator_needles().find_longest(input)),
    }
}

} // verus!
