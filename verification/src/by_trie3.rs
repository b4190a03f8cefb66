//! Lookup of a unit designator by a trie that finds the longest one.

use vstd::prelude::*;
use crate::designator::designator_needles;
use crate::designator::designators;
use crate::designator::is_prefix_lookup;
use crate::designator::LookupError;
use crate::designator_facts::lemma_designators_fit;
use crate::designator_facts::DESIGNATOR_NODES;
use crate::designator::prefix_outcome;
use crate::trie3::Trie;
use crate::Unit;

verus! {

/// A trie of unit designators.
pub type DesignatorTrie = Trie<Unit>;

/// The number of nodes that the trie of the designators has room for.
pub const NODE_CAPACITY: usize = DESIGNATOR_NODES;

/// Builds the trie of the designators.
pub fn designator_trie() -> (trie: DesignatorTrie)
    ensures
        trie.needles() == designators(),
{
    proof {
        lemma_designators_fit();
    }
    match Trie::new(&designator_needles(), NODE_CAPACITY) {
        Ok(trie) => trie,
        Err(_) => vstd::pervasive::unreached(),
    }
}

/// Finds the longest of the trie's labels at the start of `input`, and
/// returns its unit and the input after it.
pub fn lookup_with<'i>(trie: &DesignatorTrie, input: &'i [u8]) -> (r: Result<
    (Unit, &'i [u8]),
    LookupError<'i>,
>)
    ensures
        is_prefix_lookup(trie.needles(), input, r),
{
    prefix_outcome(input, trie.find(input))
}

/// Finds the longest designator at the start of `input`, and returns its unit
/// and the input after it. The trie is built for the call.
#[inline(never)]
pub fn lookup<'i>(input: &'i [u8]) -> (r: Result<(Unit, &'i [u8]), LookupError<'i>>)
    ensures
        is_prefix_lookup(designators(), input, r),
{
    lookup_with(&designator_trie(), input)
}

} // verus!
