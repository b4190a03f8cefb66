//! Lookup of a unit designator by a trie that is searched for the whole run
//! of designator bytes at the start of the input.

use vstd::prelude::*;
use crate::alphabet::class_count;
use crate::alphabet::lemma_class_in_range;
use crate::designator::designator_end;
use crate::designator::designator_needles;
use crate::designator::designators;
use crate::designator::is_run_lookup;
use crate::designator::run_outcome;
use crate::designator::LookupError;
use crate::designator_facts::lemma_designators_fit;
use crate::designator_facts::DESIGNATOR_NODES;
use crate::slots::lemma_slot_of;
use crate::trie5::Trie;
use crate::Unit;

verus! {

/// A trie of unit designators.
pub type DesignatorTrie = Trie<Unit>;

/// The number of nodes that the trie of the designators has room for.
pub const NODE_CAPACITY: usize = DESIGNATOR_NODES;

/// Builds the trie of the designators.
pub fn designator_trie() -> (trie: DesignatorTrie)
    ensures
        trie.needles() == designators(),
{
    let needles = designator_needles();
    proof {
        lemma_designators_fit();
        lemma_class_in_range(designators(), 0);
        lemma_slot_of(NODE_CAPACITY as int, 0, class_count(designators()) as int);
        assert(class_count(designators()) * NODE_CAPACITY <= 256 * NODE_CAPACITY) by (nonlinear_arith)
            requires
                class_count(designators()) <= 256,
        ;
        assert(class_count(designators()) * NODE_CAPACITY == NODE_CAPACITY * class_count(
            designators(),
        )) by (nonlinear_arith);
    }
    let transition_capacity = needles.transition_len(NODE_CAPACITY);
    match Trie::new(&needles, transition_capacity, Unit::Nanosecond) {
        Ok(trie) => trie,
        Err(_) => vstd::pervasive::unreached(),
    }
}

/// Takes the run of designator bytes at the start of `input`, and returns
/// the unit that the trie gives it and the input after it.
pub fn lookup_with<'i>(trie: &DesignatorTrie, input: &'i [u8]) -> (r: Result<
    (Unit, &'i [u8]),
    LookupError<'i>,
>)
    ensures
        is_run_lookup(trie.needles(), input, r),
{
    let end = designator_end(input);
    let needle = vstd::slice::slice_subrange(input, 0, end);
    assert(needle@ =~= input@.take(end as int));
    let unit = if needle.len() == 0 {
        None
    } else {
        trie.find(needle)
    };
    run_outcome(input, end, unit)
}

/// Takes the run of designator bytes at the start of `input`, and returns
/// the unit that it names and the input after it. The trie is built for the
/// call.
#[inline(never)]
pub fn lookup<'i>(input: &'i [u8]) -> (r: Result<(Unit, &'i [u8]), LookupError<'i>>)
    ensures
        is_run_lookup(designators(), input, r),
{
    lookup_with(&designator_trie(), input)
}

} // verus!
