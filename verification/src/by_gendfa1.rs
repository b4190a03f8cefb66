//! Lookup of a unit designator by an automaton that is written out state by
//! state.

use vstd::prelude::*;
use crate::designator::designators;
use crate::designator::is_prefix_lookup;
use crate::designator::prefix_outcome;
use crate::designator::LookupError;
use crate::gendfa1::find;
use crate::Unit;

verus! {

/// Finds the longest designator at the start of `input`, and returns its unit
/// and the input after it.
#[inline(never)]
pub fn lookup<'i>(input: &'i [u8]) -> (r: Result<(Unit, &'i [u8]), LookupError<'i>>)
    ensures
        is_prefix_lookup(designators(), input, r),
{
    prefix_outcome(input, find(input))
}

} // verus!
