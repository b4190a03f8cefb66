//! Lookup of a unit designator by comparing the start of the input with each
//! designator.

use vstd::prelude::*;
use crate::designator::designators;
use crate::designator::is_prefix_lookup;
use crate::designator::LookupError;
use crate::designator::prefix_outcome;
use crate::one_big_match_prefix_gen::find;
use crate::Unit;

verus! {

/// Finds the longest designator at the start of `input`, and returns its unit
/// and the input after it.
#[inline(never)]
pub fn lookup<'i>(input: &'i [u8]) -> (r: Result<(Unit, &'i [u8]), LookupError<'i>>)
    ensures
        is_prefix_lookup(designators(), input, r),
{
    prefix_outcome(input, find(input))
}

} // verus!
