//! Lookup of a unit designator by comparing the whole run of designator
//! bytes at the start of the input with each designator.

use vstd::prelude::*;
use crate::designator::designator_end;
use crate::designator::designator_needles;
use crate::designator::designators;
use crate::designator::is_run_lookup;
use crate::designator::LookupError;
use crate::designator::run_outcome;
use crate::Unit;

verus! {

/// Takes the run of designator bytes at the start of `input`, and returns
/// the unit that it names and the input after it.
#[inline(never)]
pub fn lookup<'i>(input: &'i [u8]) -> (r: Result<(Unit, &'i [u8]), LookupError<'i>>)
    ensures
        is_run_lookup(designators(), input, r),
{
    let end = designator_end(input);
    let needle = vstd::slice::slice_subrange(input, 0, end);
    assert(needle@ =~= input@.take(end as int));
    let unit = if needle.len() == 0 {
        None
    } else {
        designator_needles().find_exact(needle)
    };
    run_outcome(input, end, unit)
}

} // verus!
