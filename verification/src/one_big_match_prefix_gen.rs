//! The search behind the lookup by prefix comparison.

use vstd::prelude::*;
use crate::designator::designator_needles;
use crate::designator::designators;
use crate::matching::is_longest_match;
use crate::Unit;

verus! {

/// Finds the longest designator that `haystack` starts with, and returns its
/// unit and its length.
#[inline(always)]
pub fn find(haystack: &[u8]) -> (r: Option<(Unit, usize)>)
    ensures
        is_longest_match(designators(), haystack@, r),
{
    designator_needles().find_longest(haystack)
}

} // verus!
