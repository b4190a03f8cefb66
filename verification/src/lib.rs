//! Recognition of duration-unit designators ("years", "hrs", "µs", ...) at the
//! start of a byte string.

use vstd::prelude::*;

pub mod aho;
pub mod alphabet;
pub mod by_gendfa1;
pub mod by_trie3;
pub mod by_trie5;
pub mod designator;
pub mod designator_facts;
pub mod gen_simd;
pub mod gendfa1;
pub mod matching;
pub mod model;
pub mod needles;
pub mod one_big_match;
pub mod one_big_match_prefix;
pub mod one_big_match_prefix_gen;
pub mod outcome;
pub mod reorder;
pub mod slots;
pub mod trie3;
pub mod trie5;

verus! {

/// A unit of time, ordered from the smallest to the largest.
#[derive(Clone, Copy, Debug, PartialEq, Eq, Structural, PartialOrd, Ord, Hash)]
pub enum Unit {
    Nanosecond,
    Microsecond,
    Millisecond,
    Second,
    Minute,
    Hour,
    Day,
    Week,
    Month,
    Year,
}

} // verus!
