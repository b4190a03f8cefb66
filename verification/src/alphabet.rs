//! Byte-alphabet compression: every byte that occurs in some label gets an
//! equivalence class of its own, and all other bytes share class 0.

use vstd::prelude::*;
use crate::needles::TrieNeedles;

verus! {

/// Whether byte `b` occurs in some label.
pub open spec fn occurs<V>(labels: Seq<(Seq<u8>, V)>, b: u8) -> bool {
    exists|i: int, k: int|
        0 <= i < labels.len() && 0 <= k < labels[i].0.len() && #[trigger] labels[i].0[k] == b
}

/// The number of byte values below `n` that occur in some label.
pub open spec fn occurring_below<V>(labels: Seq<(Seq<u8>, V)>, n: int) -> nat
    decreases n,
{
    if n <= 0 {
        0
    } else if occurs(labels, (n - 1) as u8) {
        occurring_below(labels, n - 1) + 1
    } else {
        occurring_below(labels, n - 1)
    }
}

/// Whether every one of the 256 byte values occurs in some label.
pub open spec fn all_bytes_occur<V>(labels: Seq<(Seq<u8>, V)>) -> bool {
    occurring_below(labels, 256) == 256
}

/// The number of equivalence classes: one per occurring byte, and one more
/// for the bytes that occur nowhere, if there are any.
pub open spec fn class_count<V>(labels: Seq<(Seq<u8>, V)>) -> nat {
    if all_bytes_occur(labels) {
        256
    } else {
        occurring_below(labels, 256) + 1
    }
}

/// The equivalence class of byte `b`: occurring bytes are numbered from 1 in
/// ascending order and the others share class 0, unless every byte occurs, in
/// which case each byte is its own class.
pub open spec fn class_of<V>(labels: Seq<(Seq<u8>, V)>, b: u8) -> nat {
    if all_bytes_occur(labels) {
        b as nat
    } else if occurs(labels, b) {
        occurring_below(labels, b as int) + 1
    } else {
        0
    }
}

/// Whether byte `b` occurs in one of the first `i` labels, or among the first
/// `k` bytes of label `i`.
pub open spec fn occurs_before<V>(labels: Seq<(Seq<u8>, V)>, i: int, k: int, b: u8) -> bool {
    exists|i2: int, k2: int|
        0 <= i2 < labels.len() && 0 <= k2 < labels[i2].0.len() && (i2 < i || (i2 == i && k2 < k))
            && #[trigger] labels[i2].0[k2] == b
}

/// No more bytes occur below a bound than there are byte values below it.
pub proof fn lemma_occurring_below_bound<V>(labels: Seq<(Seq<u8>, V)>, n: int)
    requires
        0 <= n,
    ensures
        occurring_below(labels, n) <= n,
    decreases n,
{
    if n > 0 {
        lemma_occurring_below_bound(labels, n - 1);
    }
}

/// The count of occurring bytes grows with the bound, by one for each
/// occurring byte passed.
pub proof fn lemma_occurring_below_grows<V>(labels: Seq<(Seq<u8>, V)>, m: int, n: int)
    requires
        0 <= m <= n <= 256,
    ensures
        occurring_below(labels, m) <= occurring_below(labels, n),
        occurring_below(labels, n) - occurring_below(labels, m) <= n - m,
        m < n && occurs(labels, m as u8) ==> occurring_below(labels, m) < occurring_below(
            labels,
            n,
        ),
    decreases n - m,
{
    if m < n {
        lemma_occurring_below_grows(labels, m, n - 1);
        if m == n - 1 {
            assert(occurring_below(labels, n) == occurring_below(labels, m) + 1 || !occurs(
                labels,
                m as u8,
            ));
        }
    }
}

/// If all 256 byte values are counted, each of them occurs.
pub proof fn lemma_all_occur<V>(labels: Seq<(Seq<u8>, V)>, b: u8)
    requires
        all_bytes_occur(labels),
    ensures
        occurs(labels, b),
{
    lemma_occurring_below_grows(labels, 0, b as int);
    lemma_occurring_below_grows(labels, b as int + 1, 256);
    lemma_occurring_below_bound(labels, b as int);
    assert(occurring_below(labels, 0) == 0);
    if !occurs(labels, b) {
        assert(occurring_below(labels, b as int + 1) == occurring_below(labels, b as int));
    }
}

/// Without labels there is one class, that of the bytes that occur nowhere.
pub proof fn lemma_no_labels_one_class<V>(labels: Seq<(Seq<u8>, V)>, b: u8)
    requires
        labels.len() == 0,
    ensures
        class_count(labels) == 1,
        class_of(labels, b) == 0,
{
    lemma_none_occur(labels, 256);
}

/// Without labels no byte occurs.
proof fn lemma_none_occur<V>(labels: Seq<(Seq<u8>, V)>, n: int)
    requires
        labels.len() == 0,
        0 <= n <= 256,
    ensures
        occurring_below(labels, n) == 0,
    decreases n,
{
    if n > 0 {
        lemma_none_occur(labels, n - 1);
    }
}

/// Every class lies below the class count.
pub proof fn lemma_class_in_range<V>(labels: Seq<(Seq<u8>, V)>, b: u8)
    ensures
        class_of(labels, b) < class_count(labels),
        1 <= class_count(labels) <= 256,
{
    lemma_occurring_below_bound(labels, 256);
    if !all_bytes_occur(labels) && occurs(labels, b) {
        lemma_occurring_below_grows(labels, b as int, 256);
    }
}

/// A byte that occurs in a label is never put into class 0, the class of the
/// bytes that occur nowhere, unless all 256 byte values occur.
pub proof fn lemma_alphabet_sound<V>(labels: Seq<(Seq<u8>, V)>, i: int, k: int)
    requires
        0 <= i < labels.len(),
        0 <= k < labels[i].0.len(),
    ensures
        class_of(labels, labels[i].0[k]) != 0 || all_bytes_occur(labels),
{
    assert(occurs(labels, labels[i].0[k]));
}

/// An occurring byte shares its class with no other byte.
pub proof fn lemma_class_separates<V>(labels: Seq<(Seq<u8>, V)>, a: u8, b: u8)
    requires
        occurs(labels, a),
        class_of(labels, a) == class_of(labels, b),
    ensures
        a == b,
{
    if !all_bytes_occur(labels) {
        assert(occurs(labels, b));
        if a < b {
            lemma_occurring_below_grows(labels, a as int, b as int);
        } else if b < a {
            lemma_occurring_below_grows(labels, b as int, a as int);
        }
    }
}

/// The byte-to-class table of a vocabulary.
#[derive(Clone)]
pub struct TrieAlphabet {
    len: u16,
    equiv_classes: [u8; 256],
}

impl TrieAlphabet {
    /// The number of classes.
    pub closed spec fn spec_len(&self) -> nat {
        self.len as nat
    }

    /// The class that the table gives byte `b`.
    pub closed spec fn spec_equiv_id(&self, b: u8) -> nat {
        self.equiv_classes@[b as int] as nat
    }

    /// Whether this is the compressed alphabet of `labels`.
    pub open spec fn is_alphabet_of<V>(&self, labels: Seq<(Seq<u8>, V)>) -> bool {
        &&& self.spec_len() == class_count(labels)
        &&& forall|b: u8| #[trigger] self.spec_equiv_id(b) == class_of(labels, b)
    }

    /// Computes the compressed alphabet of the needles.
    pub fn new<V: Copy>(needles: &TrieNeedles<V>) -> (alphabet: TrieAlphabet)
        ensures
            alphabet.is_alphabet_of(needles@),
    {
        let ghost labels = needles@;
        let mut equiv_set = [false; 256];
        let mut i: usize = 0;
        while i < needles.len()
            invariant
                labels == needles@,
                i <= labels.len(),
                forall|b: u8| #[trigger] equiv_set@[b as int] == occurs_before(labels, i as int, 0, b),
            decreases labels.len() - i,
        {
            let needle = needles.label(i);
            let mut k: usize = 0;
            while k < needle.len()
                invariant
                    labels == needles@,
                    i < labels.len(),
                    needle@ == labels[i as int].0,
                    k <= needle@.len(),
                    forall|b: u8| #[trigger]
                        equiv_set@[b as int] == occurs_before(labels, i as int, k as int, b),
                decreases needle@.len() - k,
            {
                let byte = needle[k];
                let ghost before = equiv_set@;
                equiv_set[byte as usize] = true;
                assert forall|b: u8| #[trigger]
                    equiv_set@[b as int] == occurs_before(labels, i as int, k as int + 1, b) by {
                    if b == byte {
                        assert(labels[i as int].0[k as int] == b);
                    } else if before[b as int] {
                        let (i2, k2) = choose|i2: int, k2: int|
                            0 <= i2 < labels.len() && 0 <= k2 < labels[i2].0.len() && (i2 < i || (i2
                                == i && k2 < k)) && #[trigger] labels[i2].0[k2] == b;
                        assert(labels[i2].0[k2] == b);
                    }
                }
                k += 1;
            }
            assert forall|b: u8| #[trigger]
                equiv_set@[b as int] == occurs_before(labels, i as int + 1, 0, b) by {
                if equiv_set@[b as int] {
                    let (i2, k2) = choose|i2: int, k2: int|
                        0 <= i2 < labels.len() && 0 <= k2 < labels[i2].0.len() && (i2 < i || (i2
                            == i && k2 < k)) && #[trigger] labels[i2].0[k2] == b;
                    assert(labels[i2].0[k2] == b);
                }
            }
            i += 1;
        }
        assert forall|b: u8| #[trigger] equiv_set@[b as int] == occurs(labels, b) by {
            if occurs(labels, b) {
                let (i2, k2) = choose|i2: int, k2: int|
                    0 <= i2 < labels.len() && 0 <= k2 < labels[i2].0.len()
                        && #[trigger] labels[i2].0[k2] == b;
                assert(labels[i2].0[k2] == b);
            }
        }

        let mut len: u16 = 0;
        let mut i: usize = 0;
        while i < 256
            invariant
                i <= 256,
                len == occurring_below(labels, i as int),
                len <= i,
                forall|b: u8| #[trigger] equiv_set@[b as int] == occurs(labels, b),
            decreases 256 - i,
        {
            if equiv_set[i] {
                assert(equiv_set@[(i as u8) as int]);
                len += 1;
            } else {
                assert(!equiv_set@[(i as u8) as int]);
            }
            i += 1;
        }
        let mut equiv_classes = [0x00u8; 256];
        let mut byte: u16 = 0;
        if len == 256 {
            // Every byte value occurs: each one is its own class.
            while byte < 256
                invariant
                    byte <= 256,
                    forall|b: u8| b < byte ==> #[trigger] equiv_classes@[b as int] == b,
                decreases 256 - byte,
            {
                equiv_classes[byte as usize] = byte as u8;
                byte += 1;
            }
        } else {
            // Class 0 is left to the bytes that occur nowhere.
            let mut equiv_id: u16 = 1;
            while byte < 256
                invariant
                    byte <= 256,
                    len == occurring_below(labels, 256),
                    len < 256,
                    equiv_id == occurring_below(labels, byte as int) + 1,
                    forall|b: u8| #[trigger] equiv_set@[b as int] == occurs(labels, b),
                    forall|b: u8|
                        b < byte ==> #[trigger] equiv_classes@[b as int] == class_of(labels, b),
                    forall|b: u8| b >= byte ==> #[trigger] equiv_classes@[b as int] == 0,
                decreases 256 - byte,
            {
                if equiv_set[byte as usize] {
                    assert(equiv_set@[(byte as u8) as int]);
                    proof {
                        lemma_occurring_below_grows(labels, byte as int, 256);
                    }
                    equiv_classes[byte as usize] = equiv_id as u8;
                    equiv_id += 1;
                } else {
                    assert(!equiv_set@[(byte as u8) as int]);
                }
                byte += 1;
            }
            len += 1;
        }
        TrieAlphabet { len, equiv_classes }
    }

    /// The number of equivalence classes.
    #[inline(always)]
    pub fn len(&self) -> (n: usize)
        ensures
            n == self.spec_len(),
    {
        self.len as usize
    }

    /// The equivalence class of `byte`.
    #[inline(always)]
    pub fn equiv_id(&self, byte: u8) -> (id: u8)
        ensures
            id == self.spec_equiv_id(byte),
    {
        self.equiv_classes[byte as usize]
    }
}

} // verus!
