//! The vocabulary a trie is built from: byte-string labels, each paired with
//! the value it stands for.

use vstd::prelude::*;
use vstd::string::StringSliceAdditionalSpecFns;
use crate::alphabet::class_count;
use crate::alphabet::TrieAlphabet;
use crate::matching::is_exact_match;
use crate::matching::is_longest_match;
use crate::matching::no_repeats;

verus! {

/// Converts a list of `(text, value)` pairs to the byte strings they spell.
pub open spec fn labels_of<V>(map: Seq<(&'static str, V)>) -> Seq<(Seq<u8>, V)> {
    Seq::new(map.len(), |i: int| (map[i].0.spec_bytes(), map[i].1))
}

/// Whether `haystack` starts with `label`.
pub fn starts_with(haystack: &[u8], label: &[u8]) -> (r: bool)
    ensures
        r == label@.is_prefix_of(haystack@),
{
    if label.len() > haystack.len() {
        return false;
    }
    let mut k: usize = 0;
    while k < label.len()
        invariant
            k <= label@.len() <= haystack@.len(),
            forall|j: int| 0 <= j < k ==> label@[j] == haystack@[j],
        decreases label@.len() - k,
    {
        if label[k] != haystack[k] {
            assert(haystack@.subrange(0, label@.len() as int)[k as int] != label@[k as int]);
            return false;
        }
        k += 1;
    }
    assert(label@ =~= haystack@.subrange(0, label@.len() as int));
    true
}

/// A fixed list of needles: labels with the values they map to.
#[derive(Clone, Copy, Debug)]
pub struct TrieNeedles<V: 'static> {
    map: &'static [(&'static str, V)],
}

impl<V: Copy + 'static> View for TrieNeedles<V> {
    type V = Seq<(Seq<u8>, V)>;

    closed spec fn view(&self) -> Seq<(Seq<u8>, V)> {
        labels_of(self.map@)
    }
}

impl<V: Copy + 'static> TrieNeedles<V> {
    /// The needles of a list of `(text, value)` pairs.
    pub fn new(map: &'static [(&'static str, V)]) -> (needles: TrieNeedles<V>)
        ensures
            needles@ == labels_of(map@),
    {
        TrieNeedles { map }
    }

    /// The number of needles.
    pub fn len(&self) -> (n: usize)
        ensures
            n == self@.len(),
    {
        self.map.len()
    }

    /// The bytes of the needle at `index`.
    pub fn label(&self, index: usize) -> (bytes: &'static [u8])
        requires
            index < self@.len(),
        ensures
            bytes@ == self@[index as int].0,
    {
        let (needle, _) = self.map[index];
        needle.as_bytes()
    }

    /// The needle at `index` as text.
    pub fn text(&self, index: usize) -> (text: &'static str)
        requires
            index < self@.len(),
        ensures
            text.spec_bytes() == self@[index as int].0,
    {
        let (needle, _) = self.map[index];
        needle
    }

    /// The value of the needle at `index`.
    pub fn value(&self, index: usize) -> (value: V)
        requires
            index < self@.len(),
        ensures
            value == self@[index as int].1,
    {
        let (_, value) = self.map[index];
        value
    }

    /// Whether some needle spells the same bytes as an earlier one.
    pub fn has_repeats(&self) -> (r: bool)
        ensures
            r == !no_repeats(self@, self@.len() as int),
    {
        let ghost labels = self@;
        let mut j: usize = 0;
        while j < self.len()
            invariant
                labels == self@,
                j <= labels.len(),
                no_repeats(labels, j as int),
            decreases labels.len() - j,
        {
            let label = self.label(j);
            let mut i: usize = 0;
            while i < j
                invariant
                    labels == self@,
                    i <= j < labels.len(),
                    label@ == labels[j as int].0,
                    no_repeats(labels, j as int),
                    forall|k: int| 0 <= k < i ==> (#[trigger] labels[k]).0 != labels[j as int].0,
                decreases j - i,
            {
                let earlier = self.label(i);
                if earlier.len() == label.len() && starts_with(label, earlier) {
                    assert(earlier@ =~= label@);
                    assert(labels[i as int].0 == labels[j as int].0);
                    return true;
                }
                i += 1;
            }
            j += 1;
        }
        false
    }

    /// Compares `haystack` with one needle after the other, and returns the
    /// value of the first needle that it is equal to.
    pub fn find_exact(&self, haystack: &[u8]) -> (r: Option<V>)
        ensures
            is_exact_match(self@, haystack@, r),
    {
        let ghost labels = self@;
        let mut i: usize = 0;
        while i < self.len()
            invariant
                labels == self@,
                i <= labels.len(),
                forall|j: int| 0 <= j < i ==> (#[trigger] labels[j]).0 != haystack@,
            decreases labels.len() - i,
        {
            let label = self.label(i);
            if label.len() == haystack.len() && starts_with(haystack, label) {
                assert(label@ =~= haystack@);
                assert(labels[i as int] == (haystack@, labels[i as int].1));
                return Some(self.value(i));
            }
            i += 1;
        }
        None
    }

    /// Compares the start of `haystack` with one needle after the other, and
    /// returns the value and the length of the longest needle that it starts
    /// with, of the first one if there are several.
    pub fn find_longest(&self, haystack: &[u8]) -> (r: Option<(V, usize)>)
        ensures
            is_longest_match(self@, haystack@, r),
    {
        let ghost labels = self@;
        let ghost h = haystack@;
        let mut best: Option<(usize, usize)> = None;
        let mut i: usize = 0;
        while i < self.len()
            invariant
                labels == self@,
                h == haystack@,
                i <= labels.len(),
                match best {
                    Some((at, n)) => {
                        &&& at < i
                        &&& n == labels[at as int].0.len()
                        &&& labels[at as int].0.is_prefix_of(h)
                        &&& forall|j: int|
                            0 <= j < at && (#[trigger] labels[j]).0.is_prefix_of(h)
                                ==> labels[j].0.len() < n
                        &&& forall|j: int|
                            0 <= j < i && (#[trigger] labels[j]).0.is_prefix_of(h)
                                ==> labels[j].0.len() <= n
                    },
                    None => forall|j: int|
                        0 <= j < i ==> !(#[trigger] labels[j]).0.is_prefix_of(h),
                },
            decreases labels.len() - i,
        {
            let label = self.label(i);
            if starts_with(haystack, label) {
                let longer = match best {
                    Some((_, n)) => label.len() > n,
                    None => true,
                };
                if longer {
                    best = Some((i, label.len()));
                }
            }
            i += 1;
        }
        match best {
            Some((at, n)) => {
                proof {
                    let found = labels[at as int];
                    assert(found.0 =~= h.take(n as int));
                    assert(found == (h.take(n as int), found.1));
                    assert forall|j: int| 0 <= j < at implies (#[trigger] labels[j]).0
                        != found.0 by {
                        if labels[j].0 == found.0 {
                            assert(labels[j].0.is_prefix_of(h));
                        }
                    }
                }
                Some((self.value(at), n))
            },
            None => None,
        }
    }

    /// The number of equivalence classes that the needles' bytes fall into.
    pub fn alphabet_len(&self) -> (n: usize)
        ensures
            n == class_count(self@),
    {
        self.alphabet().len()
    }

    /// The number of transition slots that `node_capacity` nodes occupy.
    pub fn transition_len(&self, node_capacity: usize) -> (n: usize)
        requires
            class_count(self@) * node_capacity <= usize::MAX,
        ensures
            n == class_count(self@) * node_capacity,
    {
        self.alphabet().len() * node_capacity
    }

    /// The compressed alphabet of the needles.
    pub fn alphabet(&self) -> (alphabet: TrieAlphabet)
        ensures
            alphabet.is_alphabet_of(self@),
    {
        TrieAlphabet::new(self)
    }
}

} // verus!
