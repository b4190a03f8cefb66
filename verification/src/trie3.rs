//! A trie whose nodes each hold one transition per equivalence class, and
//! whose search keeps track of the last accepting node it came through, so
//! that it finds the longest label at the start of its input.

use vstd::prelude::*;
use crate::alphabet::class_count;
use crate::alphabet::class_of;
use crate::alphabet::lemma_class_in_range;
use crate::alphabet::TrieAlphabet;
use crate::matching::is_longest_match;
use crate::model::grown;
use crate::model::lemma_advance;
use crate::model::lemma_extend;
use crate::model::lemma_finish;
use crate::model::lemma_follow;
use crate::model::lemma_label_covered;
use crate::model::lemma_no_edge;
use crate::model::lemma_node_of;
use crate::model::lemma_node_value;
use crate::model::lemma_repeat;
use crate::model::lemma_root_only;
use crate::model::root_only;
use crate::model::TrieModel;
pub use crate::needles::TrieNeedles;
use crate::outcome::build_error;
use crate::outcome::lemma_outcome_capacity;
use crate::outcome::lemma_outcome_duplicate;
use crate::outcome::lemma_outcome_no_room;
use crate::outcome::lemma_outcome_ok;
pub use crate::outcome::TrieError;

verus! {

/// The most nodes that a trie can hold: node identifiers are single bytes.
pub const MAX_NODE_CAPACITY: usize = 255;

/// A node: where each class leads, and the value that the node accepts
/// with, if it accepts.
struct TrieNode<V> {
    transitions: Vec<u8>,
    value: Option<V>,
}

/// A trie over a compressed alphabet, searched for the longest label that its
/// input starts with.
pub struct Trie<V> {
    nodes: Vec<TrieNode<V>>,
    len: usize,
    alphabet: TrieAlphabet,
    needles: Ghost<Seq<(Seq<u8>, V)>>,
    model: Ghost<TrieModel<V>>,
}

/// Whether the first `len` of `nodes` hold the trie `m`, and the others
/// nothing.
spec fn holds<V>(nodes: Seq<TrieNode<V>>, len: int, classes: int, m: TrieModel<V>) -> bool {
    &&& m.root == 1
    &&& m.len() == len
    &&& 2 <= len <= nodes.len() <= MAX_NODE_CAPACITY
    &&& forall|n: int| 0 <= n < nodes.len() ==> (#[trigger] nodes[n]).transitions@.len() == classes
    &&& forall|n: int, c: int|
        0 <= n < len && 0 <= c < classes ==> #[trigger] nodes[n].transitions@[c] == m.edges[n][c]
    &&& forall|n: int| 0 <= n < len ==> (#[trigger] nodes[n]).value == m.values[n]
    &&& forall|n: int, c: int|
        len <= n < nodes.len() && 0 <= c < classes ==> #[trigger] nodes[n].transitions@[c] == 0
    &&& forall|n: int| len <= n < nodes.len() ==> (#[trigger] nodes[n]).value is None
}

impl<V> Trie<V> {
    /// The nodes hold the trie of the needles over their alphabet.
    #[verifier::type_invariant]
    spec fn inv(self) -> bool {
        &&& self.alphabet.is_alphabet_of(self.needles@)
        &&& self.model@.is_trie_of(self.needles@)
        &&& holds(self.nodes@, self.len as int, class_count(self.needles@) as int, self.model@)
    }

    /// The labels that the trie was built from, with their values.
    pub closed spec fn needles(&self) -> Seq<(Seq<u8>, V)> {
        self.needles@
    }
}

impl<V: Copy> Trie<V> {
    /// The node that stands for failure.
    const FAIL_ID: u8 = 0;

    /// The node at which every search starts.
    const ROOT_ID: u8 = 1;

    /// Builds the trie of the needles, with room for `node_capacity` nodes,
    /// the root and the node that stands for failure among them.
    pub fn new(needles: &TrieNeedles<V>, node_capacity: usize) -> (r: Result<Trie<V>, TrieError>)
        ensures
            match r {
                Ok(trie) => {
                    &&& trie.needles() == needles@
                    &&& node_capacity <= MAX_NODE_CAPACITY
                    &&& build_error(needles@, node_capacity as int) is None
                },
                Err(e) => if node_capacity > MAX_NODE_CAPACITY {
                    e == TrieError::CapacityExceeded
                } else {
                    build_error(needles@, node_capacity as int) == Some(e)
                },
            },
    {
        let ghost labels = needles@;
        let alphabet = needles.alphabet();
        let classes = alphabet.len();
        if node_capacity > MAX_NODE_CAPACITY {
            return Err(TrieError::CapacityExceeded);
        }
        if node_capacity < 2 {
            proof {
                lemma_outcome_no_room(labels, node_capacity as int);
            }
            return Err(TrieError::CapacityExceeded);
        }
        let mut nodes: Vec<TrieNode<V>> = Vec::new();
        while nodes.len() < node_capacity
            invariant
                nodes.len() <= node_capacity,
                forall|n: int|
                    0 <= n < nodes.len() ==> (#[trigger] nodes[n]).transitions@.len() == classes,
                forall|n: int, c: int|
                    0 <= n < nodes.len() && 0 <= c < classes ==> #[trigger] nodes[n].transitions@[c]
                        == 0,
                forall|n: int| 0 <= n < nodes.len() ==> (#[trigger] nodes[n]).value is None,
            decreases node_capacity - nodes.len(),
        {
            nodes.push(TrieNode { transitions: vec![Self::FAIL_ID; classes], value: None });
        }
        let mut len: usize = 2;
        let ghost mut model = root_only::<V>(classes as int);
        proof {
            lemma_root_only(labels);
        }

        let mut i: usize = 0;
        while i < needles.len()
            invariant
                labels == needles@,
                alphabet.is_alphabet_of(labels),
                classes == class_count(labels),
                nodes.len() == node_capacity,
                i <= labels.len(),
                model.wf(labels, i as int, 0),
                model == grown(labels, i as int, 0),
                holds(nodes@, len as int, classes as int, model),
            decreases labels.len() - i,
        {
            let needle = needles.label(i);
            let unit = needles.value(i);
            let mut node_id = Self::ROOT_ID;
            let mut k: usize = 0;
            assert(labels[i as int].0.take(0) =~= Seq::empty());
            assert(model.paths[1] =~= Seq::empty());
            while k < needle.len()
                invariant
                    labels == needles@,
                    alphabet.is_alphabet_of(labels),
                    classes == class_count(labels),
                    nodes.len() == node_capacity,
                    i < labels.len(),
                    needle@ == labels[i as int].0,
                    k <= needle@.len(),
                    model.wf(labels, i as int, k as int),
                    model == grown(labels, i as int, k as int),
                    holds(nodes@, len as int, classes as int, model),
                    model.is_node(node_id as int),
                    model.paths[node_id as int] == needle@.take(k as int),
                decreases needle@.len() - k,
            {
                let byte = needle[k];
                let equiv_id = alphabet.equiv_id(byte);
                proof {
                    lemma_class_in_range(labels, byte);
                }
                proof {
                    lemma_node_of(model, node_id as int);
                }
                let mut next_id = nodes[node_id as usize].transitions[equiv_id as usize];
                if next_id == Self::FAIL_ID {
                    if len >= node_capacity {
                        proof {
                            lemma_outcome_capacity(model, labels, i as int, k as int, node_id as int);
                        }
                        return Err(TrieError::CapacityExceeded);
                    }
                    next_id = len as u8;
                    nodes[node_id as usize].transitions[equiv_id as usize] = next_id;
                    proof {
                        lemma_extend(model, labels, i as int, k as int, node_id as int);
                        model = model.with_child(
                            node_id as int,
                            equiv_id as int,
                            needle@.take(k as int + 1),
                        );
                    }
                    len += 1;
                } else {
                    proof {
                        lemma_advance(model, labels, i as int, k as int, node_id as int);
                    }
                }
                node_id = next_id;
                k += 1;
            }
            assert(needle@.take(k as int) =~= needle@);
            if nodes[node_id as usize].value.is_some() {
                proof {
                    lemma_repeat(model, labels, i as int, node_id as int);
                    lemma_outcome_duplicate(model, labels, i as int, node_capacity as int);
                }
                return Err(TrieError::DuplicateNeedle);
            }
            nodes[node_id as usize].value = Some(unit);
            proof {
                lemma_node_of(model, node_id as int);
                lemma_finish(model, labels, i as int, node_id as int);
                model = model.with_value(node_id as int, unit);
            }
            i += 1;
        }
        proof {
            lemma_outcome_ok(model, labels, node_capacity as int);
        }
        Ok(Trie { nodes, len, alphabet, needles: Ghost(labels), model: Ghost(model) })
    }

    /// Finds the longest label that `haystack` starts with, and returns its
    /// value and its length.
    #[inline(always)]
    pub fn find(&self, haystack: &[u8]) -> (r: Option<(V, usize)>)
        ensures
            is_longest_match(self.needles(), haystack@, r),
    {
        proof {
            use_type_invariant(self);
        }
        let ghost labels = self.needles@;
        let ghost m = self.model@;
        let ghost h = haystack@;
        let mut node_id = Self::ROOT_ID;
        let mut found: Option<(u8, usize)> = if self.nodes[node_id as usize].value.is_some() {
            Some((node_id, 0))
        } else {
            None
        };
        assert(h.take(0) =~= Seq::empty());
        assert(m.paths[1] =~= Seq::empty());
        proof {
            lemma_node_value(m, labels, 1);
        }
        let mut i: usize = 0;
        let mut failed = false;
        while i < haystack.len()
            invariant
                i <= h.len(),
                h == haystack@,
                labels == self.needles@,
                m == self.model@,
                self.inv(),
                m.is_node(node_id as int),
                m.paths[node_id as int] == h.take(i as int),
                match found {
                    Some((id, offset)) => {
                        &&& offset <= i
                        &&& m.is_node(id as int)
                        &&& m.paths[id as int] == h.take(offset as int)
                        &&& m.values[id as int] is Some
                        &&& forall|j: int|
                            0 <= j < labels.len() && (#[trigger] labels[j]).0.is_prefix_of(h)
                                && labels[j].0.len() <= i ==> labels[j].0.len() <= offset
                    },
                    None => forall|j: int|
                        0 <= j < labels.len() && (#[trigger] labels[j]).0.is_prefix_of(h)
                            ==> labels[j].0.len() > i,
                },
            ensures
                i <= h.len(),
                match found {
                    Some((id, offset)) => {
                        &&& offset <= h.len()
                        &&& m.is_node(id as int)
                        &&& m.paths[id as int] == h.take(offset as int)
                        &&& m.values[id as int] is Some
                        &&& forall|j: int|
                            0 <= j < labels.len() && (#[trigger] labels[j]).0.is_prefix_of(h)
                                ==> labels[j].0.len() <= offset
                    },
                    None => forall|j: int|
                        0 <= j < labels.len() ==> !(#[trigger] labels[j]).0.is_prefix_of(h),
                },
            decreases h.len() - i,
        {
            let ghost before = node_id as int;
            let next_id = self.next(node_id, haystack[i]);
            if next_id == Self::FAIL_ID {
                proof {
                    lemma_no_edge(m, labels, labels.len() as int, 0, before, h[i as int]);
                    assert(h.take(i as int).push(h[i as int]) =~= h.take(i as int + 1));
                    assert forall|j: int|
                        0 <= j < labels.len() && (#[trigger] labels[j]).0.is_prefix_of(
                            h,
                        ) implies labels[j].0.len() <= i by {
                        if labels[j].0.len() > i {
                            lemma_label_covered(labels, j, i as int + 1);
                            assert(labels[j].0.take(i as int + 1) =~= h.take(i as int + 1));
                        }
                    }
                }
                break ;
            }
            proof {
                lemma_follow(m, labels, labels.len() as int, 0, before, h[i as int]);
                assert(h.take(i as int).push(h[i as int]) =~= h.take(i as int + 1));
                lemma_node_value(m, labels, next_id as int);
            }
            node_id = next_id;
            if self.nodes[node_id as usize].value.is_some() {
                found = Some((node_id, i + 1));
            } else {
                proof {
                    assert forall|j: int|
                        0 <= j < labels.len() && (#[trigger] labels[j]).0.is_prefix_of(h)
                            implies labels[j].0.len() != i + 1 by {
                        if labels[j].0.len() == i + 1 {
                            assert(labels[j].0 =~= h.take(i as int + 1));
                        }
                    }
                }
            }
            i += 1;
        }
        match found {
            Some((id, offset)) => {
                let value = self.nodes[id as usize].value.unwrap();
                proof {
                    lemma_node_value(m, labels, id as int);
                }
                Some((value, offset))
            },
            None => None,
        }
    }

    /// The node that `byte` leads to from the node `current_id`.
    #[inline(always)]
    fn next(&self, current_id: u8, byte: u8) -> (id: u8)
        requires
            self.model@.is_node(current_id as int),
        ensures
            id == self.model@.edges[current_id as int][class_of(self.needles@, byte) as int],
    {
        proof {
            use_type_invariant(self);
            lemma_class_in_range(self.needles@, byte);
        }
        let equiv_id = self.alphabet.equiv_id(byte);
        self.nodes[current_id as usize].transitions[equiv_id as usize]
    }
}

} // verus!
