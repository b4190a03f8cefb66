//! A trie in one flat table of transitions, whose nodes are numbered so that
//! the accepting ones come first. Its search walks the whole input and
//! accepts if it ends in an accepting node: it looks for a label that is all
//! of its input.

use vstd::prelude::*;
use crate::alphabet::class_count;
use crate::alphabet::lemma_class_in_range;
use crate::alphabet::TrieAlphabet;
use crate::matching::is_exact_match;
use crate::matching::no_repeats;
use crate::model::covered;
use crate::model::grown;
use crate::model::lemma_advance;
use crate::model::lemma_extend;
use crate::model::lemma_finish;
use crate::model::lemma_follow;
use crate::model::lemma_grown;
use crate::model::lemma_no_edge;
use crate::model::lemma_node_of;
use crate::model::lemma_node_value;
use crate::model::lemma_repeat;
use crate::model::lemma_root_only;
use crate::model::lemma_uncovered_grows;
use crate::model::root_only;
use crate::model::TrieModel;
pub use crate::needles::TrieNeedles;
use crate::outcome::build_error;
use crate::outcome::lemma_outcome_capacity;
use crate::outcome::lemma_outcome_duplicate;
use crate::outcome::lemma_outcome_no_room;
use crate::outcome::lemma_outcome_ok;
pub use crate::outcome::TrieError;
use crate::reorder::accepting_below;
use crate::reorder::former_index;
use crate::reorder::last_accepting;
use crate::reorder::last_match;
use crate::reorder::lemma_accepting_below;
use crate::reorder::lemma_former_index;
use crate::reorder::lemma_reordered;
use crate::reorder::lemma_reordered_index_onto;
use crate::reorder::lemma_reordered_index_range;
use crate::reorder::reordered;
use crate::reorder::reordered_index;
use crate::reorder::trie_of;
use crate::slots::lemma_row_order;
use crate::slots::lemma_rows_fit;
use crate::slots::lemma_slot_bounds;
use crate::slots::lemma_slot_of;
use crate::slots::lemma_slot_parts;
use crate::slots::lemma_slot_split;
use crate::slots::slot;

verus! {

/// The most transition slots that a trie can hold: node identifiers are
/// 16-bit numbers, and the identifier of a node is the slot of its first
/// transition.
pub const MAX_TRANSITION_CAPACITY: usize = 65535;

/// The transition table of a trie: row `n` holds, for each class, the
/// identifier of the node that the class leads to from node `n`. The slots
/// after the last node hold 0.
pub open spec fn transition_table<V>(m: TrieModel<V>, classes: int, capacity: int) -> Seq<u16> {
    Seq::new(
        capacity as nat,
        |s: int|
            if s < m.len() * classes {
                (m.edges[s / classes][s % classes] * classes) as u16
            } else {
                0u16
            },
    )
}

/// The table of match values of a trie: the first slot of the row of each
/// accepting node holds the node's value, and every other slot `default`.
pub open spec fn match_table<V>(m: TrieModel<V>, classes: int, capacity: int, default: V) -> Seq<V> {
    Seq::new(
        capacity as nat,
        |s: int|
            if s % classes == 0 && 1 <= s / classes < m.len() && m.values[s / classes] is Some {
                m.values[s / classes]->0
            } else {
                default
            },
    )
}

/// A trie as it grows: its nodes are still numbered in the order in which
/// they were made.
struct Growth<V> {
    transitions: Vec<u16>,
    matches: Vec<Option<V>>,
    node_len: usize,
    model: Ghost<TrieModel<V>>,
}

/// Whether the tables of a growing trie hold the trie `m`.
spec fn grows<V>(
    transitions: Seq<u16>,
    matches: Seq<Option<V>>,
    node_len: int,
    classes: int,
    m: TrieModel<V>,
) -> bool {
    &&& m.root == 1
    &&& m.len() == node_len
    &&& 2 <= node_len
    &&& 1 <= classes <= 256
    &&& node_len * classes <= transitions.len() == matches.len() <= MAX_TRANSITION_CAPACITY
    &&& forall|n: int, c: int|
        0 <= n < node_len && 0 <= c < classes ==> #[trigger] transitions[slot(n, c, classes)]
            == m.edges[n][c] * classes
    &&& forall|n: int| 0 <= n < node_len ==> #[trigger] matches[slot(n, 0, classes)] == m.values[n]
    &&& forall|s: int| node_len * classes <= s < transitions.len() ==> #[trigger] transitions[s] == 0
    &&& forall|s: int| node_len * classes <= s < matches.len() ==> (#[trigger] matches[s]) is None
}

/// A trie over a compressed alphabet, searched for the label that is all of
/// its input.
pub struct Trie<V> {
    transitions: Vec<u16>,
    matches: Vec<V>,
    alphabet: TrieAlphabet,
    node_len: usize,
    max_match_node_id: u16,
    root_node_id: u16,
    needles: Ghost<Seq<(Seq<u8>, V)>>,
    default: Ghost<V>,
}

impl<V> Trie<V> {
    /// The tables are those of the trie of the needles over their alphabet,
    /// and the accepting nodes are those up to the last match.
    #[verifier::type_invariant]
    spec fn inv(self) -> bool {
        let m = trie_of(self.needles@);
        let classes = class_count(self.needles@) as int;
        &&& self.alphabet.is_alphabet_of(self.needles@)
        &&& m.is_trie_of(self.needles@)
        &&& m.len() == self.node_len
        &&& m.len() * classes <= self.transitions@.len() <= MAX_TRANSITION_CAPACITY
        &&& self.transitions@ == transition_table(m, classes, self.transitions@.len() as int)
        &&& self.matches@ == match_table(m, classes, self.transitions@.len() as int, self.default@)
        &&& self.root_node_id == m.root * classes
        &&& self.max_match_node_id == last_match(self.needles@) * classes
        &&& 0 <= last_match(self.needles@) < m.len()
        &&& forall|n: int|
            m.is_node(n) ==> ((#[trigger] m.values[n]) is Some <==> n <= last_match(self.needles@))
    }

    /// The labels that the trie was built from, with their values.
    pub closed spec fn needles(&self) -> Seq<(Seq<u8>, V)> {
        self.needles@
    }

    /// The table of transitions.
    pub closed spec fn transitions(&self) -> Seq<u16> {
        self.transitions@
    }

    /// The table of match values.
    pub closed spec fn matches(&self) -> Seq<V> {
        self.matches@
    }

    /// The identifier of the node at which every search starts.
    pub closed spec fn root_node_id(&self) -> u16 {
        self.root_node_id
    }

    /// The greatest identifier of an accepting node, or 0 if no node accepts.
    pub closed spec fn max_match_node_id(&self) -> u16 {
        self.max_match_node_id
    }

    /// Whether the tables are those of the trie of `labels`, laid out in
    /// `capacity` slots, with `default` wherever no match value belongs.
    pub open spec fn is_table_of(&self, labels: Seq<(Seq<u8>, V)>, capacity: int, default: V) -> bool {
        let m = trie_of(labels);
        let classes = class_count(labels) as int;
        &&& self.transitions() == transition_table(m, classes, capacity)
        &&& self.matches() == match_table(m, classes, capacity, default)
        &&& self.root_node_id() == m.root * classes
        &&& self.max_match_node_id() == last_match(labels) * classes
    }
}

/// Determinism: two tries built of the same labels, with the same capacity
/// and the same default, have the same table of transitions, the same table
/// of match values and the same root.
pub proof fn lemma_build_deterministic<V>(
    first: Trie<V>,
    second: Trie<V>,
    labels: Seq<(Seq<u8>, V)>,
    capacity: int,
    default: V,
)
    requires
        first.is_table_of(labels, capacity, default),
        second.is_table_of(labels, capacity, default),
    ensures
        first.transitions() == second.transitions(),
        first.matches() == second.matches(),
        first.root_node_id() == second.root_node_id(),
        first.max_match_node_id() == second.max_match_node_id(),
{
}

/// In the trie of labels that spell different byte strings the accepting
/// nodes come first: a node accepts if and only if its number is at most
/// that of the last accepting node.
pub proof fn lemma_accepting_first<V>(labels: Seq<(Seq<u8>, V)>, n: int)
    requires
        no_repeats(labels, labels.len() as int),
        trie_of(labels).is_node(n),
    ensures
        trie_of(labels).is_trie_of(labels),
        trie_of(labels).values[n] is Some <==> n <= last_match(labels),
        0 <= last_match(labels) < trie_of(labels).len(),
{
    lemma_grown(labels, labels.len() as int, 0);
    lemma_reordered(grown(labels, labels.len() as int, 0), labels);
}

impl<V: Copy> Trie<V> {
    /// The node that stands for failure.
    const FAIL_ID: u16 = 0;

    /// The table of transitions.
    pub fn transition_slots(&self) -> (slots: &[u16])
        ensures
            slots@ == self.transitions(),
    {
        self.transitions.as_slice()
    }

    /// The table of match values.
    pub fn match_slots(&self) -> (slots: &[V])
        ensures
            slots@ == self.matches(),
    {
        self.matches.as_slice()
    }

    /// The identifier of the node at which every search starts.
    pub fn root_id(&self) -> (id: u16)
        ensures
            id == self.root_node_id(),
    {
        self.root_node_id
    }

    /// The greatest identifier of an accepting node, or 0 if no node accepts.
    pub fn max_match_id(&self) -> (id: u16)
        ensures
            id == self.max_match_node_id(),
    {
        self.max_match_node_id
    }

    /// Builds the trie of the needles in tables of `transition_capacity`
    /// slots: room for as many nodes as there are rows of one slot per
    /// equivalence class, the root and the node that stands for failure among
    /// them. The slots of the table of match values that hold no match value
    /// hold `default`.
    pub fn new(needles: &TrieNeedles<V>, transition_capacity: usize, default: V) -> (r: Result<
        Trie<V>,
        TrieError,
    >)
        ensures
            match r {
                Ok(trie) => {
                    &&& trie.needles() == needles@
                    &&& transition_capacity <= MAX_TRANSITION_CAPACITY
                    &&& build_error(
                        needles@,
                        transition_capacity as int / class_count(needles@) as int,
                    ) is None
                    &&& trie.is_table_of(needles@, transition_capacity as int, default)
                },
                Err(e) => if transition_capacity > MAX_TRANSITION_CAPACITY {
                    e == TrieError::CapacityExceeded
                } else {
                    build_error(needles@, transition_capacity as int / class_count(needles@) as int)
                        == Some(e)
                },
            },
    {
        let ghost labels = needles@;
        let alphabet = needles.alphabet();
        let classes = alphabet.len();
        proof {
            lemma_class_in_range(labels, 0);
        }
        if transition_capacity > MAX_TRANSITION_CAPACITY {
            return Err(TrieError::CapacityExceeded);
        }
        if transition_capacity / classes < 2 {
            proof {
                lemma_outcome_no_room(labels, transition_capacity as int / classes as int);
            }
            return Err(TrieError::CapacityExceeded);
        }
        // The trie grows with its nodes numbered as they are made.
        let growth = match Self::grow(needles, &alphabet, transition_capacity) {
            Ok(growth) => growth,
            Err(e) => {
                return Err(e);
            },
        };
        let ghost raw = growth.model@;
        let ghost width = classes as int;
        let ghost len = growth.node_len as int;
        let mut transitions: Vec<u16> = vec![Self::FAIL_ID; transition_capacity];
        let mut old_to_new: Vec<u16> = vec![Self::FAIL_ID; transition_capacity];
        let mut matches: Vec<V> = Vec::new();
        while matches.len() < transition_capacity
            invariant
                matches.len() <= transition_capacity,
                forall|s: int| 0 <= s < matches.len() ==> #[trigger] matches[s] == default,
            decreases transition_capacity - matches.len(),
        {
            matches.push(default);
        }
        proof {
            assert forall|n: int| 0 <= n < len implies #[trigger] old_to_new[slot(n, 0, width)]
                == 0 by {
                lemma_slot_bounds(n, 0, width, len);
            }
            lemma_reordered(raw, labels);
        }

        // The nodes get their rows, those that accept first: after that one
        // comparison with the greatest accepting identifier tells a search
        // whether a node accepts.
        let accepted_len = Self::place(
            &growth,
            classes,
            true,
            1,
            &mut transitions,
            &mut matches,
            &mut old_to_new,
            Ghost(default),
        );
        proof {
            lemma_slot_bounds(accepted_len as int - 1, 0, width, len);
        }
        let max_match_node_id = ((accepted_len - 1) * classes) as u16;
        let node_len = Self::place(
            &growth,
            classes,
            false,
            accepted_len,
            &mut transitions,
            &mut matches,
            &mut old_to_new,
            Ghost(default),
        );

        // The transitions still hold the identifiers that the nodes had
        // before.
        let ghost placed_transitions = transitions@;
        let ghost table = transition_table(reordered(raw), width, transition_capacity as int);
        let mut i: usize = 0;
        while i < transitions.len()
            invariant
                i <= transitions.len(),
                transitions.len() == transition_capacity,
                growth.transitions@.len() == transition_capacity,
                width == classes,
                len == growth.node_len,
                raw == growth.model@,
                raw.is_trie_of(labels),
                width == class_count(labels),
                grows(growth.transitions@, growth.matches@, len, width, raw),
                placed(
                    &growth,
                    width,
                    len,
                    placed_transitions,
                    matches@,
                    old_to_new@,
                    default,
                ),
                table == transition_table(reordered(raw), width, transition_capacity as int),
                forall|s: int| 0 <= s < i ==> #[trigger] transitions[s] == table[s],
                forall|s: int|
                    i <= s < transitions.len() ==> #[trigger] transitions[s] == placed_transitions[s],
            decreases transitions.len() - i,
        {
            proof {
                lemma_remapped(
                    &growth,
                    labels,
                    placed_transitions,
                    matches@,
                    old_to_new@,
                    default,
                    i as int,
                );
            }
            transitions[i] = old_to_new[transitions[i] as usize];
            i += 1;
        }
        proof {
            lemma_slot_bounds(1, 0, width, len);
            lemma_reordered_index_range(raw.values, 1);
        }
        let root_node_id = old_to_new[classes];
        proof {
            let m = trie_of(labels);
            assert(m == reordered(raw));
            assert(last_match(labels) == last_accepting(raw.values));
            assert(m.is_trie_of(labels));
            assert(m.len() == node_len);
            assert(transitions@ =~= table);
            assert(matches@ =~= match_table(m, width, transition_capacity as int, default));
            assert(classes == slot(1, 0, width));
            assert(root_node_id == reordered_index(raw.values, 1) * width);
            assert(root_node_id == m.root * width);
            assert(max_match_node_id == last_match(labels) * width);
            assert(0 <= last_match(labels) < m.len());
            assert forall|n: int| m.is_node(n) implies ((#[trigger] m.values[n]) is Some <==> n
                <= last_match(labels)) by {}
        }
        Ok(
            Trie {
                transitions,
                matches,
                alphabet,
                node_len,
                max_match_node_id,
                root_node_id,
                needles: Ghost(labels),
                default: Ghost(default),
            },
        )
    }

    /// Looks for the label that is all of `haystack`, and returns its value.
    #[inline(always)]
    pub fn find(&self, haystack: &[u8]) -> (r: Option<V>)
        ensures
            is_exact_match(self.needles(), haystack@, r),
    {
        proof {
            use_type_invariant(self);
        }
        let ghost labels = self.needles@;
        let ghost m = trie_of(labels);
        let ghost h = haystack@;
        let ghost width = class_count(labels) as int;
        let ghost done = labels.len() as int;
        let mut node_id = self.root_node_id;
        let ghost mut node = m.root;
        assert(h.take(0) =~= Seq::empty());
        assert(m.paths[m.root] =~= Seq::empty());
        let mut i: usize = 0;
        while i < haystack.len()
            invariant
                i <= h.len(),
                h == haystack@,
                labels == self.needles@,
                m == trie_of(labels),
                width == class_count(labels),
                done == labels.len(),
                self.inv(),
                0 <= node < m.len(),
                node_id == node * width,
                node != 0 ==> m.paths[node] == h.take(i as int),
                node == 0 ==> !covered(labels, done, 0, h.take(i as int)),
            decreases h.len() - i,
        {
            let equiv_id = self.alphabet.equiv_id(haystack[i]);
            proof {
                let c = equiv_id as int;
                lemma_class_in_range(labels, h[i as int]);
                lemma_slot_bounds(node, c, width, m.len());
                lemma_slot_of(node, c, width);
                assert(h.take(i as int).push(h[i as int]) =~= h.take(i as int + 1));
                let next = m.edges[node][c];
                if node == 0 {
                    lemma_uncovered_grows(labels, done, 0, h.take(i as int), h[i as int]);
                } else if next == 0 {
                    lemma_no_edge(m, labels, done, 0, node, h[i as int]);
                } else {
                    lemma_follow(m, labels, done, 0, node, h[i as int]);
                }
                assert(0 <= next < m.len());
                lemma_slot_bounds(next, 0, width, m.len());
                node = next;
            }
            node_id = self.transitions[node_id as usize + equiv_id as usize];
            i += 1;
        }
        assert(h.take(i as int) =~= h);
        proof {
            lemma_row_order(node, last_match(labels), width);
            lemma_row_order(0, node, width);
            lemma_slot_bounds(node, 0, width, m.len());
            lemma_slot_of(node, 0, width);
        }
        if node_id <= self.max_match_node_id && node_id != Self::FAIL_ID {
            proof {
                lemma_node_value(m, labels, node);
            }
            Some(self.matches[node_id as usize])
        } else {
            proof {
                if node != 0 {
                    lemma_node_value(m, labels, node);
                } else {
                    assert forall|j: int| 0 <= j < labels.len() implies (#[trigger] labels[j]).0
                        != h by {
                        if labels[j].0 == h {
                            assert(h.is_prefix_of(labels[j].0));
                        }
                    }
                }
            }
            None
        }
    }

    /// Grows the trie of the needles label by label, in tables of
    /// `transition_capacity` slots.
    fn grow(needles: &TrieNeedles<V>, alphabet: &TrieAlphabet, transition_capacity: usize) -> (r:
        Result<Growth<V>, TrieError>)
        requires
            alphabet.is_alphabet_of(needles@),
            transition_capacity <= MAX_TRANSITION_CAPACITY,
            transition_capacity as int / class_count(needles@) as int >= 2,
        ensures
            match r {
                Ok(g) => {
                    &&& g.model@ == grown(needles@, needles@.len() as int, 0)
                    &&& g.model@.is_trie_of(needles@)
                    &&& g.transitions@.len() == transition_capacity
                    &&& grows(
                        g.transitions@,
                        g.matches@,
                        g.node_len as int,
                        class_count(needles@) as int,
                        g.model@,
                    )
                    &&& build_error(
                        needles@,
                        transition_capacity as int / class_count(needles@) as int,
                    ) is None
                },
                Err(e) => build_error(
                    needles@,
                    transition_capacity as int / class_count(needles@) as int,
                ) == Some(e),
            },
    {
        let ghost labels = needles@;
        let classes = alphabet.len();
        proof {
            lemma_class_in_range(labels, 0);
            lemma_rows_fit(transition_capacity as int, classes as int);
        }
        let node_capacity = transition_capacity / classes;
        let mut transitions: Vec<u16> = vec![Self::FAIL_ID; transition_capacity];
        let mut matches: Vec<Option<V>> = Vec::new();
        while matches.len() < transition_capacity
            invariant
                matches.len() <= transition_capacity,
                forall|s: int| 0 <= s < matches.len() ==> (#[trigger] matches[s]) is None,
            decreases transition_capacity - matches.len(),
        {
            matches.push(None);
        }
        let mut node_len: usize = 2;
        let ghost mut model = root_only::<V>(classes as int);
        proof {
            lemma_root_only(labels);
            assert forall|n: int, c: int| 0 <= n < 2 && 0 <= c < classes implies #[trigger] transitions[slot(
                n,
                c,
                classes as int,
            )] == model.edges[n][c] * classes by {
                lemma_slot_bounds(n, c, classes as int, node_capacity as int);
                assert(model.edges[n][c] == 0);
                assert(0 <= slot(n, c, classes as int) < transitions.len());
                assert(transitions[slot(n, c, classes as int)] == 0);
            }
            assert forall|n: int| 0 <= n < 2 implies #[trigger] matches[slot(n, 0, classes as int)]
                == model.values[n] by {
                lemma_slot_bounds(n, 0, classes as int, node_capacity as int);
            }
            lemma_slot_bounds(1, 0, classes as int, node_capacity as int);
        }
        let root_node_id: u16 = classes as u16;

        let mut i: usize = 0;
        while i < needles.len()
            invariant
                labels == needles@,
                alphabet.is_alphabet_of(labels),
                classes == class_count(labels),
                node_capacity == transition_capacity / classes,
                node_capacity as int * classes as int <= transition_capacity,
                root_node_id == classes,
                transitions.len() == transition_capacity,
                node_len <= node_capacity,
                i <= labels.len(),
                model.wf(labels, i as int, 0),
                model == grown(labels, i as int, 0),
                grows(transitions@, matches@, node_len as int, classes as int, model),
            decreases labels.len() - i,
        {
            let needle = needles.label(i);
            let unit = needles.value(i);
            let mut node_id: u16 = root_node_id;
            let ghost mut node: int = 1;
            let mut k: usize = 0;
            assert(labels[i as int].0.take(0) =~= Seq::empty());
            assert(model.paths[1] =~= Seq::empty());
            while k < needle.len()
                invariant
                    labels == needles@,
                    alphabet.is_alphabet_of(labels),
                    classes == class_count(labels),
                    node_capacity == transition_capacity / classes,
                    node_capacity as int * classes as int <= transition_capacity,
                    transitions.len() == transition_capacity,
                    node_len <= node_capacity,
                    i < labels.len(),
                    needle@ == labels[i as int].0,
                    k <= needle@.len(),
                    model.wf(labels, i as int, k as int),
                    model == grown(labels, i as int, k as int),
                    grows(transitions@, matches@, node_len as int, classes as int, model),
                    model.is_node(node),
                    node_id == node * classes,
                    model.paths[node] == needle@.take(k as int),
                decreases needle@.len() - k,
            {
                let byte = needle[k];
                let equiv_id = alphabet.equiv_id(byte);
                proof {
                    lemma_class_in_range(labels, byte);
                    lemma_node_of(model, node);
                    lemma_slot_bounds(node, equiv_id as int, classes as int, node_len as int);
                    lemma_row_order(model.edges[node][equiv_id as int], 0, classes as int);
                }
                let here = node_id as usize + equiv_id as usize;
                assert(here == slot(node, equiv_id as int, classes as int));
                let mut next_id = transitions[here];
                if next_id == Self::FAIL_ID {
                    if node_len >= node_capacity {
                        proof {
                            lemma_outcome_capacity(model, labels, i as int, k as int, node);
                        }
                        return Err(TrieError::CapacityExceeded);
                    }
                    proof {
                        lemma_slot_bounds(node_len as int, 0, classes as int, node_capacity as int);
                    }
                    next_id = (node_len * classes) as u16;
                    let ghost before = transitions@;
                    let ghost old_model = model;
                    transitions[here] = next_id;
                    proof {
                        lemma_extend(model, labels, i as int, k as int, node);
                        model = model.with_child(node, equiv_id as int, needle@.take(k as int + 1));
                        lemma_row_order(node_len as int + 1, node_capacity as int, classes as int);
                        lemma_slot_bounds(node_len as int, 0, classes as int, node_len as int + 1);
                        lemma_slot_of(node, equiv_id as int, classes as int);
                        assert forall|n: int, c: int|
                            0 <= n < node_len + 1 && 0 <= c < classes implies #[trigger] transitions[slot(
                            n,
                            c,
                            classes as int,
                        )] == model.edges[n][c] * classes by {
                            lemma_slot_bounds(n, c, classes as int, node_capacity as int);
                            lemma_slot_of(n, c, classes as int);
                            if n == node_len {
                                assert(before[slot(n, c, classes as int)] == 0);
                                assert(model.edges[n][c] == 0);
                            } else if n == node && c == equiv_id {
                                assert(model.edges[n][c] == node_len);
                            } else {
                                assert(slot(n, c, classes as int) != here);
                                assert(before[slot(n, c, classes as int)] == old_model.edges[n][c]
                                    * classes);
                                assert(model.edges[n][c] == old_model.edges[n][c]);
                            }
                        }
                        assert forall|n: int| 0 <= n < node_len + 1 implies #[trigger] matches[slot(
                            n,
                            0,
                            classes as int,
                        )] == model.values[n] by {
                            lemma_slot_bounds(n, 0, classes as int, node_capacity as int);
                        }
                        node = node_len as int;
                    }
                    node_len += 1;
                } else {
                    proof {
                        lemma_advance(model, labels, i as int, k as int, node);
                        node = model.edges[node][equiv_id as int];
                    }
                }
                node_id = next_id;
                k += 1;
            }
            assert(needle@.take(k as int) =~= needle@);
            proof {
                lemma_slot_bounds(node, 0, classes as int, node_len as int);
            }
            if matches[node_id as usize].is_some() {
                proof {
                    lemma_repeat(model, labels, i as int, node);
                    lemma_outcome_duplicate(model, labels, i as int, node_capacity as int);
                }
                return Err(TrieError::DuplicateNeedle);
            }
            matches[node_id as usize] = Some(unit);
            proof {
                lemma_node_of(model, node);
                lemma_finish(model, labels, i as int, node);
                let ghost old_model = model;
                model = model.with_value(node, unit);
                assert forall|n: int| 0 <= n < node_len implies #[trigger] matches[slot(
                    n,
                    0,
                    classes as int,
                )] == model.values[n] by {
                    lemma_slot_bounds(n, 0, classes as int, node_len as int);
                    lemma_row_order(n, node, classes as int);
                }
            }
            i += 1;
        }
        proof {
            lemma_outcome_ok(model, labels, node_capacity as int);
        }
        Ok(Growth { transitions, matches, node_len, model: Ghost(model) })
    }

    /// Gives the node `old_node_index` of the growing trie the next free row
    /// of the tables: copies its transitions and its match value there, and
    /// records in `old_to_new` where it went.
    fn place_node(
        growth: &Growth<V>,
        classes: usize,
        old_node_index: usize,
        new_node_index: usize,
        transitions: &mut Vec<u16>,
        matches: &mut Vec<V>,
        old_to_new: &mut Vec<u16>,
        Ghost(default): Ghost<V>,
    )
        requires
            growth.model@.shaped(classes as int),
            grows(
                growth.transitions@,
                growth.matches@,
                growth.node_len as int,
                classes as int,
                growth.model@,
            ),
            1 <= old_node_index < growth.node_len,
            new_node_index == reordered_index(growth.model@.values, old_node_index as int),
            placed(
                growth,
                classes as int,
                new_node_index as int,
                old(transitions)@,
                old(matches)@,
                old(old_to_new)@,
                default,
            ),
        ensures
            placed(
                growth,
                classes as int,
                new_node_index as int + 1,
                final(transitions)@,
                final(matches)@,
                final(old_to_new)@,
                default,
            ),
    {
        let ghost values = growth.model@.values;
        let ghost len = growth.node_len as int;
        let ghost width = classes as int;
        let ghost old = old_node_index as int;
        let ghost new = new_node_index as int;
        proof {
            lemma_reordered_index_range(values, old);
            lemma_former_index(values, old);
            lemma_slot_bounds(old, 0, width, len);
            lemma_slot_bounds(new, 0, width, len);
        }
        let old_node_id = old_node_index * classes;
        let new_node_id = new_node_index * classes;
        let ghost transitions_before = transitions@;
        let ghost matches_before = matches@;
        let ghost old_to_new_before = old_to_new@;
        old_to_new[old_node_id] = new_node_id as u16;
        let mut i: usize = 0;
        while i < classes
            invariant
                i <= classes,
                width == classes,
                transitions.len() == growth.transitions@.len(),
                new_node_id == new * width,
                old_node_id == old * width,
                new_node_id + width <= transitions.len(),
                old_node_id + width <= transitions.len(),
                forall|c: int|
                    0 <= c < i ==> #[trigger] transitions[new_node_id + c]
                        == growth.transitions@[old_node_id + c],
                forall|s: int|
                    0 <= s < transitions.len() && !(new_node_id <= s < new_node_id + width)
                        ==> #[trigger] transitions[s] == transitions_before[s],
            decreases classes - i,
        {
            transitions[new_node_id + i] = growth.transitions[old_node_id + i];
            i += 1;
        }
        match growth.matches[old_node_id] {
            Some(value) => {
                matches[new_node_id] = value;
            },
            None => {},
        }
        proof {
            assert forall|n: int| 0 <= n < len implies #[trigger] old_to_new[slot(n, 0, width)] == (if 1
                <= reordered_index(values, n) < new + 1 {
                reordered_index(values, n) * width
            } else {
                0
            }) by {
                lemma_slot_bounds(n, 0, width, len);
                lemma_row_order(n, old, width);
                if n != old {
                    assert(old_to_new[slot(n, 0, width)] == old_to_new_before[slot(n, 0, width)]);
                    if n >= 1 && reordered_index(values, n) == new {
                        crate::reorder::lemma_reordered_index_injective(values, n, old);
                    }
                }
            }
            assert forall|w: int, c: int| 1 <= w < new + 1 && 0 <= c < width implies #[trigger] transitions[slot(
                w,
                c,
                width,
            )] == growth.transitions@[slot(former_index(values, w), c, width)] by {
                lemma_slot_bounds(w, c, width, len);
                lemma_slot_of(w, c, width);
                if w == new {
                    assert(transitions[new_node_id + c] == growth.transitions@[old_node_id + c]);
                } else {
                    lemma_slot_bounds(w, c, width, new);
                    assert(transitions[slot(w, c, width)] == transitions_before[slot(w, c, width)]);
                }
            }
            assert forall|s: int|
                0 <= s < transitions.len() && (s < width || s >= (new + 1) * width) implies #[trigger] transitions[s]
                == 0 by {
                lemma_slot_bounds(new, 0, width, new + 1);
                lemma_row_order(1, new, width);
                assert(transitions[s] == transitions_before[s]);
            }
            assert forall|s: int| 0 <= s < matches.len() implies #[trigger] matches[s] == placed_match(
                values,
                width,
                new + 1,
                default,
                s,
            ) by {
                let here = new_node_id as int;
                lemma_slot_of(new, 0, width);
                assert(here == slot(new, 0, width));
                assert(here / width == new && here % width == 0);
                assert(former_index(values, new) == old);
                assert(growth.matches@[slot(old, 0, width)] == values[old]);
                assert(matches_before[s] == placed_match(values, width, new, default, s));
                if s == here {
                    if values[old] is Some {
                        assert(matches[s] == values[old]->0);
                    } else {
                        assert(matches[s] == matches_before[s]);
                        assert(matches_before[s] == default);
                    }
                } else {
                    assert(matches[s] == matches_before[s]);
                    if s % width == 0 && s / width == new {
                        lemma_slot_parts(s, width);
                        assert(s == slot(new, 0, width));
                    }
                    assert(placed_match(values, width, new + 1, default, s) == placed_match(
                        values,
                        width,
                        new,
                        default,
                        s,
                    ));
                }
            }
        }
    }

    /// Gives the nodes that accept, or those that do not, the free rows
    /// after the first `placed` rows of the tables, in the order of the
    /// nodes, and returns the number of rows then taken.
    fn place(
        growth: &Growth<V>,
        classes: usize,
        accepting: bool,
        placed_len: usize,
        transitions: &mut Vec<u16>,
        matches: &mut Vec<V>,
        old_to_new: &mut Vec<u16>,
        Ghost(default): Ghost<V>,
    ) -> (new_len: usize)
        requires
            growth.model@.shaped(classes as int),
            grows(
                growth.transitions@,
                growth.matches@,
                growth.node_len as int,
                classes as int,
                growth.model@,
            ),
            accepting ==> placed_len == 1,
            !accepting ==> placed_len == 1 + last_accepting(growth.model@.values),
            placed(
                growth,
                classes as int,
                placed_len as int,
                old(transitions)@,
                old(matches)@,
                old(old_to_new)@,
                default,
            ),
        ensures
            accepting ==> new_len == 1 + last_accepting(growth.model@.values),
            !accepting ==> new_len == growth.node_len,
            placed(
                growth,
                classes as int,
                new_len as int,
                final(transitions)@,
                final(matches)@,
                final(old_to_new)@,
                default,
            ),
    {
        let ghost values = growth.model@.values;
        let ghost len = growth.node_len as int;
        let mut old_node_index: usize = 1;
        let mut new_node_index: usize = placed_len;
        proof {
            lemma_accepting_below(values, 1, len);
        }
        while old_node_index < growth.node_len
            invariant
                growth.model@.shaped(classes as int),
                grows(
                    growth.transitions@,
                    growth.matches@,
                    growth.node_len as int,
                    classes as int,
                    growth.model@,
                ),
                values == growth.model@.values,
                len == growth.node_len,
                1 <= old_node_index <= len,
                accepting ==> new_node_index == 1 + accepting_below(values, old_node_index as int),
                !accepting ==> new_node_index == 1 + last_accepting(values) + (old_node_index - 1
                    - accepting_below(values, old_node_index as int)),
                placed(
                    growth,
                    classes as int,
                    new_node_index as int,
                    transitions@,
                    matches@,
                    old_to_new@,
                    default,
                ),
            decreases len - old_node_index,
        {
            proof {
                lemma_slot_bounds(old_node_index as int, 0, classes as int, len);
                lemma_accepting_below(values, old_node_index as int, len);
                lemma_accepting_below(values, 1, old_node_index as int);
            }
            let old_node_id = old_node_index * classes;
            assert(old_node_id == slot(old_node_index as int, 0, classes as int));
            if growth.matches[old_node_id].is_some() == accepting {
                Self::place_node(
                    growth,
                    classes,
                    old_node_index,
                    new_node_index,
                    transitions,
                    matches,
                    old_to_new,
                    Ghost(default),
                );
                new_node_index += 1;
            }
            old_node_index += 1;
        }
        new_node_index
    }
}

/// Once every node has its row, sending what a slot holds through
/// `old_to_new` gives what the slot holds in the table of the renumbered
/// trie.
proof fn lemma_remapped<V>(
    growth: &Growth<V>,
    labels: Seq<(Seq<u8>, V)>,
    transitions: Seq<u16>,
    matches: Seq<V>,
    old_to_new: Seq<u16>,
    default: V,
    s: int,
)
    requires
        growth.model@.is_trie_of(labels),
        grows(
            growth.transitions@,
            growth.matches@,
            growth.node_len as int,
            class_count(labels) as int,
            growth.model@,
        ),
        placed(
            growth,
            class_count(labels) as int,
            growth.node_len as int,
            transitions,
            matches,
            old_to_new,
            default,
        ),
        0 <= s < transitions.len(),
    ensures
        0 <= transitions[s] < old_to_new.len(),
        old_to_new[transitions[s] as int] == transition_table(
            reordered(growth.model@),
            class_count(labels) as int,
            transitions.len() as int,
        )[s],
{
    let m = growth.model@;
    let r = reordered(m);
    let width = class_count(labels) as int;
    let len = growth.node_len as int;
    let values = m.values;
    lemma_slot_bounds(0, 0, width, len);
    assert(old_to_new[slot(0, 0, width)] == 0);
    if s < len * width {
        lemma_slot_split(s, width, len);
        let w = s / width;
        let c = s % width;
        if w == 0 {
            assert(transitions[s] == 0);
            assert(r.edges[0][c] == 0);
        } else {
            lemma_reordered_index_onto(values, w);
            let old = former_index(values, w);
            lemma_slot_bounds(old, c, width, len);
            assert(transitions[slot(w, c, width)] == growth.transitions@[slot(old, c, width)]);
            let t = m.edges[old][c];
            assert(growth.transitions@[slot(old, c, width)] == t * width);
            assert(0 <= t < len);
            lemma_slot_bounds(t, 0, width, len);
            assert(old_to_new[slot(t, 0, width)] == (if 1 <= reordered_index(values, t) < len {
                reordered_index(values, t) * width
            } else {
                0
            }));
            if t >= 1 {
                lemma_reordered_index_range(values, t);
            }
            lemma_slot_bounds(reordered_index(values, t), 0, width, len);
            assert(r.edges[w][c] == reordered_index(values, t));
        }
    } else {
        assert(transitions[s] == 0);
    }
}

/// What slot `s` of the table of match values holds once `upto - 1` nodes
/// have their rows.
spec fn placed_match<V>(values: Seq<Option<V>>, classes: int, upto: int, default: V, s: int) -> V {
    if s % classes == 0 && 1 <= s / classes < upto && values[former_index(values, s / classes)] is Some {
        values[former_index(values, s / classes)]->0
    } else {
        default
    }
}

/// Whether the tables hold the rows of the `upto - 1` nodes that come first
/// in the new order, and nothing else yet.
spec fn placed<V>(
    growth: &Growth<V>,
    classes: int,
    upto: int,
    transitions: Seq<u16>,
    matches: Seq<V>,
    old_to_new: Seq<u16>,
    default: V,
) -> bool {
    let values = growth.model@.values;
    let len = growth.node_len as int;
    &&& transitions.len() == growth.transitions@.len()
    &&& matches.len() == growth.transitions@.len()
    &&& old_to_new.len() == growth.transitions@.len()
    &&& 1 <= upto <= len
    &&& forall|n: int|
        0 <= n < len ==> #[trigger] old_to_new[slot(n, 0, classes)] == (if 1 <= reordered_index(
            values,
            n,
        ) < upto {
            reordered_index(values, n) * classes
        } else {
            0
        })
    &&& forall|w: int, c: int|
        1 <= w < upto && 0 <= c < classes ==> #[trigger] transitions[slot(w, c, classes)]
            == growth.transitions@[slot(former_index(values, w), c, classes)]
    &&& forall|s: int|
        0 <= s < transitions.len() && (s < classes || s >= upto * classes) ==> #[trigger] transitions[s]
            == 0
    &&& forall|s: int|
        0 <= s < matches.len() ==> #[trigger] matches[s] == placed_match(
            values,
            classes,
            upto,
            default,
            s,
        )
}

} // verus!
