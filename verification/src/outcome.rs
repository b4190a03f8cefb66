//! When the construction of a trie fails, and why: the number of nodes that
//! a vocabulary calls for, and the first label that repeats an earlier one.

use vstd::prelude::*;
use vstd::set_lib::lemma_int_range;
use vstd::set_lib::lemma_len_subset;
use vstd::set_lib::lemma_map_size;
use vstd::set_lib::set_int_range;
use crate::alphabet::class_of;
use crate::matching::first_occurrence;
use crate::matching::no_repeats;
use crate::model::covered;
use crate::model::covered_set;
use crate::model::is_label_prefix;
use crate::model::lemma_no_edge;
use crate::model::nodes_needed;
use crate::model::prefix_set;
use crate::model::TrieModel;

verus! {

/// Why a trie could not be built.
#[derive(Clone, Copy, Debug, PartialEq, Eq, Structural)]
pub enum TrieError {
    /// A label spells the same bytes as an earlier one.
    DuplicateNeedle,
    /// The labels call for more nodes than there is room for.
    CapacityExceeded,
}

/// The number of leading labels that spell different byte strings: the index
/// of the first label that repeats an earlier one, or the number of labels if
/// none does.
pub open spec fn distinct_prefix_len<V>(labels: Seq<(Seq<u8>, V)>) -> int {
    choose|n: int| is_distinct_prefix_len(labels, n)
}

/// Whether the first `n` labels spell different byte strings and label `n`,
/// if there is one, repeats one of them.
pub open spec fn is_distinct_prefix_len<V>(labels: Seq<(Seq<u8>, V)>, n: int) -> bool {
    &&& 0 <= n <= labels.len()
    &&& no_repeats(labels, n)
    &&& n < labels.len() ==> !first_occurrence(labels, n)
}

/// What stands against a trie of `labels` with room for `node_capacity`
/// nodes, if anything does. The labels are taken in order: the error is that
/// of the first label that cannot be added.
pub open spec fn build_error<V>(labels: Seq<(Seq<u8>, V)>, node_capacity: int) -> Option<
    TrieError,
> {
    let d = distinct_prefix_len(labels);
    if nodes_needed(labels.take(d)) > node_capacity {
        Some(TrieError::CapacityExceeded)
    } else if d < labels.len() {
        Some(TrieError::DuplicateNeedle)
    } else {
        None
    }
}

/// The prefixes of one byte string.
pub open spec fn prefixes_of(s: Seq<u8>) -> Set<Seq<u8>> {
    Set::new(|p: Seq<u8>| p.is_prefix_of(s))
}

/// A byte string has finitely many prefixes.
pub proof fn lemma_prefixes_of_finite(s: Seq<u8>)
    ensures
        prefixes_of(s).finite(),
    decreases s.len(),
{
    if s.len() == 0 {
        assert(prefixes_of(s) =~= Set::empty().insert(s)) by {
            assert forall|p: Seq<u8>| prefixes_of(s).contains(p) implies p == s by {
                assert(p =~= s);
            }
            assert(s.is_prefix_of(s));
        }
    } else {
        lemma_prefixes_of_finite(s.drop_last());
        assert(prefixes_of(s) =~= prefixes_of(s.drop_last()).insert(s)) by {
            assert(s.is_prefix_of(s));
            assert forall|p: Seq<u8>| prefixes_of(s).contains(p) && p != s implies prefixes_of(
                s.drop_last(),
            ).contains(p) by {
                if p.len() == s.len() {
                    assert(p =~= s);
                }
                assert(p =~= s.drop_last().subrange(0, p.len() as int));
            }
            assert forall|p: Seq<u8>| prefixes_of(s.drop_last()).contains(p) implies prefixes_of(
                s,
            ).contains(p) by {
                assert(p =~= s.subrange(0, p.len() as int));
            }
        }
    }
}

/// A vocabulary has finitely many prefixes.
pub proof fn lemma_prefix_set_finite<V>(labels: Seq<(Seq<u8>, V)>)
    ensures
        prefix_set(labels).finite(),
        prefix_set(labels).len() >= 1,
    decreases labels.len(),
{
    let empty = Seq::<u8>::empty();
    if labels.len() == 0 {
        assert(prefix_set(labels) =~= Set::empty().insert(empty)) by {
            assert forall|p: Seq<u8>| prefix_set(labels).contains(p) implies p == empty by {
                assert(p =~= empty);
            }
            assert(is_label_prefix(labels, empty));
        }
    } else {
        let rest = labels.drop_last();
        let last = labels.last().0;
        lemma_prefix_set_finite(rest);
        lemma_prefixes_of_finite(last);
        assert(prefix_set(labels) =~= prefix_set(rest).union(prefixes_of(last))) by {
            assert forall|p: Seq<u8>| prefix_set(labels).contains(p) implies prefix_set(
                rest,
            ).contains(p) || prefixes_of(last).contains(p) by {
                if p.len() > 0 {
                    let j = choose|j: int|
                        0 <= j < labels.len() && p.is_prefix_of((#[trigger] labels[j]).0);
                    if j < rest.len() {
                        assert(p.is_prefix_of(rest[j].0));
                    }
                }
            }
            assert forall|p: Seq<u8>|
                prefix_set(rest).contains(p) || prefixes_of(last).contains(p) implies prefix_set(
                labels,
            ).contains(p) by {
                if p.len() > 0 {
                    if prefixes_of(last).contains(p) {
                        assert(p.is_prefix_of(labels[labels.len() - 1].0));
                    } else {
                        let j = choose|j: int|
                            0 <= j < rest.len() && p.is_prefix_of((#[trigger] rest[j]).0);
                        assert(p.is_prefix_of(labels[j].0));
                    }
                }
            }
        }
        assert(prefix_set(labels).contains(empty));
        if prefix_set(labels).len() == 0 {
            assert(prefix_set(labels) =~= Set::empty());
        }
    }
}

/// The prefixes of the first `n` labels are those that the trie covers once
/// it holds these labels.
pub proof fn lemma_prefix_set_take<V>(labels: Seq<(Seq<u8>, V)>, n: int)
    requires
        0 <= n <= labels.len(),
    ensures
        prefix_set(labels.take(n)) == covered_set(labels, n, 0),
{
    let part = labels.take(n);
    assert forall|p: Seq<u8>| is_label_prefix(part, p) == covered(labels, n, 0, p) by {
        if is_label_prefix(part, p) && p.len() > 0 {
            let j = choose|j: int| 0 <= j < part.len() && p.is_prefix_of((#[trigger] part[j]).0);
            assert(p.is_prefix_of(labels[j].0));
        }
        if covered(labels, n, 0, p) && p.len() > 0 {
            let j = choose|j: int|
                0 <= j < n && j < labels.len() && p.is_prefix_of((#[trigger] labels[j]).0);
            assert(p.is_prefix_of(part[j].0));
        }
    }
    assert(prefix_set(part) =~= covered_set(labels, n, 0));
}

/// More labels have at least as many prefixes.
pub proof fn lemma_covered_grows<V>(
    labels: Seq<(Seq<u8>, V)>,
    done: int,
    partial: int,
    later: int,
    p: Seq<u8>,
)
    requires
        covered(labels, done, partial, p),
        0 <= done < later <= labels.len(),
    ensures
        covered(labels, later, 0, p),
{
    if p.len() > 0 {
        if exists|j: int| 0 <= j < done && j < labels.len() && p.is_prefix_of((#[trigger] labels[j]).0) {
            let j = choose|j: int|
                0 <= j < done && j < labels.len() && p.is_prefix_of((#[trigger] labels[j]).0);
            assert(p.is_prefix_of(labels[j].0));
        } else {
            assert(p.is_prefix_of(labels[done].0));
        }
    }
}

/// A trie has one node for each prefix that it covers.
pub proof fn lemma_node_count<V>(
    m: TrieModel<V>,
    labels: Seq<(Seq<u8>, V)>,
    done: int,
    partial: int,
)
    requires
        m.wf(labels, done, partial),
    ensures
        covered_set(labels, done, partial).finite(),
        covered_set(labels, done, partial).len() == m.len() - 1,
{
    let nodes = set_int_range(1, m.len());
    let path = |n: int| m.paths[n];
    let target = covered_set(labels, done, partial);
    lemma_int_range(1, m.len());
    assert(nodes.map(path) =~= target) by {
        assert forall|p: Seq<u8>| nodes.map(path).contains(p) implies target.contains(p) by {
            let n = choose|n: int| nodes.contains(n) && p == path(n);
            assert(covered(labels, done, partial, m.paths[n]));
        }
        assert forall|p: Seq<u8>| target.contains(p) implies nodes.map(path).contains(p) by {
            assert(m.has_node(p));
            let n = choose|n: int| m.is_node(n) && #[trigger] m.paths[n] == p;
            assert(nodes.contains(n) && p == path(n));
        }
    }
    assert(vstd::relations::injective_on(path, nodes)) by {
        assert forall|a: int, b: int|
            nodes.contains(a) && nodes.contains(b) && #[trigger] path(a) == #[trigger] path(
                b,
            ) implies a == b by {
            assert(m.paths[a] == m.paths[b]);
        }
    }
    lemma_map_size(nodes, target, path);
}

/// Some number is the length of the longest repeat-free run of leading
/// labels.
pub proof fn lemma_distinct_prefix_len_exists<V>(labels: Seq<(Seq<u8>, V)>, n: int)
    requires
        0 <= n <= labels.len(),
        no_repeats(labels, n),
    ensures
        exists|d: int| is_distinct_prefix_len(labels, d),
    decreases labels.len() - n,
{
    if n == labels.len() || !first_occurrence(labels, n) {
        assert(is_distinct_prefix_len(labels, n));
    } else {
        lemma_distinct_prefix_len_exists(labels, n + 1);
    }
}

/// Only one number is the length of the longest repeat-free run of leading
/// labels.
pub proof fn lemma_distinct_prefix_len_is<V>(labels: Seq<(Seq<u8>, V)>, n: int)
    requires
        is_distinct_prefix_len(labels, n),
    ensures
        distinct_prefix_len(labels) == n,
{
    let d = distinct_prefix_len(labels);
    assert(is_distinct_prefix_len(labels, d));
    if d < n {
        let j = choose|j: int| 0 <= j < d && (#[trigger] labels[j]).0 == labels[d].0;
        assert(labels[j].0 != labels[d].0);
    } else if n < d {
        let j = choose|j: int| 0 <= j < n && (#[trigger] labels[j]).0 == labels[n].0;
        assert(labels[j].0 != labels[n].0);
    }
}

/// A repeat-free run of leading labels is no longer than the longest one.
pub proof fn lemma_distinct_prefix_len_least<V>(labels: Seq<(Seq<u8>, V)>, n: int)
    requires
        0 <= n <= labels.len(),
        no_repeats(labels, n),
    ensures
        n <= distinct_prefix_len(labels) <= labels.len(),
        is_distinct_prefix_len(labels, distinct_prefix_len(labels)),
{
    lemma_distinct_prefix_len_exists(labels, n);
    let d = distinct_prefix_len(labels);
    if d < n {
        let j = choose|j: int| 0 <= j < d && (#[trigger] labels[j]).0 == labels[d].0;
        assert(labels[j].0 != labels[d].0);
    }
}

/// Where a label needs a new node and the trie is full, the capacity is
/// exceeded.
pub proof fn lemma_outcome_capacity<V>(
    m: TrieModel<V>,
    labels: Seq<(Seq<u8>, V)>,
    i: int,
    k: int,
    n: int,
)
    requires
        m.wf(labels, i, k),
        0 <= i < labels.len(),
        0 <= k < labels[i].0.len(),
        m.is_node(n),
        m.paths[n] == labels[i].0.take(k),
        m.edges[n][class_of(labels, labels[i].0[k]) as int] == 0,
    ensures
        build_error(labels, m.len()) == Some(TrieError::CapacityExceeded),
{
    let p = labels[i].0.take(k + 1);
    lemma_no_edge(m, labels, i, k, n, labels[i].0[k]);
    assert(labels[i].0.take(k).push(labels[i].0[k]) =~= p);
    assert(p.is_prefix_of(labels[i].0));
    // label i repeats no earlier label, or the node would be there
    assert forall|j: int| 0 <= j < i implies (#[trigger] labels[j]).0 != labels[i].0 by {
        if labels[j].0 == labels[i].0 {
            assert(p.is_prefix_of(labels[j].0));
        }
    }
    assert(no_repeats(labels, i + 1));
    lemma_distinct_prefix_len_least(labels, i + 1);
    let d = distinct_prefix_len(labels);
    lemma_prefix_set_take(labels, d);
    lemma_prefix_set_finite(labels.take(d));
    lemma_node_count(m, labels, i, k);
    let before = covered_set(labels, i, k);
    let after = before.insert(p);
    assert(after.subset_of(covered_set(labels, d, 0))) by {
        assert forall|q: Seq<u8>| after.contains(q) implies covered(labels, d, 0, q) by {
            if q == p {
                assert(p.is_prefix_of(labels[i].0));
            } else {
                lemma_covered_grows(labels, i, k, d, q);
            }
        }
    }
    lemma_len_subset(after, covered_set(labels, d, 0));
}

/// Where the trie already accepts a label, the label is a duplicate.
pub proof fn lemma_outcome_duplicate<V>(
    m: TrieModel<V>,
    labels: Seq<(Seq<u8>, V)>,
    i: int,
    capacity: int,
)
    requires
        0 <= i < labels.len(),
        m.wf(labels, i, labels[i].0.len() as int),
        !first_occurrence(labels, i),
        m.len() <= capacity,
    ensures
        build_error(labels, capacity) == Some(TrieError::DuplicateNeedle),
{
    let full = labels[i].0.len() as int;
    lemma_distinct_prefix_len_is(labels, i);
    lemma_prefix_set_take(labels, i);
    lemma_node_count(m, labels, i, full);
    let j = choose|j: int| 0 <= j < i && (#[trigger] labels[j]).0 == labels[i].0;
    assert(covered_set(labels, i, full) =~= covered_set(labels, i, 0)) by {
        assert forall|p: Seq<u8>| covered(labels, i, full, p) implies covered(labels, i, 0, p) by {
            if p.is_prefix_of(labels[i].0) {
                assert(p.is_prefix_of(labels[j].0));
            }
        }
    }
}

/// Where every label got its node, nothing stands against the trie.
pub proof fn lemma_outcome_ok<V>(m: TrieModel<V>, labels: Seq<(Seq<u8>, V)>, capacity: int)
    requires
        m.is_trie_of(labels),
        m.len() <= capacity,
    ensures
        build_error(labels, capacity) is None,
        nodes_needed(labels) == m.len(),
        no_repeats(labels, labels.len() as int),
{
    lemma_distinct_prefix_len_is(labels, labels.len() as int);
    lemma_prefix_set_take(labels, labels.len() as int);
    lemma_node_count(m, labels, labels.len() as int, 0);
    assert(labels.take(labels.len() as int) =~= labels);
}

/// With room for fewer than two nodes no trie can be built.
pub proof fn lemma_outcome_no_room<V>(labels: Seq<(Seq<u8>, V)>, capacity: int)
    requires
        capacity < 2,
    ensures
        build_error(labels, capacity) == Some(TrieError::CapacityExceeded),
{
    lemma_prefix_set_finite(labels.take(distinct_prefix_len(labels)));
}

/// The labels that a trie was built of spell different byte strings.
pub proof fn lemma_built_distinct<V>(labels: Seq<(Seq<u8>, V)>, capacity: int)
    requires
        build_error(labels, capacity) is None,
    ensures
        no_repeats(labels, labels.len() as int),
        nodes_needed(labels) <= capacity,
{
    lemma_distinct_prefix_len_least(labels, 0);
    assert(labels.take(labels.len() as int) =~= labels);
}

/// More labels need at least as many nodes.
pub proof fn lemma_nodes_needed_grows<V>(labels: Seq<(Seq<u8>, V)>, n: int)
    requires
        0 <= n <= labels.len(),
    ensures
        2 <= nodes_needed(labels.take(n)) <= nodes_needed(labels),
{
    lemma_prefix_set_finite(labels);
    lemma_prefix_set_finite(labels.take(n));
    lemma_prefix_set_take(labels, n);
    lemma_prefix_set_take(labels, labels.len() as int);
    assert(labels.take(labels.len() as int) =~= labels);
    assert(covered_set(labels, n, 0).subset_of(covered_set(labels, labels.len() as int, 0))) by {
        assert forall|p: Seq<u8>| covered(labels, n, 0, p) implies covered(
            labels,
            labels.len() as int,
            0,
            p,
        ) by {
            if n < labels.len() {
                lemma_covered_grows(labels, n, 0, labels.len() as int, p);
            }
        }
    }
    lemma_len_subset(covered_set(labels, n, 0), covered_set(labels, labels.len() as int, 0));
}

/// Duplicate rejection: of labels among which one spells the same bytes as
/// another no trie is built, whatever the capacity; and where the capacity
/// is enough for all the labels, the error is that of the duplicate.
pub proof fn lemma_duplicate_rejected<V>(labels: Seq<(Seq<u8>, V)>, capacity: int, i: int, j: int)
    requires
        0 <= i < j < labels.len(),
        labels[i].0 == labels[j].0,
    ensures
        build_error(labels, capacity) is Some,
        nodes_needed(labels) <= capacity ==> build_error(labels, capacity) == Some(
            TrieError::DuplicateNeedle,
        ),
{
    lemma_distinct_prefix_len_least(labels, 0);
    let d = distinct_prefix_len(labels);
    if d == labels.len() {
        assert(labels[i].0 != labels[j].0);
    }
    lemma_nodes_needed_grows(labels, d);
}

/// Capacity exhaustion: of labels that spell different byte strings and need
/// more nodes than there is room for, no trie is built, and the error is
/// that of the capacity.
pub proof fn lemma_capacity_exhausted<V>(labels: Seq<(Seq<u8>, V)>, capacity: int)
    requires
        no_repeats(labels, labels.len() as int),
        nodes_needed(labels) > capacity,
    ensures
        build_error(labels, capacity) == Some(TrieError::CapacityExceeded),
{
    lemma_distinct_prefix_len_is(labels, labels.len() as int);
    assert(labels.take(labels.len() as int) =~= labels);
}

/// Labels that spell different byte strings can be built into a trie as soon
/// as there is room for their nodes.
pub proof fn lemma_build_succeeds<V>(labels: Seq<(Seq<u8>, V)>, capacity: int)
    requires
        no_repeats(labels, labels.len() as int),
        nodes_needed(labels) <= capacity,
    ensures
        build_error(labels, capacity) is None,
{
    lemma_distinct_prefix_len_is(labels, labels.len() as int);
    assert(labels.take(labels.len() as int) =~= labels);
}

/// Whether the claim `claims[i]` holds of label `i`: the claim names an
/// earlier label, the number of bytes at the start of label `i` that this
/// earlier label also starts with, and a number of nodes, which is the number
/// of the claim before it, or 2 for the first label, plus the bytes of
/// label `i` that are not so shared.
pub open spec fn shares<V>(labels: Seq<(Seq<u8>, V)>, claims: Seq<(int, int, int)>, i: int) -> bool {
    let (earlier, shared, nodes) = claims[i];
    let label = labels[i].0;
    &&& 0 <= shared <= label.len()
    &&& shared > 0 ==> 0 <= earlier < i && label.take(shared).is_prefix_of(labels[earlier].0)
    &&& nodes == (if i == 0 {
        2
    } else {
        claims[i - 1].2
    }) + label.len() - shared
}

/// The prefixes of `label` of more than `shared` bytes.
pub open spec fn long_prefixes(label: Seq<u8>, shared: int) -> Set<Seq<u8>> {
    set_int_range(shared + 1, label.len() as int + 1).map(|k: int| label.take(k))
}

/// Where every label comes with a claim of what it shares with an earlier
/// label, and the claims hold, the first `n` labels need no more nodes than
/// the last of their claims says.
pub proof fn lemma_nodes_needed_at_most<V>(
    labels: Seq<(Seq<u8>, V)>,
    claims: Seq<(int, int, int)>,
    n: int,
)
    requires
        0 <= n <= labels.len(),
        claims.len() == labels.len(),
        forall|i: int| 0 <= i < n ==> shares(labels, claims, i),
    ensures
        nodes_needed(labels.take(n)) <= (if n == 0 {
            2
        } else {
            claims[n - 1].2
        }),
    decreases n,
{
    let empty = Seq::<u8>::empty();
    lemma_prefix_set_finite(labels.take(n));
    if n == 0 {
        assert(prefix_set(labels.take(0)) =~= Set::empty().insert(empty)) by {
            assert forall|p: Seq<u8>| prefix_set(labels.take(0)).contains(p) implies p == empty by {
                assert(p =~= empty);
            }
        }
    } else {
        let i = n - 1;
        let (earlier, shared, nodes) = claims[i];
        let label = labels[i].0;
        assert(shares(labels, claims, i));
        lemma_nodes_needed_at_most(labels, claims, i);
        let before = prefix_set(labels.take(i));
        let range = set_int_range(shared + 1, label.len() as int + 1);
        let added = long_prefixes(label, shared);
        lemma_prefix_set_finite(labels.take(i));
        lemma_int_range(shared + 1, label.len() as int + 1);
        vstd::set_lib::lemma_map_size_bound(range, added, |k: int| label.take(k));
        vstd::set_lib::lemma_len_union(before, added);
        assert(prefix_set(labels.take(n)).subset_of(before.union(added))) by {
            assert forall|p: Seq<u8>| prefix_set(labels.take(n)).contains(p) implies before.contains(
                p,
            ) || added.contains(p) by {
                if p.len() > 0 {
                    let j = choose|j: int|
                        0 <= j < labels.take(n).len() && p.is_prefix_of(
                            (#[trigger] labels.take(n)[j]).0,
                        );
                    if j < i {
                        assert(p.is_prefix_of(labels.take(i)[j].0));
                    } else if p.len() > shared {
                        assert(p =~= label.take(p.len() as int));
                        assert(range.contains(p.len() as int));
                    } else {
                        assert(p =~= labels[earlier].0.subrange(0, p.len() as int)) by {
                            assert(label.take(shared) =~= labels[earlier].0.subrange(0, shared));
                            assert forall|k: int| 0 <= k < p.len() implies p[k]
                                == labels[earlier].0[k] by {
                                assert(label.take(shared)[k] == labels[earlier].0.subrange(
                                    0,
                                    shared,
                                )[k]);
                            }
                        }
                        assert(p.is_prefix_of(labels.take(i)[earlier].0));
                    }
                }
            }
        }
        lemma_len_subset(prefix_set(labels.take(n)), before.union(added));
    }
}

} // verus!
