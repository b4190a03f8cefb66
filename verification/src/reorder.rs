//! Renumbering the nodes of a trie so that the accepting nodes come first:
//! whether a node accepts is then one comparison of its number.

use vstd::prelude::*;
use crate::alphabet::class_count;
use crate::alphabet::class_of;
use crate::alphabet::lemma_class_in_range;
use crate::model::covered;
use crate::model::grown;
use crate::model::TrieModel;

verus! {

/// The number of accepting nodes among the nodes 1 to `n - 1`.
pub open spec fn accepting_below<V>(values: Seq<Option<V>>, n: int) -> int
    decreases n,
{
    if n <= 1 {
        0
    } else if values[n - 1] is Some {
        accepting_below(values, n - 1) + 1
    } else {
        accepting_below(values, n - 1)
    }
}

/// The number of the last accepting node once the accepting nodes are put
/// first, or 0 if no node accepts.
pub open spec fn last_accepting<V>(values: Seq<Option<V>>) -> int {
    accepting_below(values, values.len() as int)
}

/// The new number of node `n`: the accepting nodes are numbered from 1 in
/// their old order, and the others follow in their old order. Node 0, which
/// stands for failure, stays node 0.
pub open spec fn reordered_index<V>(values: Seq<Option<V>>, n: int) -> int {
    if n < 1 || n >= values.len() {
        0
    } else if values[n] is Some {
        1 + accepting_below(values, n)
    } else {
        1 + last_accepting(values) + (n - 1 - accepting_below(values, n))
    }
}

/// The old number of the node whose new number is `n`.
pub open spec fn former_index<V>(values: Seq<Option<V>>, n: int) -> int {
    choose|old: int| 1 <= old < values.len() && #[trigger] reordered_index(values, old) == n
}

/// The trie with its nodes renumbered, the accepting ones first.
pub open spec fn reordered<V>(m: TrieModel<V>) -> TrieModel<V> {
    TrieModel {
        root: reordered_index(m.values, m.root),
        edges: Seq::new(
            m.edges.len(),
            |n: int|
                Seq::new(
                    m.edges[n].len(),
                    |c: int|
                        if n == 0 {
                            0
                        } else {
                            reordered_index(m.values, m.edges[former_index(m.values, n)][c])
                        },
                ),
        ),
        values: Seq::new(
            m.values.len(),
            |n: int|
                if n == 0 {
                    None
                } else {
                    m.values[former_index(m.values, n)]
                },
        ),
        paths: Seq::new(
            m.paths.len(),
            |n: int|
                if n == 0 {
                    m.paths[0]
                } else {
                    m.paths[former_index(m.values, n)]
                },
        ),
    }
}

/// The trie of a vocabulary: its nodes are numbered in the order in which the
/// labels, taken byte by byte, call for them, and then renumbered with the
/// accepting nodes first.
pub open spec fn trie_of<V>(labels: Seq<(Seq<u8>, V)>) -> TrieModel<V> {
    reordered(grown(labels, labels.len() as int, 0))
}

/// The number of the last accepting node of the trie of a vocabulary, or 0 if
/// none of its nodes accepts.
pub open spec fn last_match<V>(labels: Seq<(Seq<u8>, V)>) -> int {
    last_accepting(grown(labels, labels.len() as int, 0).values)
}

/// Between two nodes the count of accepting nodes grows by the number of
/// accepting nodes passed.
pub proof fn lemma_accepting_below<V>(values: Seq<Option<V>>, m: int, n: int)
    requires
        1 <= m <= n <= values.len(),
    ensures
        0 <= accepting_below(values, n) - accepting_below(values, m) <= n - m,
        m < n && values[m] is Some ==> accepting_below(values, m) < accepting_below(values, n),
        m < n && values[m] is None ==> accepting_below(values, n) - accepting_below(values, m) < n
            - m,
        accepting_below(values, 1) == 0,
    decreases n - m,
{
    if m < n {
        lemma_accepting_below(values, m, n - 1);
    }
}

/// A new number is the number of a node, and at most that of the last
/// accepting node if and only if the node accepts.
pub proof fn lemma_reordered_index_range<V>(values: Seq<Option<V>>, n: int)
    requires
        1 <= n < values.len(),
    ensures
        1 <= reordered_index(values, n) < values.len(),
        values[n] is Some <==> reordered_index(values, n) <= last_accepting(values),
        0 <= last_accepting(values) < values.len(),
{
    lemma_accepting_below(values, 1, n);
    lemma_accepting_below(values, n, values.len() as int);
    lemma_accepting_below(values, 1, values.len() as int);
}

/// Two nodes get two new numbers.
pub proof fn lemma_reordered_index_injective<V>(values: Seq<Option<V>>, a: int, b: int)
    requires
        1 <= a < values.len(),
        1 <= b < values.len(),
        reordered_index(values, a) == reordered_index(values, b),
    ensures
        a == b,
{
    lemma_reordered_index_range(values, a);
    lemma_reordered_index_range(values, b);
    if a < b {
        lemma_accepting_below(values, a, b);
    } else if b < a {
        lemma_accepting_below(values, b, a);
    }
}

/// Below `hi` there is an accepting node with `w` accepting nodes before it,
/// if more than `w` nodes below `hi` accept.
proof fn lemma_find_accepting<V>(values: Seq<Option<V>>, hi: int, w: int)
    requires
        1 <= hi <= values.len(),
        0 <= w < accepting_below(values, hi),
    ensures
        exists|n: int|
            1 <= n < hi && values[n] is Some && #[trigger] accepting_below(values, n) == w,
    decreases hi,
{
    if values[hi - 1] is Some && accepting_below(values, hi - 1) == w {
    } else {
        lemma_find_accepting(values, hi - 1, w);
    }
}

/// Below `hi` there is a node that does not accept, with `w` such nodes
/// before it, if more than `w` nodes below `hi` do not accept.
proof fn lemma_find_rejecting<V>(values: Seq<Option<V>>, hi: int, w: int)
    requires
        1 <= hi <= values.len(),
        0 <= w < hi - 1 - accepting_below(values, hi),
    ensures
        exists|n: int|
            1 <= n < hi && values[n] is None && n - 1 - #[trigger] accepting_below(values, n) == w,
    decreases hi,
{
    if values[hi - 1] is None && hi - 2 - accepting_below(values, hi - 1) == w {
    } else {
        lemma_find_rejecting(values, hi - 1, w);
    }
}

/// Every number of a node is the new number of some node.
pub proof fn lemma_reordered_index_onto<V>(values: Seq<Option<V>>, w: int)
    requires
        1 <= w < values.len(),
    ensures
        1 <= former_index(values, w) < values.len(),
        reordered_index(values, former_index(values, w)) == w,
{
    let len = values.len() as int;
    lemma_accepting_below(values, 1, len);
    if w <= last_accepting(values) {
        lemma_find_accepting(values, len, w - 1);
        let n = choose|n: int|
            1 <= n < len && values[n] is Some && #[trigger] accepting_below(values, n) == w - 1;
        assert(reordered_index(values, n) == w);
    } else {
        lemma_find_rejecting(values, len, w - 1 - last_accepting(values));
        let n = choose|n: int|
            1 <= n < len && values[n] is None && n - 1 - #[trigger] accepting_below(values, n) == w
                - 1 - last_accepting(values);
        assert(reordered_index(values, n) == w);
    }
}

/// The old number of a node's new number is the node's number.
pub proof fn lemma_former_index<V>(values: Seq<Option<V>>, n: int)
    requires
        1 <= n < values.len(),
    ensures
        former_index(values, reordered_index(values, n)) == n,
{
    lemma_reordered_index_range(values, n);
    lemma_reordered_index_onto(values, reordered_index(values, n));
    lemma_reordered_index_injective(
        values,
        former_index(values, reordered_index(values, n)),
        n,
    );
}

/// What the node with the new number `n` holds of the node it was.
proof fn lemma_back<V>(m: TrieModel<V>, classes: int, n: int)
    requires
        m.shaped(classes),
        reordered(m).is_node(n),
    ensures
        m.is_node(former_index(m.values, n)),
        reordered_index(m.values, former_index(m.values, n)) == n,
        reordered(m).paths[n] == m.paths[former_index(m.values, n)],
        reordered(m).values[n] == m.values[former_index(m.values, n)],
        reordered(m).edges[n].len() == classes,
        forall|c: int|
            0 <= c < classes ==> #[trigger] reordered(m).edges[n][c] == reordered_index(
                m.values,
                m.edges[former_index(m.values, n)][c],
            ),
        reordered(m).values[n] is Some <==> n <= last_accepting(m.values),
{
    lemma_reordered_index_onto(m.values, n);
    lemma_reordered_index_range(m.values, former_index(m.values, n));
    assert(m.edges[n].len() == classes);
}

/// Where the node `n` is found under its new number.
proof fn lemma_forth<V>(m: TrieModel<V>, classes: int, n: int)
    requires
        m.shaped(classes),
        m.is_node(n),
    ensures
        reordered(m).is_node(reordered_index(m.values, n)),
        former_index(m.values, reordered_index(m.values, n)) == n,
        reordered(m).paths[reordered_index(m.values, n)] == m.paths[n],
        reordered(m).values[reordered_index(m.values, n)] == m.values[n],
{
    lemma_reordered_index_range(m.values, n);
    lemma_former_index(m.values, n);
}

/// The renumbered trie has the shape of a trie, and its nodes stand for the
/// same byte strings, one node for each.
proof fn lemma_reordered_shape<V>(m: TrieModel<V>, labels: Seq<(Seq<u8>, V)>)
    requires
        m.is_trie_of(labels),
    ensures
        reordered(m).shaped(class_count(labels) as int),
        reordered(m).paths_covered(labels, labels.len() as int, 0),
        reordered(m).covers(labels, labels.len() as int, 0),
        reordered(m).paths_distinct(),
{
    let r = reordered(m);
    let values = m.values;
    let done = labels.len() as int;
    let classes = class_count(labels) as int;
    lemma_forth(m, classes, m.root);
    assert forall|n: int| 0 <= n < r.edges.len() implies (#[trigger] r.edges[n]).len()
        == classes by {
        assert(m.edges[n].len() == classes);
    }
    assert forall|n: int| r.is_node(n) implies covered(labels, done, 0, #[trigger] r.paths[n]) by {
        lemma_back(m, classes, n);
        assert(covered(labels, done, 0, m.paths[former_index(values, n)]));
    }
    assert forall|p: Seq<u8>| #[trigger] covered(labels, done, 0, p) implies r.has_node(p) by {
        assert(m.has_node(p));
        let n = choose|n: int| m.is_node(n) && #[trigger] m.paths[n] == p;
        lemma_forth(m, classes, n);
        let new = reordered_index(values, n);
        assert(r.is_node(new) && r.paths[new] == p);
    }
    assert forall|a: int, b: int|
        #![trigger r.paths[a], r.paths[b]]
        r.is_node(a) && r.is_node(b) && r.paths[a] == r.paths[b] implies a == b by {
        lemma_back(m, classes, a);
        lemma_back(m, classes, b);
        assert(m.paths[former_index(values, a)] == m.paths[former_index(values, b)]);
    }
}

/// The edges of the renumbered trie lead where the one byte more says.
proof fn lemma_reordered_edges_sound<V>(m: TrieModel<V>, labels: Seq<(Seq<u8>, V)>)
    requires
        m.is_trie_of(labels),
    ensures
        reordered(m).edges_sound(labels),
{
    let r = reordered(m);
    let values = m.values;
    let classes = class_count(labels) as int;
    assert forall|n: int, c: int|
        r.is_node(n) && 0 <= c < r.edges[n].len() && #[trigger] r.edges[n][c] != 0 implies {
        let t = r.edges[n][c];
        &&& r.is_node(t)
        &&& t != r.root
        &&& r.paths[t].len() > 0
        &&& r.paths[t].drop_last() == r.paths[n]
        &&& class_of(labels, r.paths[t].last()) == c
    } by {
        lemma_back(m, classes, n);
        let old = former_index(values, n);
        let target = m.edges[old][c];
        assert(r.edges[n][c] == reordered_index(values, target));
        assert(target != 0);
        assert(m.is_node(target));
        lemma_forth(m, classes, target);
        if reordered_index(values, target) == r.root {
            lemma_reordered_index_injective(values, target, m.root);
        }
    }
}

/// The renumbered trie has every edge that its nodes call for.
proof fn lemma_reordered_edges_complete<V>(m: TrieModel<V>, labels: Seq<(Seq<u8>, V)>)
    requires
        m.is_trie_of(labels),
    ensures
        reordered(m).edges_complete(labels),
{
    let r = reordered(m);
    let values = m.values;
    let classes = class_count(labels) as int;
    assert forall|t: int, n: int|
        #![trigger r.paths[t], r.paths[n]]
        r.is_node(t) && r.is_node(n) && r.paths[t].len() > 0 && r.paths[t].drop_last()
            == r.paths[n] implies r.edges[n][class_of(labels, r.paths[t].last()) as int] == t by {
        lemma_back(m, classes, t);
        lemma_back(m, classes, n);
        let old_t = former_index(values, t);
        let old_n = former_index(values, n);
        let c = class_of(labels, r.paths[t].last()) as int;
        lemma_class_in_range(labels, r.paths[t].last());
        assert(m.paths[old_t].drop_last() == m.paths[old_n]);
        assert(m.edges[old_n][c] == old_t);
        assert(r.edges[n][c] == reordered_index(values, m.edges[old_n][c]));
    }
}

/// The renumbered trie accepts the same labels with the same values.
proof fn lemma_reordered_values<V>(m: TrieModel<V>, labels: Seq<(Seq<u8>, V)>)
    requires
        m.is_trie_of(labels),
    ensures
        reordered(m).values_sound(labels, labels.len() as int),
        reordered(m).values_complete(labels, labels.len() as int),
{
    let r = reordered(m);
    let values = m.values;
    let done = labels.len() as int;
    let classes = class_count(labels) as int;
    assert forall|n: int| r.is_node(n) && (#[trigger] r.values[n]) is Some implies exists|j: int|
        0 <= j < done && j < labels.len() && #[trigger] labels[j] == (r.paths[n], r.values[n]->0) by {
        lemma_back(m, classes, n);
        let old = former_index(values, n);
        assert(m.values[old] is Some);
        let j = choose|j: int|
            0 <= j < done && j < labels.len() && #[trigger] labels[j] == (
                m.paths[old],
                m.values[old]->0,
            );
        assert(labels[j] == (r.paths[n], r.values[n]->0));
    }
    assert forall|j: int, n: int|
        #![trigger labels[j], r.paths[n]]
        0 <= j < done && j < labels.len() && r.is_node(n) && r.paths[n] == labels[j].0 implies r.values[n]
        == Some(labels[j].1) by {
        lemma_back(m, classes, n);
        let old = former_index(values, n);
        assert(m.paths[old] == labels[j].0);
    }
}

/// Renumbering the nodes of a trie gives a trie of the same labels, and in
/// it the accepting nodes are those up to the last accepting one.
pub proof fn lemma_reordered<V>(m: TrieModel<V>, labels: Seq<(Seq<u8>, V)>)
    requires
        m.is_trie_of(labels),
    ensures
        reordered(m).is_trie_of(labels),
        reordered(m).len() == m.len(),
        forall|n: int|
            reordered(m).is_node(n) ==> ((#[trigger] reordered(m).values[n]) is Some <==> n
                <= last_accepting(m.values)),
        0 <= last_accepting(m.values) < m.len(),
{
    lemma_reordered_shape(m, labels);
    lemma_reordered_edges_sound(m, labels);
    lemma_reordered_edges_complete(m, labels);
    lemma_reordered_values(m, labels);
    lemma_reordered_index_range(m.values, m.root);
    assert forall|n: int| reordered(m).is_node(n) implies ((#[trigger] reordered(m).values[n]) is Some
        <==> n <= last_accepting(m.values)) by {
        lemma_back(m, class_count(labels) as int, n);
    }
}

} // verus!
