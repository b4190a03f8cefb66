//! A trie as a mathematical object: its nodes stand for the prefixes of the
//! labels of a vocabulary, one node for each prefix.

use vstd::prelude::*;
use crate::alphabet::class_count;
use crate::alphabet::class_of;
use crate::alphabet::lemma_class_in_range;
use crate::alphabet::lemma_class_separates;
use crate::alphabet::occurs;
use crate::matching::first_occurrence;
use crate::matching::is_exact_match;
use crate::matching::is_longest_match;
use crate::matching::no_repeats;

verus! {

/// Whether `p` is empty or a prefix of some label.
pub open spec fn is_label_prefix<V>(labels: Seq<(Seq<u8>, V)>, p: Seq<u8>) -> bool {
    p.len() == 0 || exists|j: int| 0 <= j < labels.len() && p.is_prefix_of((#[trigger] labels[j]).0)
}

/// What a search of an input owes where the input leaves the prefixes of the
/// labels: what a search of its longest prefix that is a prefix of a label
/// owes.
pub proof fn lemma_leaves<V>(labels: Seq<(Seq<u8>, V)>, h: Seq<u8>, n: int, r: Option<(V, usize)>)
    requires
        0 <= n <= h.len(),
        is_longest_match(labels, h.take(n), r),
        n < h.len() ==> !is_label_prefix(labels, h.take(n + 1)),
    ensures
        is_longest_match(labels, h, r),
{
    let p = h.take(n);
    assert forall|j: int|
        0 <= j < labels.len() && (#[trigger] labels[j]).0.is_prefix_of(h) implies labels[j].0.is_prefix_of(
        p,
    ) by {
        let l = labels[j].0;
        if l.len() > n {
            assert(h.take(n + 1) =~= l.subrange(0, n + 1));
            assert(h.take(n + 1).is_prefix_of(l));
        }
        assert(l =~= p.subrange(0, l.len() as int));
    }
    match r {
        Some((v, m)) => {
            assert(p.take(m as int) =~= h.take(m as int));
        },
        None => {},
    }
}

/// The prefixes of the labels, the empty one among them.
pub open spec fn prefix_set<V>(labels: Seq<(Seq<u8>, V)>) -> Set<Seq<u8>> {
    Set::new(|p: Seq<u8>| is_label_prefix(labels, p))
}

/// The number of nodes that a trie of the labels has: one for each prefix,
/// and the node that stands for failure.
pub open spec fn nodes_needed<V>(labels: Seq<(Seq<u8>, V)>) -> nat {
    prefix_set(labels).len() + 1
}

/// Whether `p` is a prefix of one of the first `done` labels, or one of the
/// prefixes of label `done` of at most `partial` bytes.
pub open spec fn covered<V>(labels: Seq<(Seq<u8>, V)>, done: int, partial: int, p: Seq<u8>) -> bool {
    ||| p.len() == 0
    ||| exists|j: int|
        0 <= j < done && j < labels.len() && p.is_prefix_of((#[trigger] labels[j]).0)
    ||| (0 <= done < labels.len() && p.len() <= partial && p.is_prefix_of(labels[done].0))
}

/// The byte strings that are covered in the sense of `covered`.
pub open spec fn covered_set<V>(labels: Seq<(Seq<u8>, V)>, done: int, partial: int) -> Set<
    Seq<u8>,
> {
    Set::new(|p: Seq<u8>| covered(labels, done, partial, p))
}

/// A trie as a mathematical object. Node 0 stands for failure; the nodes
/// proper are numbered from 1.
pub struct TrieModel<V> {
    /// The node at which every search starts.
    pub root: int,
    /// `edges[n][c]` is the node reached from node `n` by a byte of class `c`,
    /// or 0.
    pub edges: Seq<Seq<int>>,
    /// The value that each node accepts with, if any.
    pub values: Seq<Option<V>>,
    /// The bytes that lead from the root to each node.
    pub paths: Seq<Seq<u8>>,
}

impl<V> TrieModel<V> {
    /// The number of nodes, the node that stands for failure among them.
    pub open spec fn len(self) -> int {
        self.paths.len() as int
    }

    /// Whether `n` is the number of a node proper.
    pub open spec fn is_node(self, n: int) -> bool {
        1 <= n < self.paths.len()
    }

    /// Whether some node stands for `p`.
    pub open spec fn has_node(self, p: Seq<u8>) -> bool {
        exists|n: int| self.is_node(n) && #[trigger] self.paths[n] == p
    }

    /// Whether the tables have one row for each node, with one edge for each
    /// class, the root is a node and stands for the empty byte string, and no
    /// edge leads on from failure.
    pub open spec fn shaped(self, classes: int) -> bool {
        &&& self.is_node(self.root)
        &&& self.edges.len() == self.paths.len()
        &&& self.values.len() == self.paths.len()
        &&& forall|n: int| 0 <= n < self.edges.len() ==> (#[trigger] self.edges[n]).len() == classes
        &&& forall|c: int| 0 <= c < classes ==> #[trigger] self.edges[0][c] == 0
        &&& self.paths[self.root].len() == 0
    }

    /// Whether every node stands for a covered byte string.
    pub open spec fn paths_covered(self, labels: Seq<(Seq<u8>, V)>, done: int, partial: int) -> bool {
        forall|n: int| self.is_node(n) ==> covered(labels, done, partial, #[trigger] self.paths[n])
    }

    /// Whether every covered byte string has a node.
    pub open spec fn covers(self, labels: Seq<(Seq<u8>, V)>, done: int, partial: int) -> bool {
        forall|p: Seq<u8>| #[trigger] covered(labels, done, partial, p) ==> self.has_node(p)
    }

    /// Whether two nodes stand for two byte strings.
    pub open spec fn paths_distinct(self) -> bool {
        forall|a: int, b: int|
            #![trigger self.paths[a], self.paths[b]]
            self.is_node(a) && self.is_node(b) && self.paths[a] == self.paths[b] ==> a == b
    }

    /// Whether every edge leads to a node other than the root, whose byte
    /// string is that of the node it comes from with one more byte, and that
    /// byte is of the class of the edge.
    pub open spec fn edges_sound(self, labels: Seq<(Seq<u8>, V)>) -> bool {
        forall|n: int, c: int|
            self.is_node(n) && 0 <= c < self.edges[n].len() && #[trigger] self.edges[n][c] != 0 ==> {
                let t = self.edges[n][c];
                &&& self.is_node(t)
                &&& t != self.root
                &&& self.paths[t].len() > 0
                &&& self.paths[t].drop_last() == self.paths[n]
                &&& class_of(labels, self.paths[t].last()) == c
            }
    }

    /// Whether from every node an edge leads to each node whose byte string
    /// is longer by one byte, by the class of that byte.
    pub open spec fn edges_complete(self, labels: Seq<(Seq<u8>, V)>) -> bool {
        forall|t: int, n: int|
            #![trigger self.paths[t], self.paths[n]]
            self.is_node(t) && self.is_node(n) && self.paths[t].len() > 0
                && self.paths[t].drop_last() == self.paths[n] ==> self.edges[n][class_of(
                labels,
                self.paths[t].last(),
            ) as int] == t
    }

    /// Whether every node that accepts stands for one of the first `done`
    /// labels and accepts with its value.
    pub open spec fn values_sound(self, labels: Seq<(Seq<u8>, V)>, done: int) -> bool {
        forall|n: int|
            self.is_node(n) && (#[trigger] self.values[n]) is Some ==> exists|j: int|
                0 <= j < done && j < labels.len() && #[trigger] labels[j] == (
                    self.paths[n],
                    self.values[n]->0,
                )
    }

    /// Whether the node of each of the first `done` labels accepts with the
    /// value of the label.
    pub open spec fn values_complete(self, labels: Seq<(Seq<u8>, V)>, done: int) -> bool {
        forall|j: int, n: int|
            #![trigger labels[j], self.paths[n]]
            0 <= j < done && j < labels.len() && self.is_node(n) && self.paths[n] == labels[j].0
                ==> self.values[n] == Some(labels[j].1)
    }

    /// Whether this is the trie of the first `done` labels and of the first
    /// `partial` bytes of the next one: its nodes stand for their prefixes,
    /// one node for each, its edges lead from each prefix to the prefixes
    /// that are one byte longer, and a node accepts if and only if its prefix
    /// is one of the first `done` labels, with the value of that label.
    pub open spec fn wf(self, labels: Seq<(Seq<u8>, V)>, done: int, partial: int) -> bool {
        &&& 0 <= done <= labels.len()
        &&& 0 <= partial
        &&& no_repeats(labels, done)
        &&& self.shaped(class_count(labels) as int)
        &&& self.paths_covered(labels, done, partial)
        &&& self.covers(labels, done, partial)
        &&& self.paths_distinct()
        &&& self.edges_sound(labels)
        &&& self.edges_complete(labels)
        &&& self.values_sound(labels, done)
        &&& self.values_complete(labels, done)
    }

    /// Whether this is the trie of all the labels.
    pub open spec fn is_trie_of(self, labels: Seq<(Seq<u8>, V)>) -> bool {
        self.wf(labels, labels.len() as int, 0)
    }

    /// The node that stands for `p`.
    pub open spec fn node_of(self, p: Seq<u8>) -> int {
        choose|n: int| self.is_node(n) && #[trigger] self.paths[n] == p
    }

    /// The trie with a new node for `p`, reached from node `n` by class `c`.
    pub open spec fn with_child(self, n: int, c: int, p: Seq<u8>) -> TrieModel<V> {
        TrieModel {
            root: self.root,
            edges: self.edges.update(n, self.edges[n].update(c, self.len())).push(
                Seq::new(self.edges[n].len(), |c: int| 0int),
            ),
            values: self.values.push(None),
            paths: self.paths.push(p),
        }
    }

    /// The trie in which node `n` accepts with `v`.
    pub open spec fn with_value(self, n: int, v: V) -> TrieModel<V> {
        TrieModel {
            root: self.root,
            edges: self.edges,
            values: self.values.update(n, Some(v)),
            paths: self.paths,
        }
    }
}

/// The trie that holds nothing but the root.
pub open spec fn root_only<V>(classes: int) -> TrieModel<V> {
    TrieModel {
        root: 1,
        edges: Seq::new(2, |n: int| Seq::new(classes as nat, |c: int| 0int)),
        values: Seq::new(2, |n: int| None),
        paths: Seq::new(2, |n: int| Seq::empty()),
    }
}

/// The trie that holds the first `i` labels and the first `k` bytes of label
/// `i`, its nodes numbered in the order in which the labels, taken byte by
/// byte, call for them.
pub open spec fn grown<V>(labels: Seq<(Seq<u8>, V)>, i: int, k: int) -> TrieModel<V>
    decreases i, k,
{
    if i < 0 || k < 0 || (i == 0 && k == 0) {
        root_only(class_count(labels) as int)
    } else if k == 0 {
        let label = labels[i - 1];
        let before = grown(labels, i - 1, label.0.len() as int);
        before.with_value(before.node_of(label.0), label.1)
    } else {
        let before = grown(labels, i, k - 1);
        let n = before.node_of(labels[i].0.take(k - 1));
        let c = class_of(labels, labels[i].0[k - 1]) as int;
        if before.edges[n][c] == 0 {
            before.with_child(n, c, labels[i].0.take(k))
        } else {
            before
        }
    }
}

/// Only one node stands for a byte string.
pub proof fn lemma_node_of<V>(m: TrieModel<V>, n: int)
    requires
        m.paths_distinct(),
        m.is_node(n),
    ensures
        m.node_of(m.paths[n]) == n,
{
    let p = m.paths[n];
    let t = choose|t: int| m.is_node(t) && #[trigger] m.paths[t] == p;
    assert(m.paths[t] == m.paths[n]);
}

/// The last byte of a non-empty prefix of a label occurs in that label.
pub proof fn lemma_last_occurs<V>(labels: Seq<(Seq<u8>, V)>, done: int, partial: int, p: Seq<u8>)
    requires
        covered(labels, done, partial, p),
        p.len() > 0,
    ensures
        occurs(labels, p.last()),
{
    let k = p.len() - 1;
    if exists|j: int| 0 <= j < done && j < labels.len() && p.is_prefix_of((#[trigger] labels[j]).0) {
        let j = choose|j: int|
            0 <= j < done && j < labels.len() && p.is_prefix_of((#[trigger] labels[j]).0);
        assert(labels[j].0.subrange(0, p.len() as int)[k] == p[k]);
        assert(labels[j].0[k] == p.last());
    } else {
        assert(labels[done].0.subrange(0, p.len() as int)[k] == p[k]);
        assert(labels[done].0[k] == p.last());
    }
}

/// A prefix of a covered byte string is covered.
pub proof fn lemma_covered_drop_last<V>(
    labels: Seq<(Seq<u8>, V)>,
    done: int,
    partial: int,
    p: Seq<u8>,
)
    requires
        covered(labels, done, partial, p),
        p.len() > 0,
    ensures
        covered(labels, done, partial, p.drop_last()),
{
    let q = p.drop_last();
    if exists|j: int| 0 <= j < done && j < labels.len() && p.is_prefix_of((#[trigger] labels[j]).0) {
        let j = choose|j: int|
            0 <= j < done && j < labels.len() && p.is_prefix_of((#[trigger] labels[j]).0);
        assert(q =~= labels[j].0.subrange(0, q.len() as int));
        assert(q.is_prefix_of(labels[j].0));
    } else {
        assert(q =~= labels[done].0.subrange(0, q.len() as int));
    }
}

/// An edge spells the byte it was taken with.
pub proof fn lemma_follow<V>(
    m: TrieModel<V>,
    labels: Seq<(Seq<u8>, V)>,
    done: int,
    partial: int,
    n: int,
    b: u8,
)
    requires
        m.wf(labels, done, partial),
        m.is_node(n),
        m.edges[n][class_of(labels, b) as int] != 0,
    ensures
        m.is_node(m.edges[n][class_of(labels, b) as int]),
        m.paths[m.edges[n][class_of(labels, b) as int]] == m.paths[n].push(b),
{
    lemma_class_in_range(labels, b);
    let c = class_of(labels, b) as int;
    let t = m.edges[n][c];
    let p = m.paths[t];
    assert(m.is_node(t));
    lemma_last_occurs(labels, done, partial, p);
    lemma_class_separates(labels, p.last(), b);
    assert(p =~= p.drop_last().push(p.last()));
}

/// Where an edge is missing, no node stands for the longer byte string.
pub proof fn lemma_no_edge<V>(
    m: TrieModel<V>,
    labels: Seq<(Seq<u8>, V)>,
    done: int,
    partial: int,
    n: int,
    b: u8,
)
    requires
        m.wf(labels, done, partial),
        m.is_node(n),
        m.edges[n][class_of(labels, b) as int] == 0,
    ensures
        !covered(labels, done, partial, m.paths[n].push(b)),
{
    let p = m.paths[n].push(b);
    if covered(labels, done, partial, p) {
        assert(m.has_node(p));
        let t = choose|t: int| m.is_node(t) && #[trigger] m.paths[t] == p;
        assert(p.drop_last() =~= m.paths[n]);
        assert(p.last() == b);
        assert(m.edges[n][class_of(labels, m.paths[t].last()) as int] == t);
    }
}

/// A byte string that no node stands for stays without a node when it grows.
pub proof fn lemma_uncovered_grows<V>(
    labels: Seq<(Seq<u8>, V)>,
    done: int,
    partial: int,
    p: Seq<u8>,
    b: u8,
)
    requires
        !covered(labels, done, partial, p),
    ensures
        !covered(labels, done, partial, p.push(b)),
{
    if covered(labels, done, partial, p.push(b)) {
        lemma_covered_drop_last(labels, done, partial, p.push(b));
        assert(p.push(b).drop_last() =~= p);
    }
}

/// A node of a finished trie accepts exactly when its byte string is a label.
pub proof fn lemma_node_value<V>(m: TrieModel<V>, labels: Seq<(Seq<u8>, V)>, n: int)
    requires
        m.is_trie_of(labels),
        m.is_node(n),
    ensures
        is_exact_match(labels, m.paths[n], m.values[n]),
{
    match m.values[n] {
        Some(v) => {
            let j = choose|j: int|
                0 <= j < labels.len() && #[trigger] labels[j] == (m.paths[n], m.values[n]->0);
            assert(labels[j] == (m.paths[n], v));
            assert(first_occurrence(labels, j));
        },
        None => {
            assert forall|j: int| 0 <= j < labels.len() implies (#[trigger] labels[j]).0
                != m.paths[n] by {
                if labels[j].0 == m.paths[n] {
                    assert(m.values[n] == Some(labels[j].1));
                }
            }
        },
    }
}

/// A label of a finished trie has a node.
pub proof fn lemma_label_covered<V>(labels: Seq<(Seq<u8>, V)>, j: int, n: int)
    requires
        0 <= j < labels.len(),
        0 <= n <= labels[j].0.len(),
    ensures
        covered(labels, labels.len() as int, 0, labels[j].0.take(n)),
{
    assert(labels[j].0.take(n).is_prefix_of(labels[j].0));
}

/// The trie that holds nothing but the root is the trie of no labels.
pub proof fn lemma_root_only<V>(labels: Seq<(Seq<u8>, V)>)
    ensures
        root_only::<V>(class_count(labels) as int).wf(labels, 0, 0),
{
    let m = root_only::<V>(class_count(labels) as int);
    lemma_class_in_range(labels, 0);
    assert forall|p: Seq<u8>| #[trigger] covered(labels, 0, 0, p) implies m.has_node(p) by {
        assert(p =~= Seq::empty());
        assert(m.is_node(1) && m.paths[1] == p);
    }
}

/// Walking an edge that is there keeps the trie as it is and leads to the
/// node of the next prefix of the label.
pub proof fn lemma_advance<V>(
    m: TrieModel<V>,
    labels: Seq<(Seq<u8>, V)>,
    i: int,
    k: int,
    n: int,
)
    requires
        m.wf(labels, i, k),
        0 <= i < labels.len(),
        0 <= k < labels[i].0.len(),
        m.is_node(n),
        m.paths[n] == labels[i].0.take(k),
        m.edges[n][class_of(labels, labels[i].0[k]) as int] != 0,
    ensures
        m.wf(labels, i, k + 1),
        m.is_node(m.edges[n][class_of(labels, labels[i].0[k]) as int]),
        m.paths[m.edges[n][class_of(labels, labels[i].0[k]) as int]] == labels[i].0.take(k + 1),
{
    let b = labels[i].0[k];
    let t = m.edges[n][class_of(labels, b) as int];
    lemma_follow(m, labels, i, k, n, b);
    assert(labels[i].0.take(k).push(b) =~= labels[i].0.take(k + 1));
    assert forall|p: Seq<u8>| #[trigger] covered(labels, i, k + 1, p) implies m.has_node(p) by {
        if !covered(labels, i, k, p) {
            assert(p =~= labels[i].0.take(k + 1));
            assert(m.is_node(t) && m.paths[t] == p);
        }
    }
    assert forall|a: int| m.is_node(a) implies covered(labels, i, k + 1, #[trigger] m.paths[a]) by {
        assert(covered(labels, i, k, m.paths[a]));
    }
}

/// Putting a new node where an edge is missing gives the trie that also
/// holds the next prefix of the label.
pub proof fn lemma_extend<V>(
    m: TrieModel<V>,
    labels: Seq<(Seq<u8>, V)>,
    i: int,
    k: int,
    n: int,
)
    requires
        m.wf(labels, i, k),
        0 <= i < labels.len(),
        0 <= k < labels[i].0.len(),
        m.is_node(n),
        m.paths[n] == labels[i].0.take(k),
        m.edges[n][class_of(labels, labels[i].0[k]) as int] == 0,
    ensures
        m.with_child(n, class_of(labels, labels[i].0[k]) as int, labels[i].0.take(k + 1)).wf(
            labels,
            i,
            k + 1,
        ),
        !covered(labels, i, k, labels[i].0.take(k + 1)),
{
    let b = labels[i].0[k];
    let c = class_of(labels, b) as int;
    let p = labels[i].0.take(k + 1);
    let t = m.len();
    let m2 = m.with_child(n, c, p);
    lemma_class_in_range(labels, b);
    lemma_no_edge(m, labels, i, k, n, b);
    assert(labels[i].0.take(k).push(b) =~= p);
    assert(p.drop_last() =~= m.paths[n]);
    assert(p.last() == b);
    assert(p.is_prefix_of(labels[i].0));
    assert(covered(labels, i, k + 1, p));
    assert(m2.paths[t] == p);
    assert(m2.is_node(t));
    assert forall|a: int| m.is_node(a) implies m2.paths[a] == m.paths[a] && m2.is_node(a) by {}
    // the shape
    assert(m2.shaped(class_count(labels) as int)) by {
        assert forall|a: int| 0 <= a < m2.edges.len() implies (#[trigger] m2.edges[a]).len()
            == class_count(labels) as int by {
            if a < t {
                assert(m.edges[a].len() == class_count(labels) as int);
            }
        }
        assert forall|c2: int| 0 <= c2 < class_count(labels) as int implies #[trigger] m2.edges[0][c2]
            == 0 by {
            assert(m.edges[0][c2] == 0);
        }
    }
    assert(m2.paths_covered(labels, i, k + 1)) by {
        assert forall|a: int| m2.is_node(a) implies covered(
            labels,
            i,
            k + 1,
            #[trigger] m2.paths[a],
        ) by {
            if a < t {
                assert(covered(labels, i, k, m.paths[a]));
            }
        }
    }
    assert(m2.covers(labels, i, k + 1)) by {
        assert forall|q: Seq<u8>| #[trigger] covered(labels, i, k + 1, q) implies m2.has_node(
            q,
        ) by {
            if covered(labels, i, k, q) {
                assert(m.has_node(q));
                let a = choose|a: int| m.is_node(a) && #[trigger] m.paths[a] == q;
                assert(m2.is_node(a) && m2.paths[a] == q);
            } else {
                assert(q =~= p);
                assert(m2.is_node(t) && m2.paths[t] == q);
            }
        }
    }
    assert(m2.paths_distinct()) by {
        assert forall|a: int, b2: int|
            #![trigger m2.paths[a], m2.paths[b2]]
            m2.is_node(a) && m2.is_node(b2) && m2.paths[a] == m2.paths[b2] implies a == b2 by {
            if a < t && b2 < t {
                assert(m.paths[a] == m.paths[b2]);
            } else if a < t {
                assert(covered(labels, i, k, m.paths[a]));
            } else if b2 < t {
                assert(covered(labels, i, k, m.paths[b2]));
            }
        }
    }
    assert(m2.edges_sound(labels)) by {
        assert forall|a: int, c2: int|
            m2.is_node(a) && 0 <= c2 < m2.edges[a].len() && #[trigger] m2.edges[a][c2] != 0 implies {
            let t2 = m2.edges[a][c2];
            &&& m2.is_node(t2)
            &&& t2 != m2.root
            &&& m2.paths[t2].len() > 0
            &&& m2.paths[t2].drop_last() == m2.paths[a]
            &&& class_of(labels, m2.paths[t2].last()) == c2
        } by {
            if a == n && c2 == c {
            } else if a < t {
                assert(m.edges[a][c2] == m2.edges[a][c2]);
            }
        }
    }
    assert(m2.edges_complete(labels)) by {
        assert forall|t2: int, a: int|
            #![trigger m2.paths[t2], m2.paths[a]]
            m2.is_node(t2) && m2.is_node(a) && m2.paths[t2].len() > 0 && m2.paths[t2].drop_last()
                == m2.paths[a] implies m2.edges[a][class_of(labels, m2.paths[t2].last()) as int]
            == t2 by {
            let c2 = class_of(labels, m2.paths[t2].last()) as int;
            lemma_class_in_range(labels, m2.paths[t2].last());
            if t2 == t {
                // the new node: its parent is n
                if a < t {
                    assert(m.paths[a] == m.paths[n]);
                    assert(a == n);
                } else {
                    assert(m2.paths[a].len() == p.len());
                }
            } else {
                if a < t {
                    assert(m.paths[t2].drop_last() == m.paths[a]);
                    assert(m.edges[a][c2] == t2);
                    if a == n && c2 == c {
                        assert(false);
                    }
                } else {
                    // a prefix of a covered string is covered
                    assert(covered(labels, i, k, m.paths[t2]));
                    lemma_covered_drop_last(labels, i, k, m.paths[t2]);
                    assert(false);
                }
            }
        }
    }
    assert(m2.values_sound(labels, i)) by {
        assert forall|a: int| m2.is_node(a) && (#[trigger] m2.values[a]) is Some implies exists|
            j: int,
        |
            0 <= j < i && j < labels.len() && #[trigger] labels[j] == (
                m2.paths[a],
                m2.values[a]->0,
            ) by {
            assert(a < t);
            assert(m.values[a] is Some);
            let j = choose|j: int|
                0 <= j < i && j < labels.len() && #[trigger] labels[j] == (
                    m.paths[a],
                    m.values[a]->0,
                );
            assert(labels[j] == (m2.paths[a], m2.values[a]->0));
        }
    }
    assert(m2.values_complete(labels, i)) by {
        assert forall|j: int, a: int|
            #![trigger labels[j], m2.paths[a]]
            0 <= j < i && j < labels.len() && m2.is_node(a) && m2.paths[a] == labels[j].0 implies m2.values[a]
            == Some(labels[j].1) by {
            if a < t {
                assert(m.paths[a] == labels[j].0);
            } else {
                assert(p.is_prefix_of(labels[j].0));
                assert(covered(labels, i, k, p));
            }
        }
    }
}

/// A label whose node accepts already repeats an earlier label.
pub proof fn lemma_repeat<V>(m: TrieModel<V>, labels: Seq<(Seq<u8>, V)>, i: int, n: int)
    requires
        0 <= i < labels.len(),
        m.wf(labels, i, labels[i].0.len() as int),
        m.is_node(n),
        m.paths[n] == labels[i].0,
        m.values[n] is Some,
    ensures
        !first_occurrence(labels, i),
{
    let j = choose|j: int|
        0 <= j < i && j < labels.len() && #[trigger] labels[j] == (m.paths[n], m.values[n]->0);
    assert(labels[j].0 == labels[i].0);
}

/// Letting the node of a label accept with the label's value gives the
/// trie that also holds that label.
pub proof fn lemma_finish<V>(m: TrieModel<V>, labels: Seq<(Seq<u8>, V)>, i: int, n: int)
    requires
        0 <= i < labels.len(),
        m.wf(labels, i, labels[i].0.len() as int),
        m.is_node(n),
        m.paths[n] == labels[i].0,
        m.values[n] is None,
    ensures
        m.with_value(n, labels[i].1).wf(labels, i + 1, 0),
        first_occurrence(labels, i),
{
    let m2 = m.with_value(n, labels[i].1);
    let full = labels[i].0.len() as int;
    assert forall|j: int| 0 <= j < i implies (#[trigger] labels[j]).0 != labels[i].0 by {
        if labels[j].0 == labels[i].0 {
            assert(m.values[n] == Some(labels[j].1));
        }
    }
    assert(no_repeats(labels, i + 1));
    assert forall|p: Seq<u8>| covered(labels, i, full, p) == covered(labels, i + 1, 0, p) by {
        if covered(labels, i + 1, 0, p) && p.len() > 0 {
            let j = choose|j: int|
                0 <= j < i + 1 && j < labels.len() && p.is_prefix_of((#[trigger] labels[j]).0);
            if j < i {
                assert(p.is_prefix_of(labels[j].0));
            }
        }
        if covered(labels, i, full, p) && p.len() > 0 {
            if exists|j: int|
                0 <= j < i && j < labels.len() && p.is_prefix_of((#[trigger] labels[j]).0) {
                let j = choose|j: int|
                    0 <= j < i && j < labels.len() && p.is_prefix_of((#[trigger] labels[j]).0);
                assert(p.is_prefix_of(labels[j].0));
            } else {
                assert(p.is_prefix_of(labels[i].0));
            }
        }
    }
    assert(m2.paths_covered(labels, i + 1, 0)) by {
        assert forall|a: int| m2.is_node(a) implies covered(
            labels,
            i + 1,
            0,
            #[trigger] m2.paths[a],
        ) by {
            assert(covered(labels, i, full, m.paths[a]));
        }
    }
    assert(m2.covers(labels, i + 1, 0)) by {
        assert forall|q: Seq<u8>| #[trigger] covered(labels, i + 1, 0, q) implies m2.has_node(
            q,
        ) by {
            assert(covered(labels, i, full, q));
            assert(m.has_node(q));
            let a = choose|a: int| m.is_node(a) && #[trigger] m.paths[a] == q;
            assert(m2.is_node(a) && m2.paths[a] == q);
        }
    }
    assert(m2.values_sound(labels, i + 1)) by {
        assert forall|a: int| m2.is_node(a) && (#[trigger] m2.values[a]) is Some implies exists|
            j: int,
        |
            0 <= j < i + 1 && j < labels.len() && #[trigger] labels[j] == (
                m2.paths[a],
                m2.values[a]->0,
            ) by {
            if a == n {
                assert(labels[i] == (m2.paths[a], m2.values[a]->0));
            } else {
                assert(m.values[a] is Some);
                let j = choose|j: int|
                    0 <= j < i && j < labels.len() && #[trigger] labels[j] == (
                        m.paths[a],
                        m.values[a]->0,
                    );
                assert(labels[j] == (m2.paths[a], m2.values[a]->0));
            }
        }
    }
    assert(m2.values_complete(labels, i + 1)) by {
        assert forall|j: int, a: int|
            #![trigger labels[j], m2.paths[a]]
            0 <= j < i + 1 && j < labels.len() && m2.is_node(a) && m2.paths[a]
                == labels[j].0 implies m2.values[a] == Some(labels[j].1) by {
            if j < i {
                assert(m.paths[a] == labels[j].0);
                assert(m.values[a] == Some(labels[j].1));
                assert(a != n);
            } else {
                assert(m.paths[a] == m.paths[n]);
                assert(a == n);
            }
        }
    }
    assert(m2.edges_sound(labels));
    assert(m2.edges_complete(labels));
}

/// Where the first `i` labels spell different byte strings, growing a trie
/// from them gives their trie.
pub proof fn lemma_grown<V>(labels: Seq<(Seq<u8>, V)>, i: int, k: int)
    requires
        0 <= i <= labels.len(),
        no_repeats(labels, i),
        i < labels.len() ==> 0 <= k <= labels[i].0.len(),
        i == labels.len() ==> k == 0,
    ensures
        grown(labels, i, k).wf(labels, i, k),
    decreases i, k,
{
    if i == 0 && k == 0 {
        lemma_root_only(labels);
    } else if k == 0 {
        let label = labels[i - 1];
        let full = label.0.len() as int;
        let before = grown(labels, i - 1, full);
        lemma_grown(labels, i - 1, full);
        assert(label.0.is_prefix_of(label.0));
        assert(covered(labels, i - 1, full, label.0));
        assert(before.has_node(label.0));
        let n = before.node_of(label.0);
        if before.values[n] is Some {
            lemma_repeat(before, labels, i - 1, n);
            let j = choose|j: int| 0 <= j < i - 1 && (#[trigger] labels[j]).0 == labels[i - 1].0;
            assert(labels[j].0 != labels[i - 1].0);
        }
        lemma_finish(before, labels, i - 1, n);
    } else {
        let before = grown(labels, i, k - 1);
        lemma_grown(labels, i, k - 1);
        let p = labels[i].0.take(k - 1);
        assert(p.is_prefix_of(labels[i].0));
        assert(covered(labels, i, k - 1, p));
        assert(before.has_node(p));
        let n = before.node_of(p);
        crate::alphabet::lemma_class_in_range(labels, labels[i].0[k - 1]);
        if before.edges[n][class_of(labels, labels[i].0[k - 1]) as int] == 0 {
            lemma_extend(before, labels, i, k - 1, n);
        } else {
            lemma_advance(before, labels, i, k - 1, n);
        }
    }
}

} // verus!
