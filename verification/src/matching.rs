//! What a search owes: the relation between a vocabulary of labels, an
//! input, and the result of an exact search or of a search for the longest
//! label at the start of the input.

use vstd::prelude::*;

verus! {

/// Whether no label before index `j` spells the same bytes as label `j`.
pub open spec fn first_occurrence<V>(labels: Seq<(Seq<u8>, V)>, j: int) -> bool {
    forall|i: int| 0 <= i < j ==> (#[trigger] labels[i]).0 != labels[j].0
}

/// Whether the first `n` labels spell `n` different byte strings.
pub open spec fn no_repeats<V>(labels: Seq<(Seq<u8>, V)>, n: int) -> bool {
    forall|i: int, j: int|
        0 <= i < j < n && j < labels.len() ==> (#[trigger] labels[i]).0 != (#[trigger] labels[j]).0
}

/// Whether `r` is what an exact search for `h` owes: the value of the first
/// label that spells `h`, or nothing if no label does.
pub open spec fn is_exact_match<V>(labels: Seq<(Seq<u8>, V)>, h: Seq<u8>, r: Option<V>) -> bool {
    match r {
        Some(v) => exists|j: int|
            0 <= j < labels.len() && #[trigger] labels[j] == (h, v) && first_occurrence(labels, j),
        None => forall|j: int| 0 <= j < labels.len() ==> (#[trigger] labels[j]).0 != h,
    }
}

/// Whether `r` is what a prefix search of `h` owes: the value and the length
/// of the longest label that `h` starts with, or nothing if it starts with no
/// label.
pub open spec fn is_longest_match<V>(
    labels: Seq<(Seq<u8>, V)>,
    h: Seq<u8>,
    r: Option<(V, usize)>,
) -> bool {
    match r {
        Some((v, n)) => {
            &&& n <= h.len()
            &&& is_exact_match(labels, h.take(n as int), Some(v))
            &&& forall|j: int|
                0 <= j < labels.len() && (#[trigger] labels[j]).0.is_prefix_of(h)
                    ==> labels[j].0.len() <= n
        },
        None => forall|j: int|
            0 <= j < labels.len() ==> !(#[trigger] labels[j]).0.is_prefix_of(h),
    }
}

/// An exact search owes one result only.
pub proof fn lemma_exact_match_unique<V>(
    labels: Seq<(Seq<u8>, V)>,
    h: Seq<u8>,
    r1: Option<V>,
    r2: Option<V>,
)
    requires
        is_exact_match(labels, h, r1),
        is_exact_match(labels, h, r2),
    ensures
        r1 == r2,
{
    if r1 is Some {
        let j1 = choose|j: int|
            0 <= j < labels.len() && #[trigger] labels[j] == (h, r1->0) && first_occurrence(
                labels,
                j,
            );
        assert(labels[j1].0 == h);
        if r2 is Some {
            let j2 = choose|j: int|
                0 <= j < labels.len() && #[trigger] labels[j] == (h, r2->0) && first_occurrence(
                    labels,
                    j,
                );
            assert(labels[j2].0 == h);
            if j1 < j2 {
                assert(labels[j1].0 != labels[j2].0);
            } else if j2 < j1 {
                assert(labels[j2].0 != labels[j1].0);
            }
        }
    } else if r2 is Some {
        let j2 = choose|j: int|
            0 <= j < labels.len() && #[trigger] labels[j] == (h, r2->0) && first_occurrence(
                labels,
                j,
            );
        assert(labels[j2].0 == h);
    }
}

/// A prefix search owes one result only.
pub proof fn lemma_longest_match_unique<V>(
    labels: Seq<(Seq<u8>, V)>,
    h: Seq<u8>,
    r1: Option<(V, usize)>,
    r2: Option<(V, usize)>,
)
    requires
        is_longest_match(labels, h, r1),
        is_longest_match(labels, h, r2),
    ensures
        r1 == r2,
{
    match (r1, r2) {
        (Some((v1, n1)), Some((v2, n2))) => {
            let j1 = choose|j: int|
                0 <= j < labels.len() && #[trigger] labels[j] == (h.take(n1 as int), v1)
                    && first_occurrence(labels, j);
            let j2 = choose|j: int|
                0 <= j < labels.len() && #[trigger] labels[j] == (h.take(n2 as int), v2)
                    && first_occurrence(labels, j);
            assert(labels[j1].0.is_prefix_of(h));
            assert(labels[j2].0.is_prefix_of(h));
            assert(n1 == n2);
            lemma_exact_match_unique(labels, h.take(n1 as int), Some(v1), Some(v2));
        },
        (Some((v1, n1)), None) => {
            let j1 = choose|j: int|
                0 <= j < labels.len() && #[trigger] labels[j] == (h.take(n1 as int), v1)
                    && first_occurrence(labels, j);
            assert(labels[j1].0.is_prefix_of(h));
        },
        (None, Some((v2, n2))) => {
            let j2 = choose|j: int|
                0 <= j < labels.len() && #[trigger] labels[j] == (h.take(n2 as int), v2)
                    && first_occurrence(labels, j);
            assert(labels[j2].0.is_prefix_of(h));
        },
        (None, None) => {},
    }
}

/// No false accepts: an input that is none of the labels gets no result from
/// an exact search, and an input that starts with none of the labels gets no
/// result from a prefix search.
pub proof fn lemma_no_false_accept<V>(
    labels: Seq<(Seq<u8>, V)>,
    h: Seq<u8>,
    exact: Option<V>,
    longest: Option<(V, usize)>,
)
    requires
        is_exact_match(labels, h, exact),
        is_longest_match(labels, h, longest),
    ensures
        (forall|j: int| 0 <= j < labels.len() ==> (#[trigger] labels[j]).0 != h) ==> exact is None,
        (forall|j: int| 0 <= j < labels.len() ==> !(#[trigger] labels[j]).0.is_prefix_of(h))
            ==> longest is None,
{
    if exact is Some {
        let j = choose|j: int|
            0 <= j < labels.len() && #[trigger] labels[j] == (h, exact->0) && first_occurrence(
                labels,
                j,
            );
        assert(labels[j].0 == h);
    }
    match longest {
        Some((v, n)) => {
            let j = choose|j: int|
                0 <= j < labels.len() && #[trigger] labels[j] == (h.take(n as int), v)
                    && first_occurrence(labels, j);
            assert(labels[j].0.is_prefix_of(h));
        },
        None => {},
    }
}

/// Exact accepts: where the labels spell different byte strings, an exact
/// search for a label gives the label's value.
pub proof fn lemma_exact_accept<V>(labels: Seq<(Seq<u8>, V)>, j: int, r: Option<V>)
    requires
        0 <= j < labels.len(),
        no_repeats(labels, labels.len() as int),
        is_exact_match(labels, labels[j].0, r),
    ensures
        r == Some(labels[j].1),
{
    assert(labels[j] == (labels[j].0, labels[j].1));
    assert(first_occurrence(labels, j));
    lemma_exact_match_unique(labels, labels[j].0, r, Some(labels[j].1));
}

/// Exact accepts: where the labels spell different byte strings, a prefix
/// search of a label followed by any bytes gives the label's value and
/// length, unless the input also starts with a longer label.
pub proof fn lemma_prefix_accept<V>(
    labels: Seq<(Seq<u8>, V)>,
    j: int,
    trailing: Seq<u8>,
    r: Option<(V, usize)>,
)
    requires
        0 <= j < labels.len(),
        no_repeats(labels, labels.len() as int),
        is_longest_match(labels, labels[j].0 + trailing, r),
        forall|k: int|
            0 <= k < labels.len() && (#[trigger] labels[k]).0.is_prefix_of(labels[j].0 + trailing)
                ==> labels[k].0.len() <= labels[j].0.len(),
    ensures
        labels[j].0.len() <= usize::MAX,
        r == Some((labels[j].1, labels[j].0.len() as usize)),
{
    let h = labels[j].0 + trailing;
    let n = labels[j].0.len();
    assert(labels[j].0.is_prefix_of(h));
    match r {
        Some((v, m)) => {
            let k = choose|k: int|
                0 <= k < labels.len() && #[trigger] labels[k] == (h.take(m as int), v)
                    && first_occurrence(labels, k);
            assert(labels[k].0.is_prefix_of(h));
            assert(m == n);
            assert(h.take(n as int) =~= labels[j].0);
            lemma_exact_accept(labels, j, Some(v));
        },
        None => {},
    }
}

/// The longest label wins: a prefix search of an input that starts with a
/// label finds a label at least as long, and no label that the input starts
/// with is longer than the one found.
pub proof fn lemma_longest_wins<V>(
    labels: Seq<(Seq<u8>, V)>,
    h: Seq<u8>,
    j: int,
    r: Option<(V, usize)>,
)
    requires
        0 <= j < labels.len(),
        labels[j].0.is_prefix_of(h),
        is_longest_match(labels, h, r),
    ensures
        match r {
            Some((_, n)) => labels[j].0.len() <= n <= h.len(),
            None => false,
        },
{
}

/// Of two labels of which one starts with the other, a prefix search of the
/// longer one finds the longer one, and a prefix search of the shorter one
/// followed by bytes with which no label goes on finds the shorter one.
pub proof fn lemma_longer_label_wins<V>(
    labels: Seq<(Seq<u8>, V)>,
    short: int,
    long: int,
    r: Option<(V, usize)>,
)
    requires
        0 <= short < labels.len(),
        0 <= long < labels.len(),
        no_repeats(labels, labels.len() as int),
        labels[short].0.is_prefix_of(labels[long].0),
        is_longest_match(labels, labels[long].0, r),
    ensures
        labels[long].0.len() <= usize::MAX,
        r == Some((labels[long].1, labels[long].0.len() as usize)),
{
    let h = labels[long].0;
    assert(h + Seq::<u8>::empty() =~= h);
    assert forall|k: int|
        0 <= k < labels.len() && (#[trigger] labels[k]).0.is_prefix_of(h) implies labels[k].0.len()
        <= h.len() by {}
    lemma_prefix_accept(labels, long, Seq::empty(), r);
}

} // verus!
