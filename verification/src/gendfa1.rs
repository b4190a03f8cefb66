//! The automaton of the designators, written out state by state: each state
//! stands for a prefix of a designator, and each byte leads to the state of
//! the prefix that is longer by that byte, if there is such a prefix.

use vstd::prelude::*;
use crate::designator::designators;
use crate::designator_facts::designator_bytes;
use crate::designator_facts::lemma_designator_bytes;
use crate::designator_facts::lemma_designators_fit;
use crate::designator_facts::DESIGNATORS;
use crate::matching::first_occurrence;
use crate::matching::is_longest_match;
use crate::model::is_label_prefix;
use crate::model::lemma_leaves;
use crate::Unit;

verus! {

/// The number of states.
pub const STATES: u8 = 98;

/// The prefix that each state stands for.
#[verifier::opaque]
pub open spec fn state_paths() -> Seq<Seq<u8>> {
    seq![
        seq![],
        seq![0x64],
        seq![0x68],
        seq![0x6d],
        seq![0x6e],
        seq![0x73],
        seq![0x75],
        seq![0x77],
        seq![0x79],
        seq![0xc2],
        seq![0x64, 0x61],
        seq![0x68, 0x6f],
        seq![0x68, 0x72],
        seq![0x6d, 0x69],
        seq![0x6d, 0x6f],
        seq![0x6d, 0x73],
        seq![0x6e, 0x61],
        seq![0x6e, 0x73],
        seq![0x73, 0x65],
        seq![0x75, 0x73],
        seq![0x77, 0x65],
        seq![0x77, 0x6b],
        seq![0x79, 0x65],
        seq![0x79, 0x72],
        seq![0xc2, 0xb5],
        seq![0x64, 0x61, 0x79],
        seq![0x68, 0x6f, 0x75],
        seq![0x68, 0x72, 0x73],
        seq![0x6d, 0x69, 0x63],
        seq![0x6d, 0x69, 0x6c],
        seq![0x6d, 0x69, 0x6e],
        seq![0x6d, 0x6f, 0x6e],
        seq![0x6d, 0x6f, 0x73],
        seq![0x6d, 0x73, 0x65],
        seq![0x6e, 0x61, 0x6e],
        seq![0x6e, 0x73, 0x65],
        seq![0x73, 0x65, 0x63],
        seq![0x75, 0x73, 0x65],
        seq![0x77, 0x65, 0x65],
        seq![0x77, 0x6b, 0x73],
        seq![0x79, 0x65, 0x61],
        seq![0x79, 0x72, 0x73],
        seq![0xc2, 0xb5, 0x73],
        seq![0x64, 0x61, 0x79, 0x73],
        seq![0x68, 0x6f, 0x75, 0x72],
        seq![0x6d, 0x69, 0x63, 0x72],
        seq![0x6d, 0x69, 0x6c, 0x6c],
        seq![0x6d, 0x69, 0x6e, 0x73],
        seq![0x6d, 0x69, 0x6e, 0x75],
        seq![0x6d, 0x6f, 0x6e, 0x74],
        seq![0x6d, 0x73, 0x65, 0x63],
        seq![0x6e, 0x61, 0x6e, 0x6f],
        seq![0x6e, 0x73, 0x65, 0x63],
        seq![0x73, 0x65, 0x63, 0x6f],
        seq![0x73, 0x65, 0x63, 0x73],
        seq![0x75, 0x73, 0x65, 0x63],
        seq![0x77, 0x65, 0x65, 0x6b],
        seq![0x79, 0x65, 0x61, 0x72],
        seq![0xc2, 0xb5, 0x73, 0x65],
        seq![0x68, 0x6f, 0x75, 0x72, 0x73],
        seq![0x6d, 0x69, 0x63, 0x72, 0x6f],
        seq![0x6d, 0x69, 0x6c, 0x6c, 0x69],
        seq![0x6d, 0x69, 0x6e, 0x75, 0x74],
        seq![0x6d, 0x6f, 0x6e, 0x74, 0x68],
        seq![0x6d, 0x73, 0x65, 0x63, 0x73],
        seq![0x6e, 0x61, 0x6e, 0x6f, 0x73],
        seq![0x6e, 0x73, 0x65, 0x63, 0x73],
        seq![0x73, 0x65, 0x63, 0x6f, 0x6e],
        seq![0x75, 0x73, 0x65, 0x63, 0x73],
        seq![0x77, 0x65, 0x65, 0x6b, 0x73],
        seq![0x79, 0x65, 0x61, 0x72, 0x73],
        seq![0xc2, 0xb5, 0x73, 0x65, 0x63],
        seq![0x6d, 0x69, 0x63, 0x72, 0x6f, 0x73],
        seq![0x6d, 0x69, 0x6c, 0x6c, 0x69, 0x73],
        seq![0x6d, 0x69, 0x6e, 0x75, 0x74, 0x65],
        seq![0x6d, 0x6f, 0x6e, 0x74, 0x68, 0x73],
        seq![0x6e, 0x61, 0x6e, 0x6f, 0x73, 0x65],
        seq![0x73, 0x65, 0x63, 0x6f, 0x6e, 0x64],
        seq![0xc2, 0xb5, 0x73, 0x65, 0x63, 0x73],
        seq![0x6d, 0x69, 0x63, 0x72, 0x6f, 0x73, 0x65],
        seq![0x6d, 0x69, 0x6c, 0x6c, 0x69, 0x73, 0x65],
        seq![0x6d, 0x69, 0x6e, 0x75, 0x74, 0x65, 0x73],
        seq![0x6e, 0x61, 0x6e, 0x6f, 0x73, 0x65, 0x63],
        seq![0x73, 0x65, 0x63, 0x6f, 0x6e, 0x64, 0x73],
        seq![0x6d, 0x69, 0x63, 0x72, 0x6f, 0x73, 0x65, 0x63],
        seq![0x6d, 0x69, 0x6c, 0x6c, 0x69, 0x73, 0x65, 0x63],
        seq![0x6e, 0x61, 0x6e, 0x6f, 0x73, 0x65, 0x63, 0x6f],
        seq![0x6d, 0x69, 0x63, 0x72, 0x6f, 0x73, 0x65, 0x63, 0x6f],
        seq![0x6d, 0x69, 0x6c, 0x6c, 0x69, 0x73, 0x65, 0x63, 0x6f],
        seq![0x6e, 0x61, 0x6e, 0x6f, 0x73, 0x65, 0x63, 0x6f, 0x6e],
        seq![0x6d, 0x69, 0x63, 0x72, 0x6f, 0x73, 0x65, 0x63, 0x6f, 0x6e],
        seq![0x6d, 0x69, 0x6c, 0x6c, 0x69, 0x73, 0x65, 0x63, 0x6f, 0x6e],
        seq![0x6e, 0x61, 0x6e, 0x6f, 0x73, 0x65, 0x63, 0x6f, 0x6e, 0x64],
        seq![0x6d, 0x69, 0x63, 0x72, 0x6f, 0x73, 0x65, 0x63, 0x6f, 0x6e, 0x64],
        seq![0x6d, 0x69, 0x6c, 0x6c, 0x69, 0x73, 0x65, 0x63, 0x6f, 0x6e, 0x64],
        seq![0x6e, 0x61, 0x6e, 0x6f, 0x73, 0x65, 0x63, 0x6f, 0x6e, 0x64, 0x73],
        seq![0x6d, 0x69, 0x63, 0x72, 0x6f, 0x73, 0x65, 0x63, 0x6f, 0x6e, 0x64, 0x73],
        seq![0x6d, 0x69, 0x6c, 0x6c, 0x69, 0x73, 0x65, 0x63, 0x6f, 0x6e, 0x64, 0x73],
    ]
}

/// For each state but the first, the state that leads to it and the byte
/// that does.
#[verifier::opaque]
pub open spec fn state_edges() -> Seq<(int, u8)> {
    seq![
        (0, 0x00), (0, 0x64), (0, 0x68), (0, 0x6d), (0, 0x6e), (0, 0x73), (0, 0x75),
        (0, 0x77), (0, 0x79), (0, 0xc2), (1, 0x61), (2, 0x6f), (2, 0x72), (3, 0x69),
        (3, 0x6f), (3, 0x73), (4, 0x61), (4, 0x73), (5, 0x65), (6, 0x73), (7, 0x65),
        (7, 0x6b), (8, 0x65), (8, 0x72), (9, 0xb5), (10, 0x79), (11, 0x75), (12, 0x73),
        (13, 0x63), (13, 0x6c), (13, 0x6e), (14, 0x6e), (14, 0x73), (15, 0x65), (16, 0x6e),
        (17, 0x65), (18, 0x63), (19, 0x65), (20, 0x65), (21, 0x73), (22, 0x61), (23, 0x73),
        (24, 0x73), (25, 0x73), (26, 0x72), (28, 0x72), (29, 0x6c), (30, 0x73), (30, 0x75),
        (31, 0x74), (33, 0x63), (34, 0x6f), (35, 0x63), (36, 0x6f), (36, 0x73), (37, 0x63),
        (38, 0x6b), (40, 0x72), (42, 0x65), (44, 0x73), (45, 0x6f), (46, 0x69), (48, 0x74),
        (49, 0x68), (50, 0x73), (51, 0x73), (52, 0x73), (53, 0x6e), (55, 0x73), (56, 0x73),
        (57, 0x73), (58, 0x63), (60, 0x73), (61, 0x73), (62, 0x65), (63, 0x73), (65, 0x65),
        (67, 0x64), (71, 0x73), (72, 0x65), (73, 0x65), (74, 0x73), (76, 0x63), (77, 0x73),
        (79, 0x63), (80, 0x63), (82, 0x6f), (84, 0x6f), (85, 0x6f), (86, 0x6e), (87, 0x6e),
        (88, 0x6e), (89, 0x64), (90, 0x64), (91, 0x64), (92, 0x73), (93, 0x73), (94, 0x73),
    ]
}

/// For each designator, the states that it leads through, from the first
/// state to the state of the designator.
#[verifier::opaque]
pub open spec fn label_states() -> Seq<Seq<int>> {
    seq![
        seq![0, 8, 22, 40, 57, 70],
        seq![0, 8, 22, 40, 57],
        seq![0, 8, 23, 41],
        seq![0, 8, 23],
        seq![0, 8],
        seq![0, 3, 14, 31, 49, 63, 75],
        seq![0, 3, 14, 31, 49, 63],
        seq![0, 3, 14, 32],
        seq![0, 3, 14],
        seq![0, 7, 20, 38, 56, 69],
        seq![0, 7, 20, 38, 56],
        seq![0, 7, 21, 39],
        seq![0, 7, 21],
        seq![0, 7],
        seq![0, 1, 10, 25, 43],
        seq![0, 1, 10, 25],
        seq![0, 1],
        seq![0, 2, 11, 26, 44, 59],
        seq![0, 2, 11, 26, 44],
        seq![0, 2, 12, 27],
        seq![0, 2, 12],
        seq![0, 2],
        seq![0, 3, 13, 30, 48, 62, 74, 81],
        seq![0, 3, 13, 30, 48, 62, 74],
        seq![0, 3, 13, 30, 47],
        seq![0, 3, 13, 30],
        seq![0, 3],
        seq![0, 5, 18, 36, 53, 67, 77, 83],
        seq![0, 5, 18, 36, 53, 67, 77],
        seq![0, 5, 18, 36, 54],
        seq![0, 5, 18, 36],
        seq![0, 5],
        seq![0, 3, 13, 29, 46, 61, 73, 80, 85, 88, 91, 94, 97],
        seq![0, 3, 13, 29, 46, 61, 73, 80, 85, 88, 91, 94],
        seq![0, 3, 13, 29, 46, 61, 73],
        seq![0, 3, 13, 29, 46, 61],
        seq![0, 3, 15, 33, 50, 64],
        seq![0, 3, 15, 33, 50],
        seq![0, 3, 15],
        seq![0, 3, 13, 28, 45, 60, 72, 79, 84, 87, 90, 93, 96],
        seq![0, 3, 13, 28, 45, 60, 72, 79, 84, 87, 90, 93],
        seq![0, 3, 13, 28, 45, 60, 72],
        seq![0, 3, 13, 28, 45, 60],
        seq![0, 6, 19, 37, 55, 68],
        seq![0, 6, 19, 37, 55],
        seq![0, 9, 24, 42, 58, 71, 78],
        seq![0, 9, 24, 42, 58, 71],
        seq![0, 6, 19],
        seq![0, 9, 24, 42],
        seq![0, 4, 16, 34, 51, 65, 76, 82, 86, 89, 92, 95],
        seq![0, 4, 16, 34, 51, 65, 76, 82, 86, 89, 92],
        seq![0, 4, 16, 34, 51, 65],
        seq![0, 4, 16, 34, 51],
        seq![0, 4, 17, 35, 52, 66],
        seq![0, 4, 17, 35, 52],
        seq![0, 4, 17],
    ]
}

/// For each state, the longest designator that its prefix starts with, or -1
/// if it starts with none.
#[verifier::opaque]
pub open spec fn state_matches() -> Seq<int> {
    seq![
        -1, 16, 21, 26, -1, 31, -1, 13, 4, -1, 16, 21, 20, 26,
        8, 38, -1, 55, 31, 47, 13, 12, 4, 3, -1, 15, 21, 19,
        26, 26, 25, 8, 7, 38, -1, 55, 30, 47, 13, 11, 4, 2,
        48, 14, 18, 26, 26, 24, 25, 8, 37, 52, 54, 30, 29, 44,
        10, 1, 48, 17, 42, 35, 25, 6, 36, 51, 53, 30, 43, 9,
        0, 46, 41, 34, 23, 5, 51, 28, 45, 41, 34, 22, 51, 27,
        41, 34, 51, 41, 34, 51, 41, 34, 50, 40, 33, 49, 39, 32,
    ]
}

/// An edge leads to the state of the prefix that is longer by its byte.
proof fn lemma_edge(t: int)
    requires
        0 < t < STATES,
    ensures
        0 <= state_edges()[t].0 < t,
        state_paths()[t] == state_paths()[state_edges()[t].0].push(state_edges()[t].1),
        state_paths().len() == STATES,
        state_paths()[0].len() == 0,
{
    reveal(state_paths);
    reveal(state_edges);
    assert(state_paths()[t] =~= state_paths()[state_edges()[t].0].push(state_edges()[t].1));
}

/// Two states stand for two prefixes.
proof fn lemma_states_differ(a: int, b: int)
    requires
        0 <= a < b < STATES,
    ensures
        state_paths()[a] != state_paths()[b],
{
    reveal(state_paths);
    let p = state_paths()[a];
    let q = state_paths()[b];
    if p.len() == q.len() {
        assert(p[0] != q[0] || p[1] != q[1] || p[2] != q[2] || p[3] != q[3] || p[4] != q[4] || p[5]
            != q[5] || p[6] != q[6] || p[7] != q[7] || p[8] != q[8] || p[9] != q[9] || p[10]
            != q[10] || p[11] != q[11]);
    }
}

/// Every prefix of a designator is the prefix of a state.
proof fn lemma_label_state(j: int, n: int)
    requires
        0 <= j < DESIGNATORS,
        0 <= n <= designator_bytes()[j].0.len(),
    ensures
        0 <= label_states()[j][n] < STATES,
        state_paths()[label_states()[j][n]] == designator_bytes()[j].0.take(n),
{
    reveal(state_paths);
    reveal(label_states);
    reveal(designator_bytes);
    assert(state_paths()[label_states()[j][n]] =~= designator_bytes()[j].0.take(n));
}

/// Where no edge leads from the state `sid` by `byte`, no designator starts
/// with the prefix of `sid` with `byte` after it.
proof fn lemma_no_edge(sid: int, byte: u8)
    requires
        0 <= sid < STATES,
        forall|t: int| 0 < t < STATES ==> #[trigger] state_edges()[t] != (sid, byte),
    ensures
        !is_label_prefix(designator_bytes(), state_paths()[sid].push(byte)),
{
    let p = state_paths()[sid].push(byte);
    let labels = designator_bytes();
    lemma_designators_fit();
    lemma_designator_bytes();
    if is_label_prefix(labels, p) {
        let j = choose|j: int| 0 <= j < labels.len() && p.is_prefix_of((#[trigger] labels[j]).0);
        lemma_label_state(j, p.len() as int);
        let t = label_states()[j][p.len() as int];
        assert(state_paths()[t] =~= p);
        lemma_edge(1);
        lemma_edge(t);
        let from = state_edges()[t].0;
        assert(state_paths()[from] =~= p.drop_last());
        assert(p.drop_last() =~= state_paths()[sid]);
        assert(state_edges()[t].1 == p.last());
        if from < sid {
            lemma_states_differ(from, sid);
        } else if sid < from {
            lemma_states_differ(sid, from);
        }
        assert(state_edges()[t] == (sid, byte));
    }
}

/// What `state_matches` says of a state holds of every designator that the
/// prefix of the state starts with: the designator named is one, and is at
/// least as long.
proof fn lemma_state_match(sid: int, i: int)
    requires
        0 <= sid < STATES,
        0 <= i < DESIGNATORS,
        state_paths().len() == STATES,
        designator_bytes().len() == DESIGNATORS,
        designator_bytes()[i].0.is_prefix_of(state_paths()[sid]),
    ensures
        0 <= state_matches()[sid] < DESIGNATORS,
        designator_bytes()[i].0.len() <= designator_bytes()[state_matches()[sid]].0.len(),
{
    reveal(state_paths);
    reveal(state_matches);
    reveal(designator_bytes);
    let p = state_paths()[sid];
    let a = designator_bytes()[i].0;
    assert(a =~= p.subrange(0, a.len() as int));
    assert(a.len() == 0 || a[0] == p[0]);
    assert(a.len() <= 1 || a[1] == p[1]);
    assert(a.len() <= 2 || a[2] == p[2]);
}

/// The designator that `state_matches` names for a state is one that the
/// prefix of the state starts with.
proof fn lemma_state_matched(sid: int)
    requires
        0 <= sid < STATES,
        state_matches()[sid] >= 0,
    ensures
        0 <= state_matches()[sid] < DESIGNATORS,
        designator_bytes()[state_matches()[sid]].0.len() <= state_paths()[sid].len(),
        designator_bytes()[state_matches()[sid]].0 == state_paths()[sid].take(
            designator_bytes()[state_matches()[sid]].0.len() as int,
        ),
{
    reveal(state_paths);
    reveal(state_matches);
    reveal(designator_bytes);
    let b = designator_bytes()[state_matches()[sid]].0;
    assert(b =~= state_paths()[sid].take(b.len() as int));
}

/// The state that `byte` leads to from the state `sid`, if the prefix of
/// `sid` with `byte` after it is a prefix of a designator.
pub fn step(sid: u8, byte: u8) -> (next: Option<u8>)
    requires
        sid < STATES,
    ensures
        match next {
            Some(t) => t < STATES && state_paths()[t as int] == state_paths()[sid as int].push(byte),
            None => !is_label_prefix(designators(), state_paths()[sid as int].push(byte)),
        },
{
    let next = next_state(sid, byte);
    proof {
        lemma_designator_bytes();
        match next {
            Some(t) => lemma_edge(t as int),
            None => lemma_no_edge(sid as int, byte),
        }
    }
    next
}

/// The state that the edge from the state `sid` by `byte` leads to, if
/// there is such an edge.
fn next_state(sid: u8, byte: u8) -> (next: Option<u8>)
    requires
        sid < STATES,
    ensures
        match next {
            Some(t) => 0 < t < STATES && state_edges()[t as int] == (sid as int, byte),
            None => forall|t: int| 0 < t < STATES ==> #[trigger] state_edges()[t] != (sid as int, byte),
        },
{
    proof {
        reveal(state_edges);
    }
    match sid {
        // nothing yet
        0 => match byte {
            0x64 => Some(1),
            0x68 => Some(2),
            0x6d => Some(3),
            0x6e => Some(4),
            0x73 => Some(5),
            0x75 => Some(6),
            0x77 => Some(7),
            0x79 => Some(8),
            0xc2 => Some(9),
            _ => None,
        },
        // "d"
        1 => match byte {
            0x61 => Some(10),
            _ => None,
        },
        // "h"
        2 => match byte {
            0x6f => Some(11),
            0x72 => Some(12),
            _ => None,
        },
        // "m"
        3 => match byte {
            0x69 => Some(13),
            0x6f => Some(14),
            0x73 => Some(15),
            _ => None,
        },
        // "n"
        4 => match byte {
            0x61 => Some(16),
            0x73 => Some(17),
            _ => None,
        },
        // "s"
        5 => match byte {
            0x65 => Some(18),
            _ => None,
        },
        // "u"
        6 => match byte {
            0x73 => Some(19),
            _ => None,
        },
        // "w"
        7 => match byte {
            0x65 => Some(20),
            0x6b => Some(21),
            _ => None,
        },
        // "y"
        8 => match byte {
            0x65 => Some(22),
            0x72 => Some(23),
            _ => None,
        },
        // the first byte of "µ"
        9 => match byte {
            0xb5 => Some(24),
            _ => None,
        },
        // "da"
        10 => match byte {
            0x79 => Some(25),
            _ => None,
        },
        // "ho"
        11 => match byte {
            0x75 => Some(26),
            _ => None,
        },
        // "hr"
        12 => match byte {
            0x73 => Some(27),
            _ => None,
        },
        // "mi"
        13 => match byte {
            0x63 => Some(28),
            0x6c => Some(29),
            0x6e => Some(30),
            _ => None,
        },
        // "mo"
        14 => match byte {
            0x6e => Some(31),
            0x73 => Some(32),
            _ => None,
        },
        // "ms"
        15 => match byte {
            0x65 => Some(33),
            _ => None,
        },
        // "na"
        16 => match byte {
            0x6e => Some(34),
            _ => None,
        },
        // "ns"
        17 => match byte {
            0x65 => Some(35),
            _ => None,
        },
        // "se"
        18 => match byte {
            0x63 => Some(36),
            _ => None,
        },
        // "us"
        19 => match byte {
            0x65 => Some(37),
            _ => None,
        },
        // "we"
        20 => match byte {
            0x65 => Some(38),
            _ => None,
        },
        // "wk"
        21 => match byte {
            0x73 => Some(39),
            _ => None,
        },
        // "ye"
        22 => match byte {
            0x61 => Some(40),
            _ => None,
        },
        // "yr"
        23 => match byte {
            0x73 => Some(41),
            _ => None,
        },
        // "µ"
        24 => match byte {
            0x73 => Some(42),
            _ => None,
        },
        // "day"
        25 => match byte {
            0x73 => Some(43),
            _ => None,
        },
        // "hou"
        26 => match byte {
            0x72 => Some(44),
            _ => None,
        },
        // "mic"
        28 => match byte {
            0x72 => Some(45),
            _ => None,
        },
        // "mil"
        29 => match byte {
            0x6c => Some(46),
            _ => None,
        },
        // "min"
        30 => match byte {
            0x73 => Some(47),
            0x75 => Some(48),
            _ => None,
        },
        // "mon"
        31 => match byte {
            0x74 => Some(49),
            _ => None,
        },
        // "mse"
        33 => match byte {
            0x63 => Some(50),
            _ => None,
        },
        // "nan"
        34 => match byte {
            0x6f => Some(51),
            _ => None,
        },
        // "nse"
        35 => match byte {
            0x63 => Some(52),
            _ => None,
        },
        // "sec"
        36 => match byte {
            0x6f => Some(53),
            0x73 => Some(54),
            _ => None,
        },
        // "use"
        37 => match byte {
            0x63 => Some(55),
            _ => None,
        },
        // "wee"
        38 => match byte {
            0x6b => Some(56),
            _ => None,
        },
        // "yea"
        40 => match byte {
            0x72 => Some(57),
            _ => None,
        },
        // "µs"
        42 => match byte {
            0x65 => Some(58),
            _ => None,
        },
        // "hour"
        44 => match byte {
            0x73 => Some(59),
            _ => None,
        },
        // "micr"
        45 => match byte {
            0x6f => Some(60),
            _ => None,
        },
        // "mill"
        46 => match byte {
            0x69 => Some(61),
            _ => None,
        },
        // "minu"
        48 => match byte {
            0x74 => Some(62),
            _ => None,
        },
        // "mont"
        49 => match byte {
            0x68 => Some(63),
            _ => None,
        },
        // "msec"
        50 => match byte {
            0x73 => Some(64),
            _ => None,
        },
        // "nano"
        51 => match byte {
            0x73 => Some(65),
            _ => None,
        },
        // "nsec"
        52 => match byte {
            0x73 => Some(66),
            _ => None,
        },
        // "seco"
        53 => match byte {
            0x6e => Some(67),
            _ => None,
        },
        // "usec"
        55 => match byte {
            0x73 => Some(68),
            _ => None,
        },
        // "week"
        56 => match byte {
            0x73 => Some(69),
            _ => None,
        },
        // "year"
        57 => match byte {
            0x73 => Some(70),
            _ => None,
        },
        // "µse"
        58 => match byte {
            0x63 => Some(71),
            _ => None,
        },
        // "micro"
        60 => match byte {
            0x73 => Some(72),
            _ => None,
        },
        // "milli"
        61 => match byte {
            0x73 => Some(73),
            _ => None,
        },
        // "minut"
        62 => match byte {
            0x65 => Some(74),
            _ => None,
        },
        // "month"
        63 => match byte {
            0x73 => Some(75),
            _ => None,
        },
        // "nanos"
        65 => match byte {
            0x65 => Some(76),
            _ => None,
        },
        // "secon"
        67 => match byte {
            0x64 => Some(77),
            _ => None,
        },
        // "µsec"
        71 => match byte {
            0x73 => Some(78),
            _ => None,
        },
        // "micros"
        72 => match byte {
            0x65 => Some(79),
            _ => None,
        },
        // "millis"
        73 => match byte {
            0x65 => Some(80),
            _ => None,
        },
        // "minute"
        74 => match byte {
            0x73 => Some(81),
            _ => None,
        },
        // "nanose"
        76 => match byte {
            0x63 => Some(82),
            _ => None,
        },
        // "second"
        77 => match byte {
            0x73 => Some(83),
            _ => None,
        },
        // "microse"
        79 => match byte {
            0x63 => Some(84),
            _ => None,
        },
        // "millise"
        80 => match byte {
            0x63 => Some(85),
            _ => None,
        },
        // "nanosec"
        82 => match byte {
            0x6f => Some(86),
            _ => None,
        },
        // "microsec"
        84 => match byte {
            0x6f => Some(87),
            _ => None,
        },
        // "millisec"
        85 => match byte {
            0x6f => Some(88),
            _ => None,
        },
        // "nanoseco"
        86 => match byte {
            0x6e => Some(89),
            _ => None,
        },
        // "microseco"
        87 => match byte {
            0x6e => Some(90),
            _ => None,
        },
        // "milliseco"
        88 => match byte {
            0x6e => Some(91),
            _ => None,
        },
        // "nanosecon"
        89 => match byte {
            0x64 => Some(92),
            _ => None,
        },
        // "microsecon"
        90 => match byte {
            0x64 => Some(93),
            _ => None,
        },
        // "millisecon"
        91 => match byte {
            0x64 => Some(94),
            _ => None,
        },
        // "nanosecond"
        92 => match byte {
            0x73 => Some(95),
            _ => None,
        },
        // "microsecond"
        93 => match byte {
            0x73 => Some(96),
            _ => None,
        },
        // "millisecond"
        94 => match byte {
            0x73 => Some(97),
            _ => None,
        },
        _ => None,
    }
}

/// The unit and the length of the longest designator that the prefix of
/// the state starts with, if it starts with one.
pub fn best(sid: u8) -> (r: Option<(Unit, usize)>)
    requires
        sid < STATES,
    ensures
        is_longest_match(designators(), state_paths()[sid as int], r),
{
    let r = state_unit(sid);
    proof {
        let labels = designator_bytes();
        let p = state_paths()[sid as int];
        lemma_designator_bytes();
        lemma_designators_fit();
        lemma_edge(1);
        match r {
            Some((unit, n)) => {
                let j = state_matches()[sid as int];
                lemma_state_matched(sid as int);
                assert(labels[j] == (p.take(n as int), unit));
                assert(first_occurrence(labels, j));
                assert forall|i: int|
                    0 <= i < labels.len() && (#[trigger] labels[i]).0.is_prefix_of(
                        p,
                    ) implies labels[i].0.len() <= n by {
                    lemma_state_match(sid as int, i);
                }
            },
            None => {
                assert forall|i: int| 0 <= i < labels.len() implies !(#[trigger] labels[i]).0.is_prefix_of(
                p) by {
                    if labels[i].0.is_prefix_of(p) {
                        lemma_state_match(sid as int, i);
                    }
                }
            },
        }
    }
    r
}

/// The unit and the length of the designator that `state_matches` names
/// for the state.
fn state_unit(sid: u8) -> (r: Option<(Unit, usize)>)
    requires
        sid < STATES,
    ensures
        match r {
            Some((unit, n)) => {
                &&& 0 <= state_matches()[sid as int] < DESIGNATORS
                &&& designator_bytes()[state_matches()[sid as int]].1 == unit
                &&& designator_bytes()[state_matches()[sid as int]].0.len() == n
            },
            None => state_matches()[sid as int] == -1,
        },
{
    proof {
        reveal(state_matches);
        reveal(designator_bytes);
    }
    match sid {
        1 => Some((Unit::Day, 1)),
        2 => Some((Unit::Hour, 1)),
        3 => Some((Unit::Minute, 1)),
        5 => Some((Unit::Second, 1)),
        7 => Some((Unit::Week, 1)),
        8 => Some((Unit::Year, 1)),
        10 => Some((Unit::Day, 1)),
        11 => Some((Unit::Hour, 1)),
        12 => Some((Unit::Hour, 2)),
        13 => Some((Unit::Minute, 1)),
        14 => Some((Unit::Month, 2)),
        15 => Some((Unit::Millisecond, 2)),
        17 => Some((Unit::Nanosecond, 2)),
        18 => Some((Unit::Second, 1)),
        19 => Some((Unit::Microsecond, 2)),
        20 => Some((Unit::Week, 1)),
        21 => Some((Unit::Week, 2)),
        22 => Some((Unit::Year, 1)),
        23 => Some((Unit::Year, 2)),
        25 => Some((Unit::Day, 3)),
        26 => Some((Unit::Hour, 1)),
        27 => Some((Unit::Hour, 3)),
        28 => Some((Unit::Minute, 1)),
        29 => Some((Unit::Minute, 1)),
        30 => Some((Unit::Minute, 3)),
        31 => Some((Unit::Month, 2)),
        32 => Some((Unit::Month, 3)),
        33 => Some((Unit::Millisecond, 2)),
        35 => Some((Unit::Nanosecond, 2)),
        36 => Some((Unit::Second, 3)),
        37 => Some((Unit::Microsecond, 2)),
        38 => Some((Unit::Week, 1)),
        39 => Some((Unit::Week, 3)),
        40 => Some((Unit::Year, 1)),
        41 => Some((Unit::Year, 3)),
        42 => Some((Unit::Microsecond, 3)),
        43 => Some((Unit::Day, 4)),
        44 => Some((Unit::Hour, 4)),
        45 => Some((Unit::Minute, 1)),
        46 => Some((Unit::Minute, 1)),
        47 => Some((Unit::Minute, 4)),
        48 => Some((Unit::Minute, 3)),
        49 => Some((Unit::Month, 2)),
        50 => Some((Unit::Millisecond, 4)),
        51 => Some((Unit::Nanosecond, 4)),
        52 => Some((Unit::Nanosecond, 4)),
        53 => Some((Unit::Second, 3)),
        54 => Some((Unit::Second, 4)),
        55 => Some((Unit::Microsecond, 4)),
        56 => Some((Unit::Week, 4)),
        57 => Some((Unit::Year, 4)),
        58 => Some((Unit::Microsecond, 3)),
        59 => Some((Unit::Hour, 5)),
        60 => Some((Unit::Microsecond, 5)),
        61 => Some((Unit::Millisecond, 5)),
        62 => Some((Unit::Minute, 3)),
        63 => Some((Unit::Month, 5)),
        64 => Some((Unit::Millisecond, 5)),
        65 => Some((Unit::Nanosecond, 5)),
        66 => Some((Unit::Nanosecond, 5)),
        67 => Some((Unit::Second, 3)),
        68 => Some((Unit::Microsecond, 5)),
        69 => Some((Unit::Week, 5)),
        70 => Some((Unit::Year, 5)),
        71 => Some((Unit::Microsecond, 5)),
        72 => Some((Unit::Microsecond, 6)),
        73 => Some((Unit::Millisecond, 6)),
        74 => Some((Unit::Minute, 6)),
        75 => Some((Unit::Month, 6)),
        76 => Some((Unit::Nanosecond, 5)),
        77 => Some((Unit::Second, 6)),
        78 => Some((Unit::Microsecond, 6)),
        79 => Some((Unit::Microsecond, 6)),
        80 => Some((Unit::Millisecond, 6)),
        81 => Some((Unit::Minute, 7)),
        82 => Some((Unit::Nanosecond, 5)),
        83 => Some((Unit::Second, 7)),
        84 => Some((Unit::Microsecond, 6)),
        85 => Some((Unit::Millisecond, 6)),
        86 => Some((Unit::Nanosecond, 5)),
        87 => Some((Unit::Microsecond, 6)),
        88 => Some((Unit::Millisecond, 6)),
        89 => Some((Unit::Nanosecond, 5)),
        90 => Some((Unit::Microsecond, 6)),
        91 => Some((Unit::Millisecond, 6)),
        92 => Some((Unit::Nanosecond, 10)),
        93 => Some((Unit::Microsecond, 11)),
        94 => Some((Unit::Millisecond, 11)),
        95 => Some((Unit::Nanosecond, 11)),
        96 => Some((Unit::Microsecond, 12)),
        97 => Some((Unit::Millisecond, 12)),
        _ => None,
    }
}

/// Finds the longest designator that `haystack` starts with, and returns its
/// unit and its length.
#[inline(always)]
pub fn find(haystack: &[u8]) -> (r: Option<(Unit, usize)>)
    ensures
        is_longest_match(designators(), haystack@, r),
{
    let ghost h = haystack@;
    let mut sid: u8 = 0;
    let mut i: usize = 0;
    proof {
        lemma_edge(1);
        assert(h.take(0) =~= state_paths()[0]);
    }
    while i < haystack.len()
        invariant
            h == haystack@,
            i <= h.len(),
            sid < STATES,
            state_paths()[sid as int] == h.take(i as int),
        decreases h.len() - i,
    {
        match step(sid, haystack[i]) {
            Some(next) => {
                assert(h.take(i as int).push(h[i as int]) =~= h.take(i as int + 1));
                sid = next;
            },
            None => {
                let r = best(sid);
                proof {
                    assert(h.take(i as int).push(h[i as int]) =~= h.take(i as int + 1));
                    lemma_leaves(designators(), h, i as int, r);
                }
                return r;
            },
        }
        i += 1;
    }
    assert(h.take(i as int) =~= h);
    best(sid)
}

} // verus!
