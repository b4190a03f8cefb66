//! The arithmetic of a table that is laid out row by row: row `n` of a table
//! with rows of `a` slots starts at slot `n * a`.

use vstd::prelude::*;

verus! {

/// The slot of column `c` in row `n`, in a table with rows of `a` slots.
pub open spec fn slot(n: int, c: int, a: int) -> int {
    n * a + c
}

/// A slot of one of the first `rows` rows lies below the end of these rows.
pub proof fn lemma_slot_bounds(n: int, c: int, a: int, rows: int)
    requires
        0 <= n < rows,
        0 <= c < a,
    ensures
        0 <= n * a <= slot(n, c, a) < n * a + a <= rows * a,
{
    assert(0 <= n * a && n * a + a <= rows * a) by (nonlinear_arith)
        requires
            0 <= n < rows,
            0 < a,
    ;
}

/// A slot determines its row and its column.
pub proof fn lemma_slot_of(n: int, c: int, a: int)
    requires
        0 <= n,
        0 <= c < a,
    ensures
        slot(n, c, a) / a == n,
        slot(n, c, a) % a == c,
{
    assert((n * a + c) / a == n && (n * a + c) % a == c) by (nonlinear_arith)
        requires
            0 <= n,
            0 <= c < a,
    ;
}

/// Every slot is the slot of its row and its column.
pub proof fn lemma_slot_parts(s: int, a: int)
    requires
        0 <= s,
        0 < a,
    ensures
        s == slot(s / a, s % a, a),
        0 <= s % a < a,
        0 <= s / a,
{
    assert(s == (s / a) * a + s % a && 0 <= s % a < a && 0 <= s / a) by (nonlinear_arith)
        requires
            0 <= s,
            0 < a,
    ;
}

/// A slot below the end of the first `rows` rows lies in one of them.
pub proof fn lemma_slot_split(s: int, a: int, rows: int)
    requires
        0 <= s < rows * a,
        0 < a,
    ensures
        s == slot(s / a, s % a, a),
        0 <= s % a < a,
        0 <= s / a < rows,
{
    lemma_slot_parts(s, a);
    assert(s / a < rows) by (nonlinear_arith)
        requires
            s < rows * a,
            s == (s / a) * a + s % a,
            0 <= s % a,
            0 < a,
    ;
}

/// Rows are ordered as their first slots are.
pub proof fn lemma_row_order(m: int, n: int, a: int)
    requires
        0 < a,
    ensures
        m <= n <==> m * a <= n * a,
        m == n <==> m * a == n * a,
        n == 0 <==> n * a == 0,
{
    assert((m <= n <==> m * a <= n * a) && (m == n <==> m * a == n * a) && (n == 0 <==> n * a
        == 0)) by (nonlinear_arith)
        requires
            0 < a,
    ;
}

/// As many rows fit below `capacity` as the quotient says.
pub proof fn lemma_rows_fit(capacity: int, a: int)
    requires
        0 <= capacity,
        0 < a,
    ensures
        0 <= (capacity / a) * a <= capacity,
{
    assert(0 <= (capacity / a) * a <= capacity) by (nonlinear_arith)
        requires
            0 <= capacity,
            0 < a,
    ;
}

} // verus!
