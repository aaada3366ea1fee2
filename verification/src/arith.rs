//! Facts about row-major indexing that the grid modules share.

use vstd::prelude::*;

verus! {

/// Splitting a row-major index back into its row and column.
pub proof fn lemma_row_major_div_mod(r: int, c: int, n: int)
    requires
        0 <= r,
        0 <= c < n,
    ensures
        (r * n + c) / n == r,
        (r * n + c) % n == c,
{
    vstd::arithmetic::div_mod::lemma_fundamental_div_mod_converse(r * n + c, n, r, c);
}

/// A row-major index of a cell inside an `m` by `n` grid lies inside the grid.
pub proof fn lemma_row_major_bound(r: int, c: int, n: int, m: int)
    requires
        0 <= r < m,
        0 <= c < n,
    ensures
        0 <= r * n + c < m * n,
{
    assert(0 <= r * n) by (nonlinear_arith)
        requires
            0 <= r,
            0 <= c < n,
    ;
    assert(r * n + c < m * n) by (nonlinear_arith)
        requires
            0 <= r < m,
            0 <= c < n,
    ;
}

/// Different cells have different row-major indices.
pub proof fn lemma_row_major_injective(r1: int, c1: int, r2: int, c2: int, n: int)
    requires
        0 <= r1,
        0 <= r2,
        0 <= c1 < n,
        0 <= c2 < n,
        r1 * n + c1 == r2 * n + c2,
    ensures
        r1 == r2,
        c1 == c2,
{
    lemma_row_major_div_mod(r1, c1, n);
    lemma_row_major_div_mod(r2, c2, n);
}

/// Splitting an index inside an `m` by `n` grid into its row and column.
pub proof fn lemma_row_major_split(x: int, n: int, m: int)
    requires
        0 < n,
        0 <= x < n * m,
    ensures
        0 <= x / n < m,
        0 <= x % n < n,
        x == (x / n) * n + x % n,
{
    vstd::arithmetic::div_mod::lemma_fundamental_div_mod(x, n);
    let q = x / n;
    let r = x % n;
    assert(0 <= r < n) by {
        vstd::arithmetic::div_mod::lemma_mod_bound(x, n);
    }
    assert(0 <= q < m) by (nonlinear_arith)
        requires
            x == n * q + r,
            0 <= r < n,
            0 <= x < n * m,
            0 < n,
    ;
    assert(x == q * n + r) by (nonlinear_arith)
        requires
            x == n * q + r,
    ;
}

/// Row-major indices order cells row by row, and by column within a row.
pub proof fn lemma_row_major_order(r1: int, c1: int, r2: int, c2: int, n: int)
    requires
        0 <= c1 < n,
        0 <= c2 < n,
        r1 * n + c1 < r2 * n + c2,
    ensures
        r1 < r2 || (r1 == r2 && c1 < c2),
{
    if r1 > r2 {
        assert(r1 * n >= r2 * n + n) by (nonlinear_arith)
            requires
                r1 > r2,
                n > 0,
        ;
    }
    if r1 == r2 {
    }
}

/// Squares grow with their side.
pub proof fn lemma_square_bound(x: int, m: int)
    requires
        0 <= x <= m,
    ensures
        0 <= x * x <= m * m,
{
    assert(0 <= x * x <= m * m) by (nonlinear_arith)
        requires
            0 <= x <= m,
    ;
}

/// Moving one row down in a row-major grid adds the row length.
pub proof fn lemma_next_row(r: int, c: int, n: int)
    ensures
        (r + 1) * n + c == r * n + c + n,
        (r - 1) * n + c == r * n + c - n,
{
    assert((r + 1) * n == r * n + n) by (nonlinear_arith);
    assert((r - 1) * n == r * n - n) by (nonlinear_arith);
}

} // verus!
