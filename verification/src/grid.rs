//! Cubic grids laid out in one row: what place a cell has in the row, and
//! which cell stands at a place.

use vstd::arithmetic::div_mod::{lemma_div_denominator, lemma_fundamental_div_mod_converse};
use vstd::prelude::*;

verus! {

/// The place of the cell `(a, b, c)` in the row of a grid of `n` cells
/// along each axis, with `c` changing fastest and `a` slowest.
pub open spec fn flat(a: int, b: int, c: int, n: int) -> int {
    (a * n + b) * n + c
}

/// The slowest coordinate of the cell at place `i`.
pub open spec fn slow(i: int, n: int) -> int {
    i / (n * n)
}

/// The middle coordinate of the cell at place `i`.
pub open spec fn middle(i: int, n: int) -> int {
    (i / n) % n
}

/// The fastest coordinate of the cell at place `i`.
pub open spec fn fast(i: int, n: int) -> int {
    i % n
}

/// The number of cells in the grid.
pub open spec fn volume(n: int) -> int {
    n * n * n
}

/// The cell at the place of a cell is that cell, and the place lies in the
/// row.
pub proof fn lemma_flat_cell(a: int, b: int, c: int, n: int)
    requires
        0 <= a < n,
        0 <= b < n,
        0 <= c < n,
    ensures
        0 <= flat(a, b, c, n) < volume(n),
        slow(flat(a, b, c, n), n) == a,
        middle(flat(a, b, c, n), n) == b,
        fast(flat(a, b, c, n), n) == c,
{
    let row = a * n + b;
    let i = flat(a, b, c, n);
    assert(0 <= row <= (n - 1) * n + (n - 1)) by (nonlinear_arith)
        requires
            row == a * n + b,
            0 <= a < n,
            0 <= b < n,
    ;
    assert(0 <= i < n * n * n) by (nonlinear_arith)
        requires
            i == row * n + c,
            0 <= row <= (n - 1) * n + (n - 1),
            0 <= c < n,
    ;
    lemma_fundamental_div_mod_converse(i, n, row, c);
    lemma_fundamental_div_mod_converse(row, n, a, b);
    lemma_div_denominator(i, n, n);
}

/// The cell after a cell, with carry from the fastest coordinate to the
/// slowest, has the next place; after the last cell the row ends.
pub proof fn lemma_flat_next(a: int, b: int, c: int, n: int)
    requires
        0 <= a < n,
        0 <= b < n,
        0 <= c < n,
    ensures
        c + 1 < n ==> flat(a, b, c + 1, n) == flat(a, b, c, n) + 1,
        c + 1 == n && b + 1 < n ==> flat(a, b + 1, 0, n) == flat(a, b, c, n) + 1,
        c + 1 == n && b + 1 == n && a + 1 < n ==> flat(a + 1, 0, 0, n) == flat(a, b, c, n) + 1,
        c + 1 == n && b + 1 == n && a + 1 == n ==> volume(n) == flat(a, b, c, n) + 1,
{
    assert(flat(a, b + 1, 0, n) == flat(a, b, n, n)) by (nonlinear_arith);
    assert(flat(a + 1, 0, 0, n) == flat(a, n, 0, n)) by (nonlinear_arith);
    assert(volume(n) == flat(n, 0, 0, n)) by (nonlinear_arith);
}

} // verus!
