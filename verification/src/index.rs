//! Row-major positions.
use vstd::prelude::*;

verus! {

/// Position of row `i`, column `j` in a row-major matrix with `c` columns.
pub open spec fn cell(i: int, j: int, c: int) -> int {
    i * c + j
}

/// A cell inside the matrix lies inside its storage.
pub proof fn lemma_cell(i: int, j: int, r: int, c: int)
    requires
        0 <= i < r,
        0 <= j < c,
    ensures
        0 <= i * c,
        i * c + c <= r * c,
        0 <= cell(i, j, c) < r * c,
{
    assert(0 <= i * c && i * c + c <= r * c) by (nonlinear_arith)
        requires
            0 <= i < r,
            c > 0,
    ;
}

/// The start of a row, for any number of columns.
pub proof fn lemma_row(i: int, r: int, c: int)
    requires
        0 <= i < r,
        0 <= c,
    ensures
        0 <= i * c,
        i * c + c == (i + 1) * c,
        i * c + c <= r * c,
{
    assert(0 <= i * c && i * c + c == (i + 1) * c && i * c + c <= r * c) by (nonlinear_arith)
        requires
            0 <= i < r,
            c >= 0,
    ;
}

/// Different cells have different positions.
pub proof fn lemma_cell_distinct(i: int, j: int, i2: int, j2: int, c: int)
    requires
        0 <= j < c,
        0 <= j2 < c,
        cell(i, j, c) == cell(i2, j2, c),
    ensures
        i == i2,
        j == j2,
{
    assert(i == i2) by (nonlinear_arith)
        requires
            i * c + j == i2 * c + j2,
            0 <= j < c,
            0 <= j2 < c,
    ;
}

/// Every position belongs to a cell.
pub proof fn lemma_split(t: int, r: int, c: int)
    requires
        0 <= t < r * c,
        c >= 0,
    ensures
        c > 0,
        0 <= t / c < r,
        0 <= t % c < c,
        t == cell(t / c, t % c, c),
{
    assert(c > 0) by (nonlinear_arith)
        requires
            0 <= t < r * c,
            c >= 0,
    ;
    assert(0 <= t / c < r && 0 <= t % c < c && t == (t / c) * c + t % c) by (nonlinear_arith)
        requires
            0 <= t < r * c,
            c > 0,
    ;
}

} // verus!
