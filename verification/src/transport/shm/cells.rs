//! Tables of cells of one size, row by row.

use vstd::prelude::*;

verus! {

/// Offset of a cell in a table with `cols` columns.
pub open spec fn cell(cols: int, size: int, row: int, col: int) -> int {
    (row * cols + col) * size
}

/// Size of a table.
pub open spec fn table_size(rows: int, cols: int, size: int) -> int {
    rows * cols * size
}

/// A cell lies in its table.
pub proof fn lemma_cell(rows: int, cols: int, size: int, row: int, col: int)
    requires
        0 <= row < rows,
        0 <= col < cols,
        0 <= size,
    ensures
        0 <= row * cols + col < rows * cols,
        0 <= cell(cols, size, row, col),
        cell(cols, size, row, col) + size <= table_size(rows, cols, size),
{
    let n = row * cols + col;
    assert(0 <= n < rows * cols) by (nonlinear_arith)
        requires
            n == row * cols + col,
            0 <= row < rows,
            0 <= col < cols,
    ;
    let t = rows * cols;
    assert(0 <= n * size && n * size + size <= t * size) by (nonlinear_arith)
        requires
            0 <= n < t,
            0 <= size,
    ;
}

/// Two different cells do not overlap.
pub proof fn lemma_cells_apart(cols: int, size: int, row: int, col: int, row2: int, col2: int)
    requires
        0 <= row,
        0 <= row2,
        0 <= col < cols,
        0 <= col2 < cols,
        0 <= size,
        row != row2 || col != col2,
    ensures
        cell(cols, size, row, col) + size <= cell(cols, size, row2, col2) || cell(
            cols,
            size,
            row2,
            col2,
        ) + size <= cell(cols, size, row, col),
{
    let a = row * cols + col;
    let b = row2 * cols + col2;
    assert(a != b) by (nonlinear_arith)
        requires
            a == row * cols + col,
            b == row2 * cols + col2,
            0 <= col < cols,
            0 <= col2 < cols,
            row != row2 || col != col2,
    ;
    assert(a < b ==> a * size + size <= b * size) by (nonlinear_arith)
        requires
            0 <= size,
    ;
    assert(b < a ==> b * size + size <= a * size) by (nonlinear_arith)
        requires
            0 <= size,
    ;
}

/// A table has no negative size.
pub proof fn lemma_table(rows: int, cols: int, size: int)
    requires
        0 <= rows,
        0 <= cols,
        0 <= size,
    ensures
        0 <= rows * cols,
        0 <= table_size(rows, cols, size),
{
    assert(0 <= rows * cols) by (nonlinear_arith)
        requires
            0 <= rows,
            0 <= cols,
    ;
    let t = rows * cols;
    assert(0 <= t * size) by (nonlinear_arith)
        requires
            0 <= t,
            0 <= size,
    ;
}

/// Computes the offset of a cell of a table at `base`.
pub fn cell_off(base: usize, rows: u32, cols: u32, size: usize, row: u32, col: u32) -> (r: usize)
    requires
        row < rows,
        col < cols,
        base + table_size(rows as int, cols as int, size as int) <= usize::MAX,
        0 < size,
    ensures
        r == base + cell(cols as int, size as int, row as int, col as int),
        r + size <= base + table_size(rows as int, cols as int, size as int),
{
    proof {
        lemma_cell(rows as int, cols as int, size as int, row as int, col as int);
        let n = row * cols + col;
        let s = size as int;
        assert(n * s >= n) by (nonlinear_arith)
            requires
                0 <= n,
                1 <= s,
        ;
        assert(0 <= row * cols) by (nonlinear_arith);
    }
    base + (row as usize * cols as usize + col as usize) * size
}

/// Computes the size of a table behind `base` bytes, or `None` if it does not
/// fit in the address space.
pub fn table_end(base: usize, rows: u32, cols: u32, size: usize) -> (r: Option<usize>)
    ensures
        match r {
            Some(n) => n == base + table_size(rows as int, cols as int, size as int),
            None => base + table_size(rows as int, cols as int, size as int) > usize::MAX || (
            rows * cols > usize::MAX),
        },
{
    proof {
        lemma_table(rows as int, cols as int, size as int);
    }
    match (rows as usize).checked_mul(cols as usize) {
        None => None,
        Some(n) => match n.checked_mul(size) {
            None => None,
            Some(t) => base.checked_add(t),
        },
    }
}

/// A table with many cells is large.
pub proof fn lemma_many_cells(rows: int, cols: int, size: int)
    requires
        0 <= rows,
        0 <= cols,
        1 <= size,
    ensures
        rows * cols <= table_size(rows, cols, size),
{
    let t = rows * cols;
    assert(0 <= t) by (nonlinear_arith)
        requires
            t == rows * cols,
            0 <= rows,
            0 <= cols,
    ;
    assert(t <= t * size) by (nonlinear_arith)
        requires
            0 <= t,
            1 <= size,
    ;
}

} // verus!
