use vstd::prelude::*;

verus! {

/// Whether a column and row lie inside a `width` by `height` grid.
pub open spec fn in_grid(col: int, row: int, width: int, height: int) -> bool {
    0 <= col < width && 0 <= row < height
}

/// Row-major index of a cell: rows run along world Z, columns along world X.
pub open spec fn row_major(col: int, row: int, width: int) -> int {
    row * width + col
}

/// A cell inside the grid has an index below the number of cells.
pub proof fn lemma_row_major_in_range(col: int, row: int, width: int, height: int)
    requires
        in_grid(col, row, width, height),
    ensures
        0 <= row_major(col, row, width) < width * height,
{
    assert(row * width + col < width * height) by (nonlinear_arith)
        requires
            0 <= col < width,
            0 <= row < height,
    ;
    assert(0 <= row * width) by (nonlinear_arith)
        requires
            0 <= row,
            0 <= width,
    ;
}

/// The index of a cell gives back its column as remainder and its row as quotient by the width.
pub proof fn lemma_row_major_decomposes(col: int, row: int, width: int)
    requires
        0 <= col < width,
    ensures
        row_major(col, row, width) % width == col,
        row_major(col, row, width) / width == row,
{
    vstd::arithmetic::div_mod::lemma_fundamental_div_mod_converse(row * width + col, width, row, col);
    assert(row * width == width * row) by (nonlinear_arith);
}

/// Distinct cells of the grid have distinct indices.
pub proof fn lemma_row_major_injective(c1: int, r1: int, c2: int, r2: int, width: int, height: int)
    requires
        in_grid(c1, r1, width, height),
        in_grid(c2, r2, width, height),
        row_major(c1, r1, width) == row_major(c2, r2, width),
    ensures
        c1 == c2,
        r1 == r2,
{
    if r1 < r2 {
        assert(r1 * width + width <= r2 * width) by (nonlinear_arith)
            requires
                r1 < r2,
                0 < width,
        ;
    } else if r2 < r1 {
        assert(r2 * width + width <= r1 * width) by (nonlinear_arith)
            requires
                r2 < r1,
                0 < width,
        ;
    }
}

/// The cell at column `col` and row `row`, or `None` where that lies outside the grid.
pub fn cell_index(col: isize, row: isize, width: usize, height: usize) -> (r: Option<usize>)
    requires
        width * height <= usize::MAX,
        width <= isize::MAX,
        height <= isize::MAX,
    ensures
        r == (if in_grid(col as int, row as int, width as int, height as int) {
            Some(row_major(col as int, row as int, width as int) as usize)
        } else {
            None::<usize>
        }),
        r matches Some(i) ==> i < width * height,
        r is Some <==> (0 <= col < width && 0 <= row < height),
        r matches Some(i) ==> i as int % width as int == col && i as int / width as int == row,
{
    if col < 0 || row < 0 || col >= width as isize || row >= height as isize {
        None
    } else {
        proof {
            lemma_row_major_in_range(col as int, row as int, width as int, height as int);
            lemma_row_major_decomposes(col as int, row as int, width as int);
        }
        Some(row as usize * width + col as usize)
    }
}

} // verus!
