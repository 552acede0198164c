use vstd::prelude::*;

verus! {

/// Position of the cell in row `i`, column `j` of a square grid of side `size` stored
/// row by row.
pub open spec fn flat(size: int, i: int, j: int) -> int {
    i * size + j
}

/// Row of the cell stored at position `k`.
pub open spec fn row(size: int, k: int) -> int {
    k / size
}

/// Column of the cell stored at position `k`.
pub open spec fn col(size: int, k: int) -> int {
    k % size
}

/// The cell in row `i`, column `j` of the grid `g`.
pub open spec fn at<T>(g: Seq<T>, size: int, i: int, j: int) -> T {
    g[flat(size, i, j)]
}

/// Whether `(i, j)` lies inside the one-cell border of a grid of side `size`.
pub open spec fn interior(size: int, i: int, j: int) -> bool {
    1 <= i < size - 1 && 1 <= j < size - 1
}

/// Whether `(i, j)` is a cell of the grid at all.
pub open spec fn in_grid(size: int, i: int, j: int) -> bool {
    0 <= i < size && 0 <= j < size
}

/// The two grids hold the same value in every interior cell.
pub open spec fn agree_inside<T>(a: Seq<T>, b: Seq<T>, size: int) -> bool {
    forall|i: int, j: int|
        interior(size, i, j) ==> #[trigger] at(a, size, i, j) == at(b, size, i, j)
}

/// A row and a column determine the position they are stored at, and that position
/// lies inside the grid.
pub proof fn lemma_flat_row_col(size: int, i: int, j: int)
    requires
        size > 0,
        0 <= i,
        0 <= j < size,
    ensures
        row(size, flat(size, i, j)) == i,
        col(size, flat(size, i, j)) == j,
        0 <= flat(size, i, j),
        i < size ==> flat(size, i, j) < size * size,
{
    vstd::arithmetic::div_mod::lemma_fundamental_div_mod_converse(flat(size, i, j), size, i, j);
    assert(0 <= i * size) by (nonlinear_arith)
        requires
            0 <= i,
            size > 0,
    ;
    if i < size {
        assert(i * size + j < size * size) by (nonlinear_arith)
            requires
                0 <= i < size,
                0 <= j < size,
        ;
    }
}

/// A position splits into a row and a column that lead back to it.
pub proof fn lemma_row_col_flat(size: int, k: int)
    requires
        size > 0,
        0 <= k,
    ensures
        0 <= row(size, k),
        0 <= col(size, k) < size,
        flat(size, row(size, k), col(size, k)) == k,
        k < size * size ==> row(size, k) < size,
{
    vstd::arithmetic::div_mod::lemma_fundamental_div_mod(k, size);
    vstd::arithmetic::div_mod::lemma_mod_bound(k, size);
    vstd::arithmetic::div_mod::lemma_div_pos_is_pos(k, size);
    vstd::arithmetic::mul::lemma_mul_is_commutative(size, k / size);
    if k < size * size {
        assert(k / size < size) by (nonlinear_arith)
            requires
                0 <= k < size * size,
                size > 0,
        ;
    }
}

/// Both directions at once, for every cell of a grid of side `size`.
pub proof fn lemma_grid(size: int)
    requires
        size > 0,
    ensures
        forall|i: int, j: int|
            in_grid(size, i, j) ==> {
                let k = #[trigger] flat(size, i, j);
                0 <= k < size * size && row(size, k) == i && col(size, k) == j
            },
        forall|k: int|
            0 <= k < size * size ==> {
                &&& 0 <= #[trigger] row(size, k) < size
                &&& 0 <= col(size, k) < size
                &&& flat(size, row(size, k), col(size, k)) == k
            },
{
    assert forall|i: int, j: int| in_grid(size, i, j) implies {
        let k = #[trigger] flat(size, i, j);
        0 <= k < size * size && row(size, k) == i && col(size, k) == j
    } by {
        lemma_flat_row_col(size, i, j);
    }
    assert forall|k: int| 0 <= k < size * size implies {
        &&& 0 <= #[trigger] row(size, k) < size
        &&& 0 <= col(size, k) < size
        &&& flat(size, row(size, k), col(size, k)) == k
    } by {
        lemma_row_col_flat(size, k);
    }
}

/// Reads the cell in row `i`, column `j`.
pub(crate) fn cell_at<T: Copy>(grid: &Vec<T>, size: usize, i: usize, j: usize) -> (value: T)
    requires
        in_grid(size as int, i as int, j as int),
        grid.len() == size * size,
    ensures
        value == at(grid@, size as int, i as int, j as int),
{
    proof {
        lemma_flat_row_col(size as int, i as int, j as int);
    }
    grid[i * size + j]
}

/// Overwrites the cell in row `i`, column `j` and leaves every other cell as it was.
pub(crate) fn set_cell_at<T: Copy>(grid: &mut Vec<T>, size: usize, i: usize, j: usize, value: T)
    requires
        in_grid(size as int, i as int, j as int),
        old(grid).len() == size * size,
    ensures
        final(grid)@ == old(grid)@.update(flat(size as int, i as int, j as int), value),
        final(grid)@.len() == old(grid)@.len(),
        forall|r: int, c: int|
            in_grid(size as int, r, c) ==> #[trigger] at(final(grid)@, size as int, r, c) == (
            if r == i && c == j {
                value
            } else {
                at(old(grid)@, size as int, r, c)
            }),
{
    proof {
        lemma_grid(size as int);
        lemma_flat_row_col(size as int, i as int, j as int);
    }
    grid.set(i * size + j, value);
}

} // verus!
