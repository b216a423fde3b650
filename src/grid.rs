use vstd::prelude::*;
use crate::cell::Cell;

verus! {

/// Width of the playfield in cells.
pub const MX: usize = 24;

/// Height of the playfield in cells.
pub const MY: usize = 21;

/// Number of cells in the playfield.
pub const N_CELLS: usize = 504;

pub open spec fn in_bounds(x: int, y: int) -> bool {
    0 <= x < MX as int && 0 <= y < MY as int
}

pub open spec fn index_of(x: int, y: int) -> int {
    y * MX as int + x
}

/// The cell at `(x, y)` of a row-major world; outside it, a wall.
pub open spec fn cell_at(w: Seq<Cell>, x: int, y: int) -> Cell {
    if in_bounds(x, y) {
        w[index_of(x, y)]
    } else {
        Cell::Metal
    }
}

/// The world with `(x, y)` overwritten by `c`; unchanged outside it.
pub open spec fn put(w: Seq<Cell>, x: int, y: int, c: Cell) -> Seq<Cell> {
    if in_bounds(x, y) {
        w.update(index_of(x, y), c)
    } else {
        w
    }
}

pub proof fn lemma_index_in_range(x: int, y: int)
    requires
        in_bounds(x, y),
    ensures
        0 <= index_of(x, y) < N_CELLS as int,
{
    assert(0 <= y * 24 + x < 504) by (nonlinear_arith)
        requires
            0 <= x < 24,
            0 <= y < 21,
    ;
}

/// Number of cells that are not `Empty`.
pub open spec fn occupied_count(w: Seq<Cell>) -> nat
    decreases w.len(),
{
    if w.len() == 0 {
        0
    } else {
        occupied_count(w.drop_last()) + if w.last() is Empty {
            0nat
        } else {
            1nat
        }
    }
}

pub open spec fn occupies(c: Cell) -> int {
    if c is Empty {
        0
    } else {
        1
    }
}

/// Overwriting one cell changes the occupied count by what left and what came.
pub proof fn lemma_count_update(w: Seq<Cell>, i: int, c: Cell)
    requires
        0 <= i < w.len(),
    ensures
        occupied_count(w.update(i, c)) == occupied_count(w) - occupies(w[i]) + occupies(c),
    decreases w.len(),
{
    let u = w.update(i, c);
    if i == w.len() - 1 {
        assert(u.drop_last() =~= w.drop_last());
    } else {
        lemma_count_update(w.drop_last(), i, c);
        assert(u.drop_last() =~= w.drop_last().update(i, c));
    }
}

/// Writing a cell anywhere raises the occupied count by at most one.
pub proof fn lemma_count_put(w: Seq<Cell>, x: int, y: int, c: Cell)
    requires
        w.len() == N_CELLS,
    ensures
        occupied_count(put(w, x, y, c)) <= occupied_count(w) - occupies(cell_at(w, x, y)) + 1,
        in_bounds(x, y) ==> occupied_count(put(w, x, y, c)) == occupied_count(w) - occupies(
            cell_at(w, x, y),
        ) + occupies(c),
{
    if in_bounds(x, y) {
        lemma_index_in_range(x, y);
        lemma_count_update(w, index_of(x, y), c);
    }
}

} // verus!
