//! Row-major grids: how a cell's two coordinates become one index.
use vstd::arithmetic::div_mod::lemma_fundamental_div_mod_converse;
use vstd::prelude::*;

verus! {

/// The row-major index of a cell in a grid `across` cells wide.
pub open spec fn cell(x: int, y: int, across: int) -> int {
    y * across + x
}

/// A cell inside the grid has an index inside the grid's storage.
pub proof fn cell_is_stored(x: int, y: int, across: int, down: int)
    requires
        0 <= x < across,
        0 <= y < down,
    ensures
        0 <= cell(x, y, across) < across * down,
        0 <= y * across,
{
    assert(0 <= y * across && y * across + x < across * down) by (nonlinear_arith)
        requires
            0 <= x < across,
            0 <= y < down,
    ;
}

/// Distinct cells have distinct indices.
pub proof fn cells_are_apart(x: int, y: int, u: int, v: int, across: int)
    requires
        0 <= x < across,
        0 <= u < across,
        cell(x, y, across) == cell(u, v, across),
    ensures
        x == u,
        y == v,
{
    lemma_fundamental_div_mod_converse(cell(x, y, across), across, y, x);
    lemma_fundamental_div_mod_converse(cell(u, v, across), across, v, u);
}

/// Every stored index is the index of one cell.
pub proof fn every_index_is_a_cell(i: int, across: int, down: int)
    requires
        0 <= i < across * down,
        across > 0,
    ensures
        0 <= i % across < across,
        0 <= i / across < down,
        cell(i % across, i / across, across) == i,
{
    vstd::arithmetic::div_mod::lemma_fundamental_div_mod(i, across);
    let (q, r) = (i / across, i % across);
    assert(across * q == q * across) by (nonlinear_arith);
    assert(0 <= q < down) by (nonlinear_arith)
        requires
            i == across * q + r,
            0 <= r < across,
            0 <= i < across * down,
            across > 0,
    ;
}

} // verus!
