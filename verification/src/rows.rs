//! Arithmetic of interleaved layouts: `width` slots to a row, numbered row by row.

use vstd::arithmetic::div_mod::{lemma_fundamental_div_mod, lemma_fundamental_div_mod_converse};
use vstd::prelude::*;

verus! {

/// Slot `column` of row `row` is number `row * width + column`, and the number says both.
pub proof fn lemma_slot(row: int, column: int, width: int)
    requires
        0 <= row,
        0 <= column < width,
    ensures
        (row * width + column) / width == row,
        (row * width + column) % width == column,
        0 <= row * width + column < (row + 1) * width,
{
    lemma_fundamental_div_mod_converse(row * width + column, width, row, column);
    assert(0 <= row * width) by (nonlinear_arith)
        requires
            0 <= row,
            0 <= width,
    ;
    assert((row + 1) * width == row * width + width) by (nonlinear_arith);
}

/// A slot number below `rows * width` lies in one of the first `rows` rows.
pub proof fn lemma_slot_row(slot: int, rows: int, width: int)
    requires
        0 <= slot < rows * width,
        0 < width,
    ensures
        0 <= slot / width < rows,
        0 <= slot % width < width,
        slot == (slot / width) * width + slot % width,
{
    lemma_fundamental_div_mod(slot, width);
    let row = slot / width;
    assert(width * row == row * width) by (nonlinear_arith);
    assert(0 <= row) by (nonlinear_arith)
        requires
            0 <= slot,
            0 < width,
            slot == width * row + slot % width,
            0 <= slot % width < width,
    ;
    assert(row < rows) by (nonlinear_arith)
        requires
            slot < rows * width,
            0 < width,
            slot == width * row + slot % width,
            0 <= slot % width,
    ;
}

/// A row lies wholly inside a block of `rows` rows.
pub proof fn lemma_row_fits(row: int, rows: int, width: int)
    requires
        0 <= row < rows,
        0 <= width,
    ensures
        0 <= row * width,
        row * width + width <= rows * width,
{
    assert(0 <= row * width) by (nonlinear_arith)
        requires
            0 <= row,
            0 <= width,
    ;
    assert(row * width + width <= rows * width) by (nonlinear_arith)
        requires
            row + 1 <= rows,
            0 <= width,
    ;
}

} // verus!
