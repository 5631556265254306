//! Rows and columns of a raster frame.

use vstd::prelude::*;

verus! {

/// The place of a pixel in a frame stored row by row.
pub open spec fn place(width: int, row: int, col: int) -> int {
    row * width + col
}

/// A pixel inside the frame has a place inside its samples.
pub proof fn lemma_place(width: int, height: int, row: int, col: int)
    requires
        0 <= row < height,
        0 <= col < width,
    ensures
        0 <= place(width, row, col) < width * height,
        0 <= row * width <= place(width, row, col),
{
    assert(0 <= row * width) by (nonlinear_arith)
        requires
            0 <= row,
            0 <= width,
    ;
    assert(row * width + width <= width * height) by (nonlinear_arith)
        requires
            row + 1 <= height,
            0 <= width,
    ;
}

/// The row and column of a place.
pub proof fn lemma_place_inverse(width: int, row: int, col: int)
    requires
        0 <= row,
        0 <= col < width,
    ensures
        place(width, row, col) / width == row,
        place(width, row, col) % width == col,
{
    vstd::arithmetic::div_mod::lemma_fundamental_div_mod_converse(
        place(width, row, col),
        width,
        row,
        col,
    );
}

/// Every place in a frame belongs to one of its pixels.
pub proof fn lemma_place_of(width: int, height: int, at: int)
    requires
        0 <= at < width * height,
        0 < width,
    ensures
        0 <= at / width < height,
        0 <= at % width < width,
        at == place(width, at / width, at % width),
{
    vstd::arithmetic::div_mod::lemma_fundamental_div_mod(at, width);
    assert(at / width < height) by (nonlinear_arith)
        requires
            0 <= at < width * height,
            0 < width,
    ;
    assert(0 <= at / width) by (nonlinear_arith)
        requires
            0 <= at,
            0 < width,
    ;
    assert(width * (at / width) == (at / width) * width) by (nonlinear_arith);
}

/// A sample of a frame, zero outside it.
pub open spec fn sample(frame: Seq<u16>, width: int, row: int, col: int) -> int {
    if 0 <= place(width, row, col) < frame.len() {
        frame[place(width, row, col)] as int
    } else {
        0
    }
}

/// Reads a sample of a frame.
pub fn sample_at(frame: &Vec<u16>, width: usize, row: usize, col: usize) -> (value: u16)
    requires
        row * width + col <= usize::MAX,
    ensures
        value == sample(frame@, width as int, row as int, col as int),
{
    proof {
        assert(0 <= row * width) by (nonlinear_arith);
    }
    let at: usize = row * width + col;
    if at < frame.len() {
        frame[at]
    } else {
        0
    }
}

} // verus!
