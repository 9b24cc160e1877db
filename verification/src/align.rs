//! The cell aligner: where inside an 8-row cell a glyph's bitmap starts, and
//! how far each of its rows is shifted.

use vstd::prelude::*;

verus! {

/// Widest glyph, in bits, that a cell can take.
pub const MAX_WIDTH: i64 = 5;

/// A glyph's declared extent. `y_offset` counts from the bottom of the cell
/// and may be negative.
#[derive(Clone, Copy, Debug, PartialEq, Eq, Structural)]
pub struct BoundingBox {
    /// The width of the bitmap in bits, at most 5.
    pub width: i64,
    /// The number of bitmap rows.
    pub height: i64,
    /// The offset of the bitmap's left edge from the cell's.
    pub x_offset: i64,
    /// The offset of the bitmap's bottom row from the baseline.
    pub y_offset: i64,
}

/// The row, counted from the top of an 8-row cell, at which a glyph of the
/// given height and bottom offset starts. May lie outside the cell.
pub open spec fn row_index_spec(height: int, y_offset: int) -> int {
    8 - height - y_offset - 1
}

/// The starting row after the clamping policy: a glyph that would start
/// above the cell starts at its top row.
pub open spec fn start_row_spec(height: int, y_offset: int) -> int {
    if row_index_spec(height, y_offset) < 0 {
        0
    } else {
        row_index_spec(height, y_offset)
    }
}

/// A bitmap row moved right by `x_offset` bits, which re-anchors a glyph
/// that is narrower than the cell at the cell's left edge.
pub open spec fn shifted_row_spec(value: u8, x_offset: u8) -> u8 {
    value >> x_offset
}

/// Whether a horizontal offset is one that a row can be shifted by.
pub open spec fn shift_supported(x_offset: int) -> bool {
    0 <= x_offset < 8
}

/// Computes `8 - height - y_offset - 1`: the row at which the glyph starts,
/// before any clamping.
pub fn row_index(height: i64, y_offset: i64) -> (r: i128)
    ensures
        r == row_index_spec(height as int, y_offset as int),
{
    8i128 - (height as i128) - (y_offset as i128) - 1i128
}

/// The row at which the glyph's first bitmap row is stored: `row_index`,
/// clamped to the top row when it is negative. `None` when the glyph would
/// start below the cell.
pub fn start_row(height: i64, y_offset: i64) -> (r: Option<usize>)
    ensures
        match r {
            Some(row) => row == start_row_spec(height as int, y_offset as int) && row < 8,
            None => start_row_spec(height as int, y_offset as int) >= 8,
        },
{
    let index: i128 = row_index(height, y_offset);
    if index < 0 {
        Some(0)
    } else if index < 8 {
        Some(index as usize)
    } else {
        None
    }
}

/// Shifts a bitmap row right by `x_offset` bits. `None` when the offset is
/// negative or not below 8.
pub fn shift_row(value: u8, x_offset: i64) -> (r: Option<u8>)
    ensures
        match r {
            Some(v) => shift_supported(x_offset as int) && v == shifted_row_spec(
                value,
                x_offset as u8,
            ),
            None => !shift_supported(x_offset as int),
        },
{
    if 0 <= x_offset && x_offset < 8 {
        let amount: u8 = x_offset as u8;
        Some(value >> amount)
    } else {
        None
    }
}

/// A row shifted by no bits is unchanged; shifted by one bit it is halved,
/// and in general it is divided by that power of two.
pub proof fn lemma_shifted_row(value: u8)
    ensures
        shifted_row_spec(value, 0) == value,
        shifted_row_spec(value, 1) == value / 2,
        shifted_row_spec(value, 2) == value / 4,
        shifted_row_spec(value, 3) == value / 8,
        shifted_row_spec(value, 4) == value / 16,
        shifted_row_spec(value, 5) == value / 32,
        shifted_row_spec(value, 6) == value / 64,
        shifted_row_spec(value, 7) == value / 128,
{
    assert(value >> 0u8 == value) by (bit_vector);
    assert(value >> 1u8 == value / 2) by (bit_vector);
    assert(value >> 2u8 == value / 4) by (bit_vector);
    assert(value >> 3u8 == value / 8) by (bit_vector);
    assert(value >> 4u8 == value / 16) by (bit_vector);
    assert(value >> 5u8 == value / 32) by (bit_vector);
    assert(value >> 6u8 == value / 64) by (bit_vector);
    assert(value >> 7u8 == value / 128) by (bit_vector);
}

} // verus!
