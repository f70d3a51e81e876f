//! Shared vocabulary for reasoning about row-major pixel rasters.
//!
//! A raster is a flat sequence of packed 32-bit pixels holding `height`
//! rows of `width` pixels each; the pixel at column `col` of row `row`
//! lives at index `row * width + col`.

use vstd::prelude::*;

verus! {

/// The pixel of the row-major raster `s` (row width `width`) at column
/// `col` of row `row`.
pub open spec fn pixel_at(s: Seq<u32>, width: int, col: int, row: int) -> u32 {
    s[row * width + col]
}

/// The entry of the row-major boolean mask `m` (row width `width`) at
/// column `col` of row `row`.
pub open spec fn mask_at(m: Seq<bool>, width: int, col: int, row: int) -> bool {
    m[row * width + col]
}

/// Does the cell `(col, row)` lie inside the rectangle of size `w` by `h`
/// whose top-left corner is `(x, y)`?
pub open spec fn in_rect(col: int, row: int, x: int, y: int, w: int, h: int) -> bool {
    &&& x <= col < x + w
    &&& y <= row < y + h
}

/// Row-major indexing is injective: two cells with in-range columns map to
/// the same flat index only if they are the same cell.
pub proof fn lemma_row_major_injective(width: int, col1: int, row1: int, col2: int, row2: int)
    requires
        0 <= col1 < width,
        0 <= col2 < width,
        row1 * width + col1 == row2 * width + col2,
    ensures
        col1 == col2,
        row1 == row2,
{
    assert(col1 == col2 && row1 == row2) by (nonlinear_arith)
        requires
            0 <= col1 < width,
            0 <= col2 < width,
            row1 * width + col1 == row2 * width + col2,
    ;
}

/// The flat index of an in-range cell lies within the raster.
pub proof fn lemma_row_major_index_bounds(width: int, height: int, col: int, row: int)
    requires
        0 <= col < width,
        0 <= row < height,
    ensures
        0 <= row * width + col < width * height,
{
    assert(0 <= row * width + col < width * height) by (nonlinear_arith)
        requires
            0 <= col < width,
            0 <= row < height,
    ;
}

} // verus!
