//! The layout of a pixel grid in a byte buffer, and the grey level of a sample.

use vstd::prelude::*;
use vstd::arithmetic::div_mod::{lemma_fundamental_div_mod, lemma_fundamental_div_mod_converse};

verus! {

/// Bytes per pixel: one grey level, repeated over red, green, blue and alpha.
pub const CHANNELS: usize = 4;

/// The most steps that a sample is given to escape. Counts below it have a grey
/// level each, and none of them is black.
pub const ESCAPE_LIMIT: usize = 255;

/// The number of bytes that a grid of `bounds` (width, height) takes.
pub open spec fn buffer_size(bounds: (usize, usize)) -> int {
    bounds.0 * bounds.1 * 4
}

/// A grid has at least one column and one row, and its buffer can be addressed.
pub open spec fn valid_bounds(bounds: (usize, usize)) -> bool {
    &&& bounds.0 > 0
    &&& bounds.1 > 0
    &&& buffer_size(bounds) <= usize::MAX
}

/// The column of the pixel that byte `i` of a buffer belongs to.
pub open spec fn column_of(bounds: (usize, usize), i: int) -> usize {
    ((i / 4) % (bounds.0 as int)) as usize
}

/// The row of the pixel that byte `i` of a buffer belongs to.
pub open spec fn row_of(bounds: (usize, usize), i: int) -> usize {
    ((i / 4) / (bounds.0 as int)) as usize
}

/// Where the first byte of pixel (`col`, `row`) stands: rows follow one another,
/// top row first, and within a row the pixels go from left to right.
pub open spec fn pixel_offset(bounds: (usize, usize), col: int, row: int) -> int {
    (row * bounds.0 + col) * 4
}

/// The grey level of a sample: black for one that never escaped, and the brighter
/// the sooner it did. Only the low eight bits of the count are looked at.
pub open spec fn shade_of(count: Option<usize>) -> u8 {
    match count {
        None => 0u8,
        Some(n) => (255 - n % 256) as u8,
    }
}

/// Below the limit a count `n` is shown as 255 less `n`: the sooner a sample
/// escaped the brighter it is, and only one that never did is black.
pub proof fn lemma_shades_in_order(sooner: usize, later: usize)
    requires
        sooner < later < ESCAPE_LIMIT,
    ensures
        shade_of(Some(sooner)) == 255 - sooner,
        shade_of(Some(later)) == 255 - later,
        shade_of(Some(sooner)) > shade_of(Some(later)) > shade_of(None),
{
}

/// Every byte of a pixel lies in the buffer and leads back to that pixel.
pub proof fn lemma_pixel_offset(bounds: (usize, usize), col: int, row: int, channel: int)
    requires
        valid_bounds(bounds),
        0 <= col < bounds.0,
        0 <= row < bounds.1,
        0 <= channel < 4,
    ensures
        0 <= pixel_offset(bounds, col, row) + channel < buffer_size(bounds),
        column_of(bounds, pixel_offset(bounds, col, row) + channel) == col,
        row_of(bounds, pixel_offset(bounds, col, row) + channel) == row,
{
    let w = bounds.0 as int;
    let h = bounds.1 as int;
    let cell = row * w + col;
    assert(0 <= row * w && row * w + w <= h * w) by (nonlinear_arith)
        requires
            0 <= row < h,
            0 < w,
    ;
    assert(h * w * 4 == w * h * 4) by (nonlinear_arith);
    assert((cell * 4 + channel) / 4 == cell);
    lemma_fundamental_div_mod_converse(cell, w, row, col);
}

/// Every byte of a buffer belongs to a pixel of the grid.
pub proof fn lemma_byte_in_grid(bounds: (usize, usize), i: int)
    requires
        valid_bounds(bounds),
        0 <= i < buffer_size(bounds),
    ensures
        column_of(bounds, i) < bounds.0,
        row_of(bounds, i) < bounds.1,
        pixel_offset(bounds, column_of(bounds, i) as int, row_of(bounds, i) as int) + i % 4 == i,
{
    let w = bounds.0 as int;
    let h = bounds.1 as int;
    let cell = i / 4;
    assert(w * h * 4 == (w * h) * 4) by (nonlinear_arith);
    assert(cell < w * h);
    assert(0 <= cell % w < w);
    assert(cell == w * (cell / w) + cell % w) by {
        lemma_fundamental_div_mod(cell, w);
    }
    assert(0 <= cell / w < h) by (nonlinear_arith)
        requires
            0 <= cell < w * h,
            0 < w,
            cell == w * (cell / w) + cell % w,
            0 <= cell % w < w,
    ;
    assert((cell / w) * w == w * (cell / w)) by (nonlinear_arith);
}

/// The number of bytes for a grid of `bounds`, where the grid is valid.
pub fn buffer_len(bounds: (usize, usize)) -> (len: Option<usize>)
    ensures
        valid_bounds(bounds) ==> len == Some(buffer_size(bounds) as usize),
        !valid_bounds(bounds) ==> len.is_none(),
{
    let (width, height) = bounds;
    if width == 0 || height == 0 {
        return None;
    }
    let cells_max: usize = usize::MAX / CHANNELS;
    if width > cells_max / height {
        proof {
            // width * height exceeds what four channels leave room for
            assert(width * height * 4 > usize::MAX) by (nonlinear_arith)
                requires
                    width > cells_max / height,
                    height > 0,
                    cells_max == usize::MAX / 4,
            ;
        }
        return None;
    }
    proof {
        assert(width * height <= cells_max) by (nonlinear_arith)
            requires
                width <= cells_max / height,
                height > 0,
        ;
    }
    Some(width * height * CHANNELS)
}

/// The grey level written for a sample.
pub fn shade(count: Option<usize>) -> (level: u8)
    ensures
        level == shade_of(count),
{
    match count {
        None => 0,
        Some(n) => {
            let low: usize = n % 256;
            let low8: u8 = low as u8;
            255 - low8
        },
    }
}

} // verus!
