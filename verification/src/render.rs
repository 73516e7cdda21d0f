//! Filling a buffer with the grey levels of a sampled grid.

use vstd::prelude::*;
use crate::grid::{
    buffer_size, column_of, lemma_byte_in_grid, lemma_pixel_offset, pixel_offset, row_of, shade,
    shade_of, valid_bounds, CHANNELS,
};

verus! {

/// The image of a grid: byte by byte, the grey level of the sample that `counts`
/// gives for the byte's pixel.
pub open spec fn painting(
    bounds: (usize, usize),
    counts: spec_fn(usize, usize) -> Option<usize>,
) -> Seq<u8> {
    Seq::new(
        buffer_size(bounds) as nat,
        |i: int| shade_of(counts(column_of(bounds, i), row_of(bounds, i))),
    )
}

/// `counts` holds, for each pixel of the grid, a result that `sample` may give there.
pub open spec fn samples<F: Fn(usize, usize) -> Option<usize>>(
    sample: F,
    bounds: (usize, usize),
    counts: spec_fn(usize, usize) -> Option<usize>,
) -> bool {
    forall|col: usize, row: usize|
        col < bounds.0 && row < bounds.1 ==> #[trigger] sample.ensures(
            (col, row),
            counts(col, row),
        )
}

/// `sample` accepts every pixel of the grid.
pub open spec fn samples_all<F: Fn(usize, usize) -> Option<usize>>(
    sample: F,
    bounds: (usize, usize),
) -> bool {
    forall|col: usize, row: usize|
        col < bounds.0 && row < bounds.1 ==> #[trigger] sample.requires((col, row))
}

/// `image` is what rendering the grid with `sample` may leave in a buffer.
pub open spec fn rendered_by<F: Fn(usize, usize) -> Option<usize>>(
    sample: F,
    bounds: (usize, usize),
    image: Seq<u8>,
) -> bool {
    exists|counts: spec_fn(usize, usize) -> Option<usize>|
        samples(sample, bounds, counts) && image == painting(bounds, counts)
}

/// In a painting, the four bytes of a pixel hold the grey level of its sample.
pub proof fn lemma_painting_pixel(
    bounds: (usize, usize),
    counts: spec_fn(usize, usize) -> Option<usize>,
    col: usize,
    row: usize,
    channel: int,
)
    requires
        valid_bounds(bounds),
        col < bounds.0,
        row < bounds.1,
        0 <= channel < 4,
    ensures
        0 <= pixel_offset(bounds, col as int, row as int) + channel < painting(
            bounds,
            counts,
        ).len(),
        painting(bounds, counts)[pixel_offset(bounds, col as int, row as int) + channel]
            == shade_of(counts(col, row)),
{
    lemma_pixel_offset(bounds, col as int, row as int, channel);
}

/// `sample` can give but one result for each pixel of the grid.
pub open spec fn single_valued<F: Fn(usize, usize) -> Option<usize>>(
    sample: F,
    bounds: (usize, usize),
) -> bool {
    forall|col: usize, row: usize, a: Option<usize>, b: Option<usize>|
        col < bounds.0 && row < bounds.1 && #[trigger] sample.ensures((col, row), a)
            && #[trigger] sample.ensures((col, row), b) ==> a == b
}

/// With a sampler that can give but one result for each pixel, rendering is
/// determined by the grid and the sampler alone: any two buffers rendered with
/// them are equal byte for byte, whatever they held before and whichever way
/// the pixels were gone through. So to render a second time changes nothing.
pub proof fn lemma_rendering_determined<F: Fn(usize, usize) -> Option<usize>>(
    sample: F,
    bounds: (usize, usize),
    first: Seq<u8>,
    second: Seq<u8>,
)
    requires
        valid_bounds(bounds),
        single_valued(sample, bounds),
        rendered_by(sample, bounds, first),
        rendered_by(sample, bounds, second),
    ensures
        first == second,
{
    let a = choose|counts: spec_fn(usize, usize) -> Option<usize>|
        samples(sample, bounds, counts) && first == painting(bounds, counts);
    let b = choose|counts: spec_fn(usize, usize) -> Option<usize>|
        samples(sample, bounds, counts) && second == painting(bounds, counts);
    assert forall|i: int| 0 <= i < buffer_size(bounds) implies first[i] == second[i] by {
        lemma_byte_in_grid(bounds, i);
        let col = column_of(bounds, i);
        let row = row_of(bounds, i);
        assert(sample.ensures((col, row), a(col, row)));
        assert(sample.ensures((col, row), b(col, row)));
    }
    assert(first =~= second);
}

/// Renders the grid of `bounds` into `pixels`: each pixel is sampled once, column
/// and row handed to `sample`, and the grey level of the result is written to
/// the pixel's four bytes. What `pixels` held before has no influence.
pub fn render<F: Fn(usize, usize) -> Option<usize>>(
    pixels: &mut [u8],
    bounds: (usize, usize),
    sample: F,
)
    requires
        valid_bounds(bounds),
        old(pixels)@.len() == buffer_size(bounds),
        samples_all(sample, bounds),
    ensures
        rendered_by(sample, bounds, final(pixels)@),
{
    let (width, height) = bounds;
    let ghost mut seen: Seq<Option<usize>> = Seq::empty();
    let mut cell: usize = 0;
    let mut row: usize = 0;
    while row < height
        invariant
            valid_bounds(bounds),
            bounds == (width, height),
            pixels@.len() == buffer_size(bounds),
            samples_all(sample, bounds),
            row <= height,
            cell == row * width,
            seen.len() == cell,
            forall|p: int|
                0 <= p < cell ==> sample.ensures(
                    (column_of(bounds, p * 4), row_of(bounds, p * 4)),
                    #[trigger] seen[p],
                ),
            forall|i: int| 0 <= i < cell * 4 ==> #[trigger] pixels@[i] == shade_of(seen[i / 4]),
        decreases height - row,
    {
        let mut col: usize = 0;
        while col < width
            invariant
                valid_bounds(bounds),
                bounds == (width, height),
                pixels@.len() == buffer_size(bounds),
                samples_all(sample, bounds),
                row < height,
                col <= width,
                cell == row * width + col,
                seen.len() == cell,
                forall|p: int|
                    0 <= p < cell ==> sample.ensures(
                        (column_of(bounds, p * 4), row_of(bounds, p * 4)),
                        #[trigger] seen[p],
                    ),
                forall|i: int|
                    0 <= i < cell * 4 ==> #[trigger] pixels@[i] == shade_of(seen[i / 4]),
            decreases width - col,
        {
            proof {
                lemma_pixel_offset(bounds, col as int, row as int, 0);
                lemma_pixel_offset(bounds, col as int, row as int, 3);
            }
            let count = sample(col, row);
            let level = shade(count);
            let base: usize = cell * CHANNELS;
            pixels[base] = level;
            pixels[base + 1] = level;
            pixels[base + 2] = level;
            pixels[base + 3] = level;
            proof {
                seen = seen.push(count);
            }
            cell = cell + 1;
            col = col + 1;
        }
        proof {
            assert((row + 1) * width == row * width + width) by (nonlinear_arith);
        }
        row = row + 1;
    }
    proof {
        assert(cell * 4 == buffer_size(bounds)) by (nonlinear_arith)
            requires
                cell == height * width,
                buffer_size(bounds) == width * height * 4,
        ;
        let counts = |col: usize, row: usize| seen[row * width + col];
        assert forall|col: usize, row: usize| col < bounds.0 && row < bounds.1 implies
            #[trigger] sample.ensures((col, row), counts(col, row)) by {
            lemma_pixel_offset(bounds, col as int, row as int, 0);
            let p = row * width + col;
            assert(0 <= p < cell);
            assert(seen[p] == counts(col, row));
        }
        assert forall|i: int| 0 <= i < buffer_size(bounds) implies pixels@[i] == painting(
            bounds,
            counts,
        )[i] by {
            lemma_byte_in_grid(bounds, i);
        }
        assert(pixels@ =~= painting(bounds, counts));
    }
}

} // verus!
