//! Cutting a grid into horizontal bands, each a run of whole rows, and rendering
//! a buffer band by band.

use vstd::prelude::*;
use crate::grid::{
    buffer_size, column_of, lemma_byte_in_grid, lemma_pixel_offset, pixel_offset, row_of,
    valid_bounds, CHANNELS,
};
use crate::render::{painting, render, rendered_by, samples, samples_all};

verus! {

/// A run of whole rows of a grid: `rows` of them, the first being row `top`.
#[derive(Clone, Copy, Debug, PartialEq, Eq, Structural)]
pub struct Band {
    pub top: usize,
    pub rows: usize,
}

/// How many bands of `band_height` rows it takes to cover the grid; the last one
/// may be lower than the others.
pub open spec fn band_total(bounds: (usize, usize), band_height: usize) -> int {
    (bounds.1 - 1) / (band_height as int) + 1
}

/// The band with the given index, counted from the top.
pub open spec fn band_at(bounds: (usize, usize), band_height: usize, index: int) -> Band {
    let top = index * band_height;
    Band {
        top: top as usize,
        rows: (if bounds.1 - top < band_height {
            bounds.1 - top
        } else {
            band_height as int
        }) as usize,
    }
}

/// The sampler of a band: a band's row `row` is the grid's row `top + row`.
pub open spec fn shifted(counts: spec_fn(usize, usize) -> Option<usize>, top: usize) -> spec_fn(
    usize,
    usize,
) -> Option<usize> {
    |col: usize, row: usize| counts(col, (top + row) as usize)
}

impl Band {
    /// The band holds the row.
    pub open spec fn holds(self, row: int) -> bool {
        self.top <= row < self.top + self.rows
    }

    /// Where the band's bytes begin in the buffer of a grid that is `width` wide.
    pub open spec fn first_byte(self, width: usize) -> int {
        self.top * width * 4
    }

    /// Where the band's bytes end in the buffer of a grid that is `width` wide.
    pub open spec fn end_byte(self, width: usize) -> int {
        (self.top + self.rows) * width * 4
    }

    /// The band lies within the grid and is not empty.
    pub open spec fn within(self, bounds: (usize, usize)) -> bool {
        self.rows > 0 && self.top + self.rows <= bounds.1
    }

    /// The band as a grid of its own, `width` wide.
    pub fn bounds(&self, width: usize) -> (own: (usize, usize))
        ensures
            own == (width, self.rows),
    {
        (width, self.rows)
    }

    /// The pixels at the band's upper left and lower right corners, as (column,
    /// row) in the whole grid; the second lies one past the band's last pixel.
    pub fn corners(&self, width: usize) -> (ends: ((usize, usize), (usize, usize)))
        requires
            self.top + self.rows <= usize::MAX,
        ensures
            ends == ((0usize, self.top), (width, (self.top + self.rows) as usize)),
    {
        ((0, self.top), (width, self.top + self.rows))
    }

    /// The range of the buffer's bytes that belong to the band.
    pub fn byte_range(&self, bounds: (usize, usize)) -> (range: (usize, usize))
        requires
            valid_bounds(bounds),
            self.within(bounds),
        ensures
            range.0 == self.first_byte(bounds.0),
            range.1 == self.end_byte(bounds.0),
            range.0 < range.1 <= buffer_size(bounds),
    {
        proof {
            lemma_band_bytes(bounds, *self);
        }
        let stride: usize = bounds.0 * CHANNELS;
        (self.top * stride, (self.top + self.rows) * stride)
    }
}

/// A band within a grid is a valid grid itself, and its bytes lie in the buffer.
pub proof fn lemma_band_bytes(bounds: (usize, usize), band: Band)
    requires
        valid_bounds(bounds),
        band.within(bounds),
    ensures
        valid_bounds((bounds.0, band.rows)),
        bounds.0 * 4 <= usize::MAX,
        band.top * (bounds.0 * 4) == band.first_byte(bounds.0),
        (band.top + band.rows) * (bounds.0 * 4) == band.end_byte(bounds.0),
        0 <= band.first_byte(bounds.0) < band.end_byte(bounds.0) <= buffer_size(bounds),
        band.end_byte(bounds.0) - band.first_byte(bounds.0) == buffer_size((bounds.0, band.rows)),
{
    let w = bounds.0 as int;
    let h = bounds.1 as int;
    let t = band.top as int;
    let r = band.rows as int;
    assert(w * 4 <= w * h * 4 && w * r * 4 <= w * h * 4 && (t + r) * w * 4 <= w * h * 4 && t * w
        * 4 >= 0 && t * w * 4 < (t + r) * w * 4) by (nonlinear_arith)
        requires
            w > 0,
            h > 0,
            r > 0,
            t >= 0,
            t + r <= h,
    ;
    assert(t * (w * 4) == t * w * 4 && (t + r) * (w * 4) == (t + r) * w * 4 && (t + r) * w * 4
        - t * w * 4 == w * r * 4) by (nonlinear_arith);
}

/// The bands cover the grid without gap or overlap: the first begins at the top
/// row, each begins where the one before it ended, and the last ends at the
/// bottom row.
pub proof fn lemma_bands_adjoin(bounds: (usize, usize), band_height: usize, index: int)
    requires
        valid_bounds(bounds),
        band_height > 0,
        0 <= index < band_total(bounds, band_height),
    ensures
        band_at(bounds, band_height, index).within(bounds),
        band_at(bounds, band_height, index).top == index * band_height,
        index == 0 ==> band_at(bounds, band_height, index).top == 0,
        index + 1 < band_total(bounds, band_height) ==> band_at(
            bounds,
            band_height,
            index + 1,
        ).top == band_at(bounds, band_height, index).top + band_at(
            bounds,
            band_height,
            index,
        ).rows,
        index + 1 == band_total(bounds, band_height) ==> band_at(bounds, band_height, index).top
            + band_at(bounds, band_height, index).rows == bounds.1,
{
    let h = bounds.1 as int;
    let bh = band_height as int;
    let last = (h - 1) / bh;
    vstd::arithmetic::div_mod::lemma_fundamental_div_mod(h - 1, bh);
    assert(index * bh <= last * bh) by (nonlinear_arith)
        requires
            index <= last,
            bh > 0,
    ;
    assert(index * bh >= 0) by (nonlinear_arith)
        requires
            index >= 0,
            bh > 0,
    ;
    assert(last * bh == bh * last) by (nonlinear_arith);
    assert((index + 1) * bh == index * bh + bh) by (nonlinear_arith);
    assert(index == 0 ==> index * bh == 0) by (nonlinear_arith);
    if index + 1 < band_total(bounds, band_height) {
        assert((index + 1) * bh <= last * bh) by (nonlinear_arith)
            requires
                index + 1 <= last,
                bh > 0,
        ;
    }
}

/// Every row belongs to exactly one band.
pub proof fn lemma_row_in_one_band(bounds: (usize, usize), band_height: usize, row: int)
    requires
        valid_bounds(bounds),
        band_height > 0,
        0 <= row < bounds.1,
    ensures
        0 <= row / (band_height as int) < band_total(bounds, band_height),
        band_at(bounds, band_height, row / (band_height as int)).holds(row),
        forall|index: int|
            0 <= index < band_total(bounds, band_height) && #[trigger] band_at(
                bounds,
                band_height,
                index,
            ).holds(row) ==> index == row / (band_height as int),
{
    let h = bounds.1 as int;
    let bh = band_height as int;
    let home = row / bh;
    vstd::arithmetic::div_mod::lemma_fundamental_div_mod(row, bh);
    vstd::arithmetic::div_mod::lemma_div_is_ordered(row, h - 1, bh);
    assert(home * bh == bh * home) by (nonlinear_arith);
    assert(home >= 0) by (nonlinear_arith)
        requires
            row >= 0,
            bh > 0,
            row == bh * home + row % bh,
            0 <= row % bh < bh,
    ;
    lemma_bands_adjoin(bounds, band_height, home);
    assert forall|index: int|
        0 <= index < band_total(bounds, band_height) && #[trigger] band_at(
            bounds,
            band_height,
            index,
        ).holds(row) implies index == home by {
        lemma_bands_adjoin(bounds, band_height, index);
        let top = index * bh;
        assert(top <= row < top + bh);
        vstd::arithmetic::div_mod::lemma_fundamental_div_mod_converse(row, bh, index, row - top);
    }
}

/// The number of bands of `band_height` rows that cover the grid.
pub fn band_count(bounds: (usize, usize), band_height: usize) -> (count: usize)
    requires
        valid_bounds(bounds),
        band_height > 0,
    ensures
        count == band_total(bounds, band_height),
        count >= 1,
{
    proof {
        vstd::arithmetic::div_mod::lemma_div_pos_is_pos(bounds.1 - 1, band_height as int);
        vstd::arithmetic::div_mod::lemma_div_is_ordered_by_denominator(
            bounds.1 - 1,
            1,
            band_height as int,
        );
    }
    (bounds.1 - 1) / band_height + 1
}

/// The band with the given index.
pub fn band(bounds: (usize, usize), band_height: usize, index: usize) -> (band: Band)
    requires
        valid_bounds(bounds),
        band_height > 0,
        index < band_total(bounds, band_height),
    ensures
        band == band_at(bounds, band_height, index as int),
        band.within(bounds),
{
    proof {
        lemma_bands_adjoin(bounds, band_height, index as int);
    }
    let top: usize = index * band_height;
    let left: usize = bounds.1 - top;
    Band { top, rows: if left < band_height { left } else { band_height } }
}

/// A band's own painting is the band's part of the grid's painting.
pub proof fn lemma_band_painting(
    bounds: (usize, usize),
    counts: spec_fn(usize, usize) -> Option<usize>,
    band: Band,
)
    requires
        valid_bounds(bounds),
        band.within(bounds),
    ensures
        0 <= band.first_byte(bounds.0) <= band.end_byte(bounds.0) <= buffer_size(bounds),
        painting((bounds.0, band.rows), shifted(counts, band.top)) == painting(
            bounds,
            counts,
        ).subrange(band.first_byte(bounds.0), band.end_byte(bounds.0)),
{
    let own = (bounds.0, band.rows);
    let start = band.first_byte(bounds.0);
    let part = painting(bounds, counts).subrange(start, band.end_byte(bounds.0));
    lemma_band_bytes(bounds, band);
    assert forall|i: int| 0 <= i < buffer_size(own) implies painting(
        own,
        shifted(counts, band.top),
    )[i] == part[i] by {
        lemma_byte_in_grid(own, i);
        let col = column_of(own, i);
        let row = row_of(own, i);
        lemma_pixel_offset(bounds, col as int, band.top + row, i % 4);
        assert(pixel_offset(bounds, col as int, band.top + row) == start + pixel_offset(
            own,
            col as int,
            row as int,
        )) by (nonlinear_arith)
            requires
                start == band.top * bounds.0 * 4,
                own.0 == bounds.0,
        ;
    }
    assert(painting(own, shifted(counts, band.top)) =~= part);
}

/// A buffer whose bands were each painted as a grid of its own, a band's rows
/// counted from the band's top, holds the painting of the whole grid: the
/// bands share no byte and leave none out, so they can be painted in any order,
/// or all at once.
pub proof fn lemma_bands_make_whole(
    bounds: (usize, usize),
    band_height: usize,
    counts: spec_fn(usize, usize) -> Option<usize>,
    image: Seq<u8>,
)
    requires
        valid_bounds(bounds),
        band_height > 0,
        image.len() == buffer_size(bounds),
        forall|index: int|
            0 <= index < band_total(bounds, band_height) ==> image.subrange(
                (#[trigger] band_at(bounds, band_height, index)).first_byte(bounds.0),
                band_at(bounds, band_height, index).end_byte(bounds.0),
            ) == painting(
                (bounds.0, band_at(bounds, band_height, index).rows),
                shifted(counts, band_at(bounds, band_height, index).top),
            ),
    ensures
        image == painting(bounds, counts),
{
    assert forall|i: int| 0 <= i < buffer_size(bounds) implies image[i] == painting(
        bounds,
        counts,
    )[i] by {
        lemma_byte_in_grid(bounds, i);
        let col = column_of(bounds, i);
        let row = row_of(bounds, i);
        lemma_row_in_one_band(bounds, band_height, row as int);
        lemma_bands_adjoin(bounds, band_height, (row as int) / (band_height as int));
        let home = band_at(bounds, band_height, (row as int) / (band_height as int));
        let start = home.first_byte(bounds.0);
        let end = home.end_byte(bounds.0);
        lemma_band_painting(bounds, counts, home);
        assert(start <= i < end) by (nonlinear_arith)
            requires
                pixel_offset(bounds, col as int, row as int) + i % 4 == i,
                0 <= i % 4 < 4,
                col < bounds.0,
                home.top <= row < home.top + home.rows,
                start == home.top * bounds.0 * 4,
                end == (home.top + home.rows) * bounds.0 * 4,
        ;
        assert(image.subrange(start, end)[i - start] == image[i]);
        assert(painting(bounds, counts).subrange(start, end)[i - start] == painting(
            bounds,
            counts,
        )[i]);
    }
    assert(image =~= painting(bounds, counts));
}

/// Two paintings of a grid hold the same bytes in the rows on which their
/// counts agree.
pub proof fn lemma_rows_agree(
    bounds: (usize, usize),
    one: spec_fn(usize, usize) -> Option<usize>,
    other: spec_fn(usize, usize) -> Option<usize>,
    band: Band,
)
    requires
        valid_bounds(bounds),
        band.within(bounds),
        forall|col: usize, row: usize|
            col < bounds.0 && band.holds(row as int) ==> #[trigger] one(col, row) == other(
                col,
                row,
            ),
    ensures
        painting(bounds, one).subrange(band.first_byte(bounds.0), band.end_byte(bounds.0))
            == painting(bounds, other).subrange(
            band.first_byte(bounds.0),
            band.end_byte(bounds.0),
        ),
{
    let start = band.first_byte(bounds.0);
    let end = band.end_byte(bounds.0);
    lemma_band_bytes(bounds, band);
    assert forall|i: int| start <= i < end implies painting(bounds, one)[i] == painting(
        bounds,
        other,
    )[i] by {
        lemma_byte_in_grid(bounds, i);
        let col = column_of(bounds, i);
        let row = row_of(bounds, i);
        assert(band.top <= row < band.top + band.rows) by (nonlinear_arith)
            requires
                pixel_offset(bounds, col as int, row as int) + i % 4 == i,
                0 <= i % 4 < 4,
                col < bounds.0,
                band.top * bounds.0 * 4 <= i < (band.top + band.rows) * bounds.0 * 4,
        ;
        assert(one(col, row) == other(col, row));
    }
    assert(painting(bounds, one).subrange(start, end) =~= painting(bounds, other).subrange(
        start,
        end,
    ));
}

/// Renders the grid of `bounds` into `pixels` band by band, from the top down,
/// each band `band_height` rows high but for the last, which holds what is
/// left: every band is cut out of the buffer and rendered as a grid of its own,
/// its rows counted from its top. The buffer ends up as `render` leaves it.
pub fn render_bands<F: Fn(usize, usize) -> Option<usize>>(
    pixels: &mut [u8],
    bounds: (usize, usize),
    band_height: usize,
    sample: F,
)
    requires
        valid_bounds(bounds),
        band_height > 0,
        old(pixels)@.len() == buffer_size(bounds),
        samples_all(sample, bounds),
    ensures
        rendered_by(sample, bounds, final(pixels)@),
{
    let total = band_count(bounds, band_height);
    let sampler = &sample;
    let ghost mut counts: spec_fn(usize, usize) -> Option<usize> = |col: usize, row: usize| None;
    let ghost mut done: Band = Band { top: 0, rows: 0 };
    let mut index: usize = 0;
    proof {
        assert(done.end_byte(bounds.0) == 0) by (nonlinear_arith)
            requires
                done.top == 0,
                done.rows == 0,
        ;
        assert(pixels@.subrange(0, 0) =~= painting(bounds, counts).subrange(0, 0));
    }
    while index < total
        invariant
            valid_bounds(bounds),
            band_height > 0,
            total == band_total(bounds, band_height),
            pixels@.len() == buffer_size(bounds),
            samples_all(sample, bounds),
            sampler == &sample,
            index <= total,
            done.top == 0,
            done.rows <= bounds.1,
            index < total ==> done.rows == index * band_height,
            index == total ==> done.rows == bounds.1,
            0 <= done.end_byte(bounds.0) <= buffer_size(bounds),
            forall|col: usize, row: usize|
                col < bounds.0 && row < done.rows ==> #[trigger] sample.ensures(
                    (col, row),
                    counts(col, row),
                ),
            pixels@.subrange(0, done.end_byte(bounds.0)) == painting(bounds, counts).subrange(
                0,
                done.end_byte(bounds.0),
            ),
        decreases total - index,
    {
        let this = band(bounds, band_height, index);
        let own = this.bounds(bounds.0);
        let top = this.top;
        let (start, end) = this.byte_range(bounds);
        proof {
            lemma_band_bytes(bounds, this);
            lemma_bands_adjoin(bounds, band_height, index as int);
            assert(start == done.end_byte(bounds.0));
        }
        let ghost before = pixels@;
        let (_, rest) = pixels.split_at_mut(start);
        let (head, _) = rest.split_at_mut(end - start);
        let local = |col: usize, row: usize| -> (count: Option<usize>)
            requires
                col < own.0,
                row < own.1,
            ensures
                sampler.ensures((col, (top + row) as usize), count),
            { sampler(col, top + row) };
        render(head, own, local);
        proof {
            let head_counts = choose|counts: spec_fn(usize, usize) -> Option<usize>|
                samples(local, own, counts) && head@ == painting(own, counts);
            let earlier = counts;
            let merged = |col: usize, row: usize|
                if row < top {
                    earlier(col, row)
                } else {
                    head_counts(col, (row - top) as usize)
                };
            assert forall|col: usize, row: usize|
                col < bounds.0 && row < top + this.rows implies #[trigger] sample.ensures(
                (col, row),
                merged(col, row),
            ) by {
                if row >= top {
                    assert(local.ensures(
                        (col, (row - top) as usize),
                        head_counts(col, (row - top) as usize),
                    ));
                }
            }
            // the rows above are as they were
            if done.rows > 0 {
                lemma_rows_agree(bounds, merged, earlier, done);
            }
            assert(pixels@.subrange(0, start as int) =~= before.subrange(0, start as int));
            // the band's rows are the band's own painting
            lemma_band_painting(bounds, merged, this);
            assert forall|i: int| 0 <= i < buffer_size(own) implies painting(own, head_counts)[i]
                == painting(own, shifted(merged, top))[i] by {
                lemma_byte_in_grid(own, i);
            }
            assert(painting(own, head_counts) =~= painting(own, shifted(merged, top)));
            assert(pixels@.subrange(start as int, end as int) =~= head@);
            assert(pixels@.subrange(0, end as int) =~= painting(bounds, merged).subrange(
                0,
                end as int,
            )) by {
                let now = pixels@.subrange(0, end as int);
                let aim = painting(bounds, merged).subrange(0, end as int);
                assert forall|i: int| 0 <= i < end implies now[i] == aim[i] by {
                    if i < start {
                        assert(pixels@.subrange(0, start as int)[i] == painting(
                            bounds,
                            earlier,
                        ).subrange(0, start as int)[i]);
                        if done.rows > 0 {
                            assert(painting(bounds, merged).subrange(0, start as int)[i]
                                == painting(bounds, earlier).subrange(0, start as int)[i]);
                        }
                    } else {
                        assert(pixels@.subrange(start as int, end as int)[i - start] == painting(
                            bounds,
                            merged,
                        ).subrange(start as int, end as int)[i - start]);
                    }
                }
            }
            counts = merged;
            done = Band { top: 0, rows: (top + this.rows) as usize };
            if index + 1 < total {
                lemma_bands_adjoin(bounds, band_height, index + 1);
            }
        }
        index = index + 1;
    }
    proof {
        assert(done.end_byte(bounds.0) == buffer_size(bounds)) by (nonlinear_arith)
            requires
                done.top == 0,
                done.rows == bounds.1,
        ;
        assert(samples(sample, bounds, counts));
        assert(pixels@ =~= pixels@.subrange(0, buffer_size(bounds)));
        assert(painting(bounds, counts) =~= painting(bounds, counts).subrange(
            0,
            buffer_size(bounds),
        ));
    }
}

} // verus!
