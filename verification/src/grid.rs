//! Pixel-grid geometry: buffer sizes, row-major indices and row bands.

use vstd::prelude::*;

verus! {

/// Number of pixels of a grid of `bounds.0` columns and `bounds.1` rows.
pub open spec fn pixel_count_of(bounds: (usize, usize)) -> int {
    bounds.0 * bounds.1
}

/// Row-major position of the pixel at `column`, `row` in a grid `width` wide.
pub open spec fn index_of(width: int, column: int, row: int) -> int {
    row * width + column
}

/// Row of the pixel that the byte at index `k` of the buffer belongs to.
pub open spec fn row_of(bounds: (usize, usize), k: int) -> int {
    k / (bounds.0 as int)
}

/// Column of the pixel that the byte at index `k` of the buffer belongs to.
pub open spec fn column_of(bounds: (usize, usize), k: int) -> int {
    k % (bounds.0 as int)
}

/// Every pixel of the grid has its index inside the buffer.
pub proof fn lemma_index_in_buffer(bounds: (usize, usize), column: int, row: int)
    requires
        0 <= column < bounds.0,
        0 <= row < bounds.1,
    ensures
        0 <= index_of(bounds.0 as int, column, row) < pixel_count_of(bounds),
        row_of(bounds, index_of(bounds.0 as int, column, row)) == row,
        column_of(bounds, index_of(bounds.0 as int, column, row)) == column,
{
    let w = bounds.0 as int;
    let h = bounds.1 as int;
    assert(row * w + column < h * w) by (nonlinear_arith)
        requires
            0 <= column < w,
            0 <= row < h,
    ;
    assert(0 <= row * w + column) by (nonlinear_arith)
        requires
            0 <= column < w,
            0 <= row < h,
    ;
    assert(h * w == w * h) by (nonlinear_arith);
    vstd::arithmetic::div_mod::lemma_fundamental_div_mod_converse(row * w + column, w, row, column);
}

/// The buffer length of a grid, or `None` where it does not fit in `usize`.
pub fn pixel_count(bounds: (usize, usize)) -> (count: Option<usize>)
    ensures
        count == if pixel_count_of(bounds) <= usize::MAX {
            Some(pixel_count_of(bounds) as usize)
        } else {
            None
        },
{
    bounds.0.checked_mul(bounds.1)
}

/// The buffer index of a pixel of the grid.
pub fn pixel_index(bounds: (usize, usize), pixel: (usize, usize)) -> (index: usize)
    requires
        pixel.0 < bounds.0,
        pixel.1 < bounds.1,
        pixel_count_of(bounds) <= usize::MAX,
    ensures
        index == index_of(bounds.0 as int, pixel.0 as int, pixel.1 as int),
        index < pixel_count_of(bounds),
{
    proof {
        lemma_index_in_buffer(bounds, pixel.0 as int, pixel.1 as int);
        assert(0 <= pixel.1 * bounds.0 <= pixel.1 * bounds.0 + pixel.0) by (nonlinear_arith)
            requires
                0 <= pixel.0,
                0 <= pixel.1,
                0 <= bounds.0,
        ;
    }
    pixel.1 * bounds.0 + pixel.0
}

/// Every index of the buffer is the index of one pixel of the grid.
pub proof fn lemma_pixel_of_index(bounds: (usize, usize), k: int)
    requires
        0 <= k < pixel_count_of(bounds),
    ensures
        0 <= column_of(bounds, k) < bounds.0,
        0 <= row_of(bounds, k) < bounds.1,
        index_of(bounds.0 as int, column_of(bounds, k), row_of(bounds, k)) == k,
{
    let w = bounds.0 as int;
    let h = bounds.1 as int;
    assert(w > 0) by (nonlinear_arith)
        requires
            0 <= k < w * h,
            w >= 0,
    ;
    vstd::arithmetic::div_mod::lemma_fundamental_div_mod(k, w);
    vstd::arithmetic::div_mod::lemma_mod_bound(k, w);
    let q = k / w;
    let r = k % w;
    assert(k == w * q + r);
    assert(0 <= q < h) by (nonlinear_arith)
        requires
            k == w * q + r,
            0 <= r < w,
            0 <= k < w * h,
    ;
    assert(w * q == q * w) by (nonlinear_arith);
}

/// One row of the image, taken as a unit of work of its own.
#[derive(Clone, Copy, Debug, PartialEq, Eq)]
pub struct Band {
    /// The row of the image that the band holds.
    pub top: usize,
    /// The band's own grid: the image's width, one row.
    pub bounds: (usize, usize),
    /// Index in the image's buffer of the band's first byte.
    pub start: usize,
    /// Index in the image's buffer one past the band's last byte.
    pub end: usize,
    /// Column and row, in the image, of the band's upper left corner.
    pub upper_left: (usize, usize),
    /// Column and row, in the image, of the band's lower right corner.
    pub lower_right: (usize, usize),
}

impl Band {
    /// The band holds the byte at index `k` of the image's buffer.
    pub open spec fn holds(self, k: int) -> bool {
        self.start <= k < self.end
    }
}

/// The band of row `row` in an image of the given bounds.
pub open spec fn band_of(bounds: (usize, usize), row: usize) -> Band {
    Band {
        top: row,
        bounds: (bounds.0, 1),
        start: (row * bounds.0) as usize,
        end: ((row + 1) * bounds.0) as usize,
        upper_left: (0, row),
        lower_right: (bounds.0, (row + 1) as usize),
    }
}

/// A band of the image lies inside the image's buffer and is one row long.
pub proof fn lemma_band_in_buffer(bounds: (usize, usize), row: usize)
    requires
        row < bounds.1,
        pixel_count_of(bounds) <= usize::MAX,
    ensures
        band_of(bounds, row).start == row * bounds.0,
        band_of(bounds, row).end == (row + 1) * bounds.0,
        band_of(bounds, row).end == band_of(bounds, row).start + bounds.0,
        band_of(bounds, row).end <= pixel_count_of(bounds),
        band_of(bounds, row).lower_right.1 == row + 1,
{
    let w = bounds.0 as int;
    let h = bounds.1 as int;
    let i = row as int;
    assert(0 <= i * w && (i + 1) * w == i * w + w && (i + 1) * w <= w * h) by (nonlinear_arith)
        requires
            0 <= i < h,
            0 <= w,
    ;
}

/// The band of row `row`.
pub fn band(bounds: (usize, usize), row: usize) -> (band: Band)
    requires
        row < bounds.1,
        pixel_count_of(bounds) <= usize::MAX,
    ensures
        band == band_of(bounds, row),
        band.end - band.start == bounds.0,
        band.end <= pixel_count_of(bounds),
{
    proof {
        lemma_band_in_buffer(bounds, row);
    }
    let start = row * bounds.0;
    Band {
        top: row,
        bounds: (bounds.0, 1),
        start,
        end: start + bounds.0,
        upper_left: (0, row),
        lower_right: (bounds.0, row + 1),
    }
}

/// The bands of an image split its buffer: each lies inside the buffer, every
/// index of the buffer is held by the band of its row, and no index is held by
/// two bands.
pub proof fn lemma_bands_partition(bounds: (usize, usize))
    requires
        pixel_count_of(bounds) <= usize::MAX,
    ensures
        forall|row: usize|
            row < bounds.1 ==> (#[trigger] band_of(bounds, row)).start <= band_of(bounds, row).end
                <= pixel_count_of(bounds),
        forall|k: int|
            0 <= k < pixel_count_of(bounds) ==> 0 <= #[trigger] row_of(bounds, k) < bounds.1
                && band_of(bounds, row_of(bounds, k) as usize).holds(k),
        forall|k: int, first: usize, second: usize|
            first < bounds.1 && second < bounds.1 && #[trigger] band_of(bounds, first).holds(k)
                && #[trigger] band_of(bounds, second).holds(k) ==> first == second,
{
    let w = bounds.0 as int;
    assert forall|row: usize| row < bounds.1 implies (#[trigger] band_of(bounds, row)).start
        <= band_of(bounds, row).end <= pixel_count_of(bounds) by {
        lemma_band_in_buffer(bounds, row);
    }
    assert forall|k: int| 0 <= k < pixel_count_of(bounds) implies 0 <= #[trigger] row_of(bounds, k)
        < bounds.1 && band_of(bounds, row_of(bounds, k) as usize).holds(k) by {
        lemma_pixel_of_index(bounds, k);
        lemma_band_in_buffer(bounds, (k / w) as usize);
        assert(k == (k / w) * w + k % w);
        assert((k / w + 1) * w == (k / w) * w + w) by (nonlinear_arith);
    }
    assert forall|k: int, first: usize, second: usize|
        first < bounds.1 && second < bounds.1 && #[trigger] band_of(bounds, first).holds(k)
            && #[trigger] band_of(bounds, second).holds(k) implies first == second by {
        lemma_band_in_buffer(bounds, first);
        lemma_band_in_buffer(bounds, second);
        let i = first as int;
        let j = second as int;
        assert(i == j) by (nonlinear_arith)
            requires
                i * w <= k < (i + 1) * w,
                j * w <= k < (j + 1) * w,
        ;
    }
}

} // verus!
