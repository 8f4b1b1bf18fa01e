//! Filling a pixel buffer from per-pixel escape times.

use crate::grid::{
    band_of, index_of, lemma_band_in_buffer, lemma_index_in_buffer, lemma_pixel_of_index,
    pixel_count_of, pixel_index,
};
use vstd::prelude::*;

verus! {

/// The iteration limit that pixels are rendered with. Escape counts below it
/// fit in a byte, so no two of them share a grey level.
pub const ITERATION_LIMIT: usize = 255;

/// Grey level of a pixel: black where the point never escaped, else 255 less
/// the escape count taken modulo 256.
pub open spec fn intensity_of(escape: Option<usize>) -> u8 {
    match escape {
        None => 0u8,
        Some(count) => (255 - count % 256) as u8,
    }
}

/// The grey level of a pixel whose point gave `escape`.
pub fn intensity(escape: Option<usize>) -> (shade: u8)
    ensures
        shade == intensity_of(escape),
{
    match escape {
        None => 0,
        Some(count) => 255 - (count % 256) as u8,
    }
}

/// With a limit of at most `ITERATION_LIMIT` the grey level is 255 less the
/// escape count itself, and a pixel is black only where its point stayed.
pub proof fn lemma_black_means_stayed(escape: Option<usize>, limit: usize)
    requires
        limit <= ITERATION_LIMIT,
        escape matches Some(count) ==> count < limit,
    ensures
        escape matches Some(count) ==> intensity_of(escape) == 255 - count,
        intensity_of(escape) == 0 <==> escape is None,
{
}

/// The byte of `buffer` for the pixel at `column`, `row` is the grey level of
/// an escape time that `escape` can return for that pixel.
pub open spec fn pixel_rendered<F: Fn(usize, usize) -> Option<usize>>(
    buffer: Seq<u8>,
    bounds: (usize, usize),
    escape: F,
    column: usize,
    row: usize,
) -> bool {
    exists|e: Option<usize>| #[trigger]
        call_ensures(escape, (column, row), e) && buffer[index_of(
            bounds.0 as int,
            column as int,
            row as int,
        )] == intensity_of(e)
}

/// `buffer` has the length of the grid and holds a rendered byte for each of
/// its pixels.
pub open spec fn rendered<F: Fn(usize, usize) -> Option<usize>>(
    buffer: Seq<u8>,
    bounds: (usize, usize),
    escape: F,
) -> bool {
    &&& buffer.len() == pixel_count_of(bounds)
    &&& forall|column: usize, row: usize|
        column < bounds.0 && row < bounds.1 ==> #[trigger] pixel_rendered(
            buffer,
            bounds,
            escape,
            column,
            row,
        )
}

/// Fills `pixels`, row by row, with the grey level of every pixel of the grid.
pub fn render<F: Fn(usize, usize) -> Option<usize>>(
    pixels: &mut [u8],
    bounds: (usize, usize),
    escape: F,
)
    requires
        old(pixels)@.len() == pixel_count_of(bounds),
        forall|column: usize, row: usize|
            column < bounds.0 && row < bounds.1 ==> call_requires(escape, (column, row)),
    ensures
        rendered(final(pixels)@, bounds, escape),
{
    let size = pixels.len();
    let mut row: usize = 0;
    while row < bounds.1
        invariant
            row <= bounds.1,
            pixels@.len() == pixel_count_of(bounds),
            pixels@.len() == size,
            forall|column: usize, row: usize|
                column < bounds.0 && row < bounds.1 ==> call_requires(escape, (column, row)),
            forall|c: usize, r: usize|
                c < bounds.0 && r < row ==> #[trigger] pixel_rendered(pixels@, bounds, escape, c, r),
        decreases bounds.1 - row,
    {
        let mut column: usize = 0;
        while column < bounds.0
            invariant
                row < bounds.1,
                column <= bounds.0,
                pixels@.len() == pixel_count_of(bounds),
                pixels@.len() == size,
                forall|column: usize, row: usize|
                    column < bounds.0 && row < bounds.1 ==> call_requires(escape, (column, row)),
                forall|c: usize, r: usize|
                    c < bounds.0 && (r < row || (r == row && c < column))
                        ==> #[trigger] pixel_rendered(pixels@, bounds, escape, c, r),
            decreases bounds.0 - column,
        {
            let found = escape(column, row);
            let index = pixel_index(bounds, (column, row));
            let ghost before = pixels@;
            pixels[index] = intensity(found);
            proof {
                assert forall|c: usize, r: usize|
                    c < bounds.0 && (r < row || (r == row && c < column + 1))
                    implies #[trigger] pixel_rendered(pixels@, bounds, escape, c, r) by {
                    lemma_index_in_buffer(bounds, c as int, r as int);
                    lemma_index_in_buffer(bounds, column as int, row as int);
                    let k = index_of(bounds.0 as int, c as int, r as int);
                    if c == column && r == row {
                        assert(call_ensures(escape, (c, r), found));
                    } else {
                        assert(pixel_rendered(before, bounds, escape, c, r));
                        let e = choose|e: Option<usize>| #[trigger]
                            call_ensures(escape, (c, r), e) && before[k] == intensity_of(e);
                        assert(call_ensures(escape, (c, r), e) && pixels@[k] == intensity_of(e));
                    }
                }
            }
            column += 1;
        }
        row += 1;
    }
}

/// Rendering is repeatable: where `escape` returns one escape time for each
/// pixel, two buffers rendered for the same grid are equal byte for byte.
pub proof fn lemma_render_deterministic<F: Fn(usize, usize) -> Option<usize>>(
    first: Seq<u8>,
    second: Seq<u8>,
    bounds: (usize, usize),
    escape: F,
)
    requires
        rendered(first, bounds, escape),
        rendered(second, bounds, escape),
        forall|column: usize, row: usize, a: Option<usize>, b: Option<usize>|
            #![trigger call_ensures(escape, (column, row), a), call_ensures(escape, (column, row), b)]
            call_ensures(escape, (column, row), a) && call_ensures(escape, (column, row), b) ==> a
                == b,
    ensures
        first == second,
{
    let w = bounds.0 as int;
    assert forall|k: int| 0 <= k < first.len() implies first[k] == second[k] by {
        lemma_pixel_of_index(bounds, k);
        let column = (k % w) as usize;
        let row = (k / w) as usize;
        assert(pixel_rendered(first, bounds, escape, column, row));
        assert(pixel_rendered(second, bounds, escape, column, row));
        let a = choose|e: Option<usize>| #[trigger]
            call_ensures(escape, (column, row), e) && first[k] == intensity_of(e);
        let b = choose|e: Option<usize>| #[trigger]
            call_ensures(escape, (column, row), e) && second[k] == intensity_of(e);
        assert(a == b);
    }
    assert(first =~= second);
}

/// The bytes that the band of `row` holds of the image's buffer.
pub open spec fn band_bytes(buffer: Seq<u8>, bounds: (usize, usize), row: usize) -> Seq<u8> {
    buffer.subrange(band_of(bounds, row).start as int, band_of(bounds, row).end as int)
}

/// Bands rendered one by one make up the rendered image, in whatever order
/// they were filled: where each band of `buffer` is rendered on the band's own
/// grid by a function that returns, for a pixel of the band, only what `whole`
/// can return for that pixel of the image, `buffer` is rendered by `whole`.
pub proof fn lemma_bands_compose<
    F: Fn(usize, usize) -> Option<usize>,
    G: Fn(usize, usize) -> Option<usize>,
>(buffer: Seq<u8>, bounds: (usize, usize), whole: F, bands: spec_fn(usize) -> G)
    requires
        buffer.len() == pixel_count_of(bounds),
        pixel_count_of(bounds) <= usize::MAX,
        forall|row: usize|
            row < bounds.1 ==> rendered(
                #[trigger] band_bytes(buffer, bounds, row),
                band_of(bounds, row).bounds,
                bands(row),
            ),
        forall|row: usize, column: usize, e: Option<usize>|
            row < bounds.1 && column < bounds.0 && #[trigger] call_ensures(
                bands(row),
                (column, 0usize),
                e,
            ) ==> call_ensures(whole, (column, row), e),
    ensures
        rendered(buffer, bounds, whole),
{
    assert forall|column: usize, row: usize| column < bounds.0 && row < bounds.1 implies #[trigger] pixel_rendered(
        buffer,
        bounds,
        whole,
        column,
        row,
    ) by {
        lemma_band_in_buffer(bounds, row);
        lemma_index_in_buffer(bounds, column as int, row as int);
        let band = band_of(bounds, row);
        let bytes = band_bytes(buffer, bounds, row);
        assert(rendered(bytes, band.bounds, bands(row)));
        assert(pixel_rendered(bytes, band.bounds, bands(row), column, 0usize));
        let e = choose|e: Option<usize>| #[trigger]
            call_ensures(bands(row), (column, 0usize), e) && bytes[index_of(
                bounds.0 as int,
                column as int,
                0,
            )] == intensity_of(e);
        assert(bytes[column as int] == buffer[band.start + column]);
        assert(call_ensures(whole, (column, row), e));
    }
}

} // verus!
