//! The band renderer: classify each pixel of a band, colour it, and write its
//! samples at the pixel's place in the band's part of the buffer.

use vstd::prelude::*;
use crate::classify::Classification;
use crate::color::{colorize_gray, colorize_rgb, sample_bytes, SampleFormat};
use crate::raster::{lemma_coordinate_roundtrip, lemma_index_in_range, Dimensions};

verus! {

/// The samples of the pixel `(column, row)` in a buffer of the given layout.
pub open spec fn pixel_samples(
    buffer: Seq<u8>,
    dims: Dimensions,
    format: SampleFormat,
    column: int,
    row: int,
) -> Seq<u8> {
    let first = dims.index_of(column, row) * format.spec_channels();
    buffer.subrange(first, first + format.spec_channels())
}

/// The pixel `(column, row)` of the buffer shows an outcome that `classify`
/// can give for it.
pub open spec fn pixel_rendered<F: Fn(usize, usize) -> Classification>(
    buffer: Seq<u8>,
    dims: Dimensions,
    format: SampleFormat,
    classify: F,
    column: usize,
    row: usize,
) -> bool {
    exists|outcome: Classification|
        #[trigger] classify.ensures((column, row), outcome) && pixel_samples(
            buffer,
            dims,
            format,
            column as int,
            row as int,
        ) == sample_bytes(format, outcome)
}

/// The buffer holds the whole raster, each pixel showing an outcome that
/// `classify` can give for it.
pub open spec fn rendered<F: Fn(usize, usize) -> Classification>(
    buffer: Seq<u8>,
    dims: Dimensions,
    format: SampleFormat,
    classify: F,
) -> bool {
    &&& buffer.len() == sample_count(dims, format)
    &&& forall|column: usize, row: usize|
        dims.contains(column as int, row as int) ==> #[trigger] pixel_rendered(
            buffer,
            dims,
            format,
            classify,
            column,
            row,
        )
}

/// Number of samples of a whole raster in the given format.
pub open spec fn sample_count(dims: Dimensions, format: SampleFormat) -> int {
    dims.pixel_count() * format.spec_channels()
}

/// Number of samples that a buffer for the raster needs, or nothing where
/// that number does not fit a machine word.
pub fn buffer_len(dims: Dimensions, format: SampleFormat) -> (len: Option<usize>)
    requires
        dims.wf(),
    ensures
        len == if sample_count(dims, format) <= usize::MAX {
            Some(sample_count(dims, format) as usize)
        } else {
            None
        },
{
    dims.len().checked_mul(format.channels())
}

/// A buffer for the raster with every sample zero, or nothing where the
/// number of samples does not fit a machine word.
pub fn blank_buffer(dims: Dimensions, format: SampleFormat) -> (buffer: Option<Vec<u8>>)
    requires
        dims.wf(),
    ensures
        buffer.is_some() <==> sample_count(dims, format) <= usize::MAX,
        buffer matches Some(samples) ==> samples@ == Seq::new(
            sample_count(dims, format) as nat,
            |k: int| 0u8,
        ),
{
    match buffer_len(dims, format) {
        Some(len) => {
            let samples = vec![0u8; len];
            assert(samples@ =~= Seq::new(sample_count(dims, format) as nat, |k: int| 0u8));
            Some(samples)
        },
        None => None,
    }
}

/// Bounds of a pixel's samples in the buffer.
pub proof fn lemma_pixel_bounds(dims: Dimensions, format: SampleFormat, column: int, row: int)
    requires
        dims.width > 0,
        dims.contains(column, row),
    ensures
        0 <= dims.index_of(column, row) * format.spec_channels(),
        dims.index_of(column, row) * format.spec_channels() + format.spec_channels()
            <= dims.pixel_count() * format.spec_channels(),
{
    lemma_index_in_range(dims, column, row);
    let i = dims.index_of(column, row);
    let n = dims.pixel_count();
    let c = format.spec_channels();
    assert(0 <= i * c && i * c + c <= n * c) by (nonlinear_arith)
        requires
            0 <= i < n,
            c >= 1,
    ;
}

/// Writing inside one pixel's samples leaves every other pixel's samples as
/// they were.
proof fn lemma_other_pixel_kept(
    before: Seq<u8>,
    after: Seq<u8>,
    dims: Dimensions,
    format: SampleFormat,
    written: int,
    column: int,
    row: int,
)
    requires
        dims.width > 0,
        dims.contains(column, row),
        before.len() == dims.pixel_count() * format.spec_channels(),
        after.len() == before.len(),
        0 <= written,
        dims.index_of(column, row) != written,
        forall|k: int|
            0 <= k < before.len() && !(written * format.spec_channels() <= k < written
                * format.spec_channels() + format.spec_channels()) ==> after[k] == before[k],
    ensures
        pixel_samples(after, dims, format, column, row) == pixel_samples(
            before,
            dims,
            format,
            column,
            row,
        ),
{
    lemma_pixel_bounds(dims, format, column, row);
    let c = format.spec_channels();
    let i = dims.index_of(column, row);
    assert(i * c + c <= written * c || written * c + c <= i * c) by (nonlinear_arith)
        requires
            i != written,
            c >= 1,
    ;
    assert(pixel_samples(after, dims, format, column, row) =~= pixel_samples(
        before,
        dims,
        format,
        column,
        row,
    ));
}

/// Renders one band: for each of its pixels, asks `classify` for the outcome
/// at `(column, row)`, counted within the band, and writes the colour of that
/// outcome at the pixel's place. The buffer is the band's own: it holds the
/// band's pixels row by row and nothing else, and every sample of it is
/// written.
pub fn render_band<F: Fn(usize, usize) -> Classification>(
    out: &mut [u8],
    dims: Dimensions,
    format: SampleFormat,
    classify: F,
)
    requires
        dims.wf(),
        old(out)@.len() == sample_count(dims, format),
        forall|column: usize, row: usize|
            dims.contains(column as int, row as int) ==> #[trigger] classify.requires((column, row)),
    ensures
        rendered(final(out)@, dims, format, classify),
{
    let channels = format.channels();
    let mut row: usize = 0;
    while row < dims.height
        invariant
            dims.wf(),
            channels == format.spec_channels(),
            0 <= row <= dims.height,
            out@.len() == dims.pixel_count() * format.spec_channels(),
            forall|column: usize, row: usize|
                dims.contains(column as int, row as int) ==> #[trigger] classify.requires((column, row)),
            forall|c: usize, r: usize|
                dims.contains(c as int, r as int) && r < row ==> #[trigger] pixel_rendered(
                    out@,
                    dims,
                    format,
                    classify,
                    c,
                    r,
                ),
        decreases dims.height - row,
    {
        let mut column: usize = 0;
        while column < dims.width
            invariant
                dims.wf(),
                channels == format.spec_channels(),
                0 <= row < dims.height,
                0 <= column <= dims.width,
                out@.len() == dims.pixel_count() * format.spec_channels(),
                forall|column: usize, row: usize|
                    dims.contains(column as int, row as int) ==> #[trigger] classify.requires((column, row)),
                forall|c: usize, r: usize|
                    dims.contains(c as int, r as int) && (r < row || (r == row && c < column))
                        ==> #[trigger] pixel_rendered(out@, dims, format, classify, c, r),
            decreases dims.width - column,
        {
            let outcome = classify(column, row);
            let index = dims.offset(column, row);
            proof {
                lemma_pixel_bounds(dims, format, column as int, row as int);
            }
            let first = index * channels;
            let ghost before = out@;
            match format {
                SampleFormat::Gray => {
                    out[first] = colorize_gray(outcome);
                },
                SampleFormat::Rgb => {
                    let color = colorize_rgb(outcome);
                    out[first] = color.red;
                    out[first + 1] = color.green;
                    out[first + 2] = color.blue;
                },
            }
            proof {
                assert(pixel_samples(out@, dims, format, column as int, row as int)
                    =~= sample_bytes(format, outcome));
                assert(pixel_rendered(out@, dims, format, classify, column, row));
                assert forall|c: usize, r: usize|
                    dims.contains(c as int, r as int) && (r < row || (r == row && c
                        < column)) implies #[trigger] pixel_rendered(
                    out@,
                    dims,
                    format,
                    classify,
                    c,
                    r,
                ) by {
                    assert(pixel_rendered(before, dims, format, classify, c, r));
                    lemma_coordinate_roundtrip(dims, c as int, r as int);
                    lemma_coordinate_roundtrip(dims, column as int, row as int);
                    lemma_other_pixel_kept(
                        before,
                        out@,
                        dims,
                        format,
                        index as int,
                        c as int,
                        r as int,
                    );
                }
            }
            column += 1;
        }
        row += 1;
    }
}

} // verus!
