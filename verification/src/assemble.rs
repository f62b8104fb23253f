//! What a finished buffer holds when each pixel has one outcome, and why it
//! does not matter into which bands the rows were split to get there.

use vstd::prelude::*;
use vstd::arithmetic::div_mod::{
    lemma_fundamental_div_mod,
    lemma_fundamental_div_mod_converse,
};
use crate::bands::{
    is_partition,
    lemma_band_fits,
    lemma_partition_bounded,
    lemma_partition_covers,
    Band,
};
use crate::classify::Classification;
use crate::color::{sample_bytes, SampleFormat};
use crate::raster::{lemma_position_roundtrip, Dimensions};
use crate::render::{pixel_rendered, pixel_samples, rendered};

verus! {

/// The buffer of a raster in which the pixel `(column, row)` has the outcome
/// `outcome(column, row)`: row by row from the top, each row from the left,
/// each pixel by its samples.
pub open spec fn image_of(
    dims: Dimensions,
    format: SampleFormat,
    outcome: spec_fn(int, int) -> Classification,
) -> Seq<u8> {
    let channels = format.spec_channels();
    Seq::new(
        (dims.pixel_count() * channels) as nat,
        |k: int|
            sample_bytes(
                format,
                outcome(dims.column_of(k / channels), dims.row_of(k / channels)),
            )[k % channels],
    )
}

/// The outcomes of a band's pixels, counted from the band's own top row.
pub open spec fn band_outcome(
    band: Band,
    outcome: spec_fn(int, int) -> Classification,
) -> spec_fn(int, int) -> Classification {
    |column: int, row: int| outcome(column, row + band.top)
}

/// The buffer of one band, rendered alone.
pub open spec fn band_image(
    dims: Dimensions,
    format: SampleFormat,
    band: Band,
    outcome: spec_fn(int, int) -> Classification,
) -> Seq<u8> {
    image_of(band.spec_dimensions(dims.width), format, band_outcome(band, outcome))
}

/// The buffers of the bands, each rendered alone, one after the other.
pub open spec fn assembled(
    dims: Dimensions,
    format: SampleFormat,
    bands: Seq<Band>,
    outcome: spec_fn(int, int) -> Classification,
) -> Seq<u8>
    decreases bands.len(),
{
    if bands.len() == 0 {
        Seq::empty()
    } else {
        assembled(dims, format, bands.drop_last(), outcome) + band_image(
            dims,
            format,
            bands.last(),
            outcome,
        )
    }
}

/// Where the classifier can give only one outcome for each pixel, a rendered
/// buffer is the image of those outcomes, sample for sample.
pub proof fn lemma_rendered_is_image<F: Fn(usize, usize) -> Classification>(
    buffer: Seq<u8>,
    dims: Dimensions,
    format: SampleFormat,
    classify: F,
    outcome: spec_fn(int, int) -> Classification,
)
    requires
        dims.wf(),
        rendered(buffer, dims, format, classify),
        forall|column: usize, row: usize, given: Classification| #[trigger]
            classify.ensures((column, row), given) ==> given == outcome(column as int, row as int),
    ensures
        buffer == image_of(dims, format, outcome),
{
    let channels = format.spec_channels();
    let image = image_of(dims, format, outcome);
    assert forall|k: int| 0 <= k < buffer.len() implies buffer[k] == image[k] by {
        let p = k / channels;
        lemma_fundamental_div_mod(k, channels);
        assert(0 <= p < dims.pixel_count()) by (nonlinear_arith)
            requires
                0 <= k < dims.pixel_count() * channels,
                channels >= 1,
                k == channels * p + k % channels,
                0 <= k % channels < channels,
        ;
        lemma_position_roundtrip(dims, p);
        let column = dims.column_of(p) as usize;
        let row = dims.row_of(p) as usize;
        assert(pixel_rendered(buffer, dims, format, classify, column, row));
        let given = choose|given: Classification|
            #[trigger] classify.ensures((column, row), given) && pixel_samples(
                buffer,
                dims,
                format,
                column as int,
                row as int,
            ) == sample_bytes(format, given);
        assert(given == outcome(column as int, row as int));
        assert(p * channels == channels * p) by (nonlinear_arith);
        assert(buffer[k] == pixel_samples(buffer, dims, format, column as int, row as int)[k
            % channels]);
    }
    assert(buffer =~= image);
}

/// A band rendered alone holds what the band's rows hold in the image of the
/// whole raster.
pub proof fn lemma_band_image_in_place(
    dims: Dimensions,
    format: SampleFormat,
    band: Band,
    outcome: spec_fn(int, int) -> Classification,
)
    requires
        dims.wf(),
        band.within(dims),
    ensures
        0 <= band.spec_start(dims.width * format.spec_channels()) <= band.spec_end(
            dims.width * format.spec_channels(),
        ) <= image_of(dims, format, outcome).len(),
        band_image(dims, format, band, outcome) == image_of(dims, format, outcome).subrange(
            band.spec_start(dims.width * format.spec_channels()),
            band.spec_end(dims.width * format.spec_channels()),
        ),
{
    let channels = format.spec_channels();
    let w = dims.width as int;
    let stride = w * channels;
    let top = band.top as int;
    let rows = band.spec_rows();
    let own = band.spec_dimensions(dims.width);
    let part = band_image(dims, format, band, outcome);
    let whole = image_of(dims, format, outcome);
    let start = band.spec_start(stride);
    assert(stride >= 1) by (nonlinear_arith)
        requires
            w >= 1,
            channels >= 1,
            stride == w * channels,
    ;
    lemma_band_fits(band, stride, dims.height as int);
    assert(dims.height * stride == dims.pixel_count() * channels) by (nonlinear_arith)
        requires
            stride == w * channels,
            dims.pixel_count() == w * dims.height,
    ;
    assert(own.pixel_count() * channels == rows * stride) by (nonlinear_arith)
        requires
            stride == w * channels,
            own.pixel_count() == w * rows,
    ;
    let cut = whole.subrange(start, band.spec_end(stride));
    assert(part.len() == cut.len());
    assert forall|k: int| 0 <= k < part.len() implies part[k] == cut[k] by {
        let p = k / channels;
        let s = k % channels;
        lemma_fundamental_div_mod(k, channels);
        assert(start + k == channels * (top * w + p) + s) by (nonlinear_arith)
            requires
                start == top * (w * channels),
                k == channels * p + s,
        ;
        assert(p >= 0) by (nonlinear_arith)
            requires
                k >= 0,
                channels >= 1,
                k == channels * p + s,
                s < channels,
        ;
        lemma_fundamental_div_mod_converse(start + k, channels, top * w + p, s);
        let c = p % w;
        let r = p / w;
        lemma_fundamental_div_mod(p, w);
        assert(top * w + p == w * (top + r) + c) by (nonlinear_arith)
            requires
                p == w * r + c,
        ;
        lemma_fundamental_div_mod_converse(top * w + p, w, top + r, c);
        assert(own.column_of(p) == c);
        assert(own.row_of(p) == r);
        assert(dims.column_of(top * w + p) == c);
        assert(dims.row_of(top * w + p) == top + r);
        assert(band_outcome(band, outcome)(c, r) == outcome(c, r + top));
        assert(cut[k] == whole[start + k]);
    }
    assert(part =~= cut);
}

/// The bands of a partition, taken in order up to some band, assemble to the
/// image of the whole raster up to that band's last row.
proof fn lemma_assembled_prefix(
    dims: Dimensions,
    format: SampleFormat,
    bands: Seq<Band>,
    outcome: spec_fn(int, int) -> Classification,
    upto: int,
)
    requires
        dims.wf(),
        is_partition(bands, dims.height as int),
        1 <= upto <= bands.len(),
    ensures
        0 <= bands[upto - 1].spec_end(dims.width * format.spec_channels()) <= image_of(
            dims,
            format,
            outcome,
        ).len(),
        assembled(dims, format, bands.take(upto), outcome) == image_of(
            dims,
            format,
            outcome,
        ).subrange(0, bands[upto - 1].spec_end(dims.width * format.spec_channels())),
    decreases upto,
{
    let stride = dims.width * format.spec_channels();
    let whole = image_of(dims, format, outcome);
    let band = bands[upto - 1];
    let taken = bands.take(upto);
    lemma_partition_bounded(bands, dims.height as int, upto - 1);
    lemma_band_image_in_place(dims, format, band, outcome);
    assert(taken.last() == band);
    assert(taken.drop_last() =~= bands.take(upto - 1));
    if upto == 1 {
        assert(band.spec_start(stride) == 0) by (nonlinear_arith)
            requires
                band.top == 0,
        ;
        assert(assembled(dims, format, bands.take(0), outcome) =~= Seq::<u8>::empty());
        assert(assembled(dims, format, taken, outcome) =~= whole.subrange(
            0,
            band.spec_end(stride),
        ));
    } else {
        lemma_assembled_prefix(dims, format, bands, outcome, upto - 1);
        assert(bands[upto - 2].bottom == bands[upto - 2 + 1].top);
        assert(bands[upto - 2].spec_end(stride) == band.spec_start(stride));
        assert(assembled(dims, format, taken, outcome) =~= whole.subrange(
            0,
            band.spec_end(stride),
        ));
    }
}

/// Band equivalence: whatever partition of the rows the bands are, rendering
/// each band alone and laying the results end to end gives the buffer that
/// rendering the whole raster in one piece gives.
pub proof fn lemma_band_equivalence(
    dims: Dimensions,
    format: SampleFormat,
    bands: Seq<Band>,
    outcome: spec_fn(int, int) -> Classification,
)
    requires
        dims.wf(),
        is_partition(bands, dims.height as int),
    ensures
        assembled(dims, format, bands, outcome) == image_of(dims, format, outcome),
{
    let stride = dims.width * format.spec_channels();
    let whole = image_of(dims, format, outcome);
    lemma_assembled_prefix(dims, format, bands, outcome, bands.len() as int);
    assert(bands.take(bands.len() as int) =~= bands);
    assert(dims.height * stride == dims.pixel_count() * format.spec_channels())
        by (nonlinear_arith)
        requires
            stride == dims.width * format.spec_channels(),
            dims.pixel_count() == dims.width * dims.height,
    ;
    assert(whole.subrange(0, whole.len() as int) =~= whole);
}

/// The classifier of a band answers for each of the band's pixels what
/// `outcome` says of that pixel in the whole raster.
pub open spec fn answers_for_band<G: Fn(usize, usize) -> Classification>(
    part: G,
    band: Band,
    outcome: spec_fn(int, int) -> Classification,
) -> bool {
    forall|column: usize, row: usize, given: Classification| #[trigger]
        part.ensures((column, row), given) ==> given == outcome(column as int, row + band.top)
}

/// Band equivalence of the renderer: take a buffer whose slices were rendered
/// band by band, for any partition of the rows, each band by a classifier
/// that answers as `outcome` says, and a buffer rendered in one piece by such
/// a classifier. The two buffers are the same, sample by sample.
pub proof fn lemma_banded_render_is_whole<
    F: Fn(usize, usize) -> Classification,
    G: Fn(usize, usize) -> Classification,
>(
    whole: Seq<u8>,
    banded: Seq<u8>,
    dims: Dimensions,
    format: SampleFormat,
    bands: Seq<Band>,
    classify: F,
    parts: Seq<G>,
    outcome: spec_fn(int, int) -> Classification,
)
    requires
        dims.wf(),
        is_partition(bands, dims.height as int),
        rendered(whole, dims, format, classify),
        forall|column: usize, row: usize, given: Classification| #[trigger]
            classify.ensures((column, row), given) ==> given == outcome(column as int, row as int),
        banded.len() == whole.len(),
        parts.len() == bands.len(),
        forall|i: int|
            0 <= i < bands.len() ==> answers_for_band(#[trigger] parts[i], bands[i], outcome),
        forall|i: int|
            0 <= i < bands.len() ==> rendered(
                banded.subrange(
                    bands[i].spec_start(dims.width * format.spec_channels()),
                    bands[i].spec_end(dims.width * format.spec_channels()),
                ),
                bands[i].spec_dimensions(dims.width),
                format,
                #[trigger] parts[i],
            ),
    ensures
        banded == whole,
{
    let channels = format.spec_channels();
    let w = dims.width as int;
    let h = dims.height as int;
    let stride = w * channels;
    let image = image_of(dims, format, outcome);
    lemma_rendered_is_image(whole, dims, format, classify, outcome);
    assert(stride >= 1) by (nonlinear_arith)
        requires
            w >= 1,
            channels >= 1,
            stride == w * channels,
    ;
    assert(h * stride == dims.pixel_count() * channels) by (nonlinear_arith)
        requires
            stride == w * channels,
            dims.pixel_count() == w * h,
    ;
    assert forall|k: int| 0 <= k < banded.len() implies banded[k] == image[k] by {
        let row = k / stride;
        lemma_fundamental_div_mod(k, stride);
        assert(0 <= row < h) by (nonlinear_arith)
            requires
                0 <= k < h * stride,
                stride >= 1,
                k == stride * row + k % stride,
                0 <= k % stride < stride,
        ;
        let i = lemma_partition_covers(bands, h, row);
        let band = bands[i];
        lemma_partition_bounded(bands, h, i);
        lemma_band_fits(band, stride, h);
        let first = band.spec_start(stride);
        let past = band.spec_end(stride);
        assert(first <= k < past) by (nonlinear_arith)
            requires
                band.top <= row < band.bottom,
                first == band.top * stride,
                past == band.bottom * stride,
                k == stride * row + k % stride,
                0 <= k % stride < stride,
        ;
        let own = band.spec_dimensions(dims.width);
        assert(own.wf()) by {
            lemma_band_fits(band, w, h);
            assert(w * (band.bottom - band.top) >= 1) by (nonlinear_arith)
                requires
                    w >= 1,
                    band.bottom - band.top >= 1,
            ;
        }
        let slice = banded.subrange(first, past);
        assert(rendered(slice, own, format, parts[i]));
        assert(answers_for_band(parts[i], band, outcome));
        lemma_rendered_is_image(slice, own, format, parts[i], band_outcome(band, outcome));
        lemma_band_image_in_place(dims, format, band, outcome);
        assert(slice[k - first] == banded[k]);
        assert(image.subrange(first, past)[k - first] == image[k]);
    }
    assert(banded =~= image);
}

/// Two partitions of the same rows assemble to the same buffer.
pub proof fn lemma_partitions_agree(
    dims: Dimensions,
    format: SampleFormat,
    one: Seq<Band>,
    other: Seq<Band>,
    outcome: spec_fn(int, int) -> Classification,
)
    requires
        dims.wf(),
        is_partition(one, dims.height as int),
        is_partition(other, dims.height as int),
    ensures
        assembled(dims, format, one, outcome) == assembled(dims, format, other, outcome),
{
    lemma_band_equivalence(dims, format, one, outcome);
    lemma_band_equivalence(dims, format, other, outcome);
}

} // verus!
