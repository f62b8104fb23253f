//! The work of one render, laid out before any of it is done: one task for
//! each band, with the part of the buffer that the task alone may write.

use vstd::prelude::*;
use crate::bands::{
    even_split,
    is_partition,
    lemma_band_fits,
    lemma_partition_bounded,
    split_rows,
    Band,
};
use crate::color::SampleFormat;
use crate::raster::Dimensions;
use crate::render::sample_count;

verus! {

/// One band's share of a render.
#[derive(Clone, Copy, Debug, PartialEq, Eq, Structural)]
pub struct Task {
    /// The rows of the whole raster that the task renders.
    pub band: Band,
    /// The raster that the band is when taken alone.
    pub dims: Dimensions,
    /// First position of the band's samples in the whole buffer.
    pub start: usize,
    /// Position just past the band's samples in the whole buffer.
    pub end: usize,
}

/// The task that renders `band` of a raster in the given format.
pub open spec fn task_for(dims: Dimensions, format: SampleFormat, band: Band) -> Task {
    let stride = dims.width * format.spec_channels();
    Task {
        band,
        dims: band.spec_dimensions(dims.width),
        start: band.spec_start(stride) as usize,
        end: band.spec_end(stride) as usize,
    }
}

/// The tasks' parts of the buffer, in order, tile the positions `0..total`:
/// none is empty, the first starts at 0, each next one where the one before
/// it ends, and the last ends at `total`.
pub open spec fn tiles(tasks: Seq<Task>, total: int) -> bool {
    &&& tasks.len() > 0
    &&& tasks[0].start == 0
    &&& tasks[tasks.len() - 1].end == total
    &&& forall|i: int| 0 <= i < tasks.len() ==> (#[trigger] tasks[i]).start < tasks[i].end
    &&& forall|i: int| 0 <= i < tasks.len() - 1 ==> (#[trigger] tasks[i]).end == tasks[i + 1].start
}

/// The task of a band owns exactly the samples of the band's own raster, and
/// they lie inside the whole buffer.
pub proof fn lemma_task_fits(dims: Dimensions, format: SampleFormat, band: Band)
    requires
        dims.wf(),
        band.within(dims),
        sample_count(dims, format) <= usize::MAX,
    ensures
        task_for(dims, format, band).dims.wf(),
        task_for(dims, format, band).start == band.top * (dims.width * format.spec_channels()),
        task_for(dims, format, band).end == band.bottom * (dims.width * format.spec_channels()),
        task_for(dims, format, band).start < task_for(dims, format, band).end <= sample_count(
            dims,
            format,
        ),
        task_for(dims, format, band).end - task_for(dims, format, band).start == sample_count(
            task_for(dims, format, band).dims,
            format,
        ),
{
    let w = dims.width as int;
    let h = dims.height as int;
    let channels = format.spec_channels();
    let stride = w * channels;
    let rows = band.bottom - band.top;
    assert(stride >= 1) by (nonlinear_arith)
        requires
            w >= 1,
            channels >= 1,
            stride == w * channels,
    ;
    lemma_band_fits(band, stride, h);
    lemma_band_fits(band, w, h);
    assert(h * stride == (w * h) * channels) by (nonlinear_arith)
        requires
            stride == w * channels,
    ;
    assert(rows * stride == (w * rows) * channels) by (nonlinear_arith)
        requires
            stride == w * channels,
    ;
    assert(rows * stride >= 1) by (nonlinear_arith)
        requires
            rows >= 1,
            stride >= 1,
    ;
    assert(w * rows >= 1) by (nonlinear_arith)
        requires
            rows >= 1,
            w >= 1,
    ;
}

/// The tasks of a partition tile the buffer.
pub proof fn lemma_tasks_tile(
    dims: Dimensions,
    format: SampleFormat,
    bands: Seq<Band>,
    tasks: Seq<Task>,
)
    requires
        dims.wf(),
        sample_count(dims, format) <= usize::MAX,
        is_partition(bands, dims.height as int),
        tasks.len() == bands.len(),
        forall|i: int| 0 <= i < bands.len() ==> #[trigger] tasks[i] == task_for(dims, format, bands[i]),
    ensures
        tiles(tasks, sample_count(dims, format)),
{
    let stride = dims.width * format.spec_channels();
    assert forall|i: int| 0 <= i < tasks.len() implies {
        &&& (#[trigger] tasks[i]).start == bands[i].top * stride
        &&& tasks[i].end == bands[i].bottom * stride
        &&& tasks[i].start < tasks[i].end
    } by {
        lemma_partition_bounded(bands, dims.height as int, i);
        lemma_task_fits(dims, format, bands[i]);
    }
    assert forall|i: int| 0 <= i < tasks.len() - 1 implies (#[trigger] tasks[i]).end == tasks[i
        + 1].start by {
        assert(bands[i].bottom == bands[i + 1].top);
        assert(tasks[i + 1].start == bands[i + 1].top * stride);
    }
    let last = tasks.len() - 1;
    assert(tasks[0].start == 0);
    assert(tasks[last].end == dims.height * stride);
    assert(dims.height * stride == sample_count(dims, format)) by (nonlinear_arith)
        requires
            stride == dims.width * format.spec_channels(),
            sample_count(dims, format) == (dims.width * dims.height) * format.spec_channels(),
    ;
}

/// Lays out a render for `workers` workers: the rows are split into bands,
/// and each band gets the task that renders it, in order from the top. The
/// tasks' parts of the buffer do not overlap and leave no sample out.
pub fn schedule(dims: Dimensions, format: SampleFormat, workers: usize) -> (tasks: Vec<Task>)
    requires
        dims.wf(),
        workers > 0,
        sample_count(dims, format) <= usize::MAX,
    ensures
        tasks@.len() == even_split(dims.height as int, workers as int).len(),
        forall|i: int|
            0 <= i < tasks@.len() ==> #[trigger] tasks@[i] == task_for(
                dims,
                format,
                even_split(dims.height as int, workers as int)[i],
            ),
        tiles(tasks@, sample_count(dims, format)),
        1 <= tasks@.len() <= workers,
{
    let bands = split_rows(dims.height, workers);
    let channels = format.channels();
    proof {
        let w = dims.width as int;
        let h = dims.height as int;
        let c = channels as int;
        assert(w * c <= (w * h) * c && h * (w * c) == (w * h) * c) by (nonlinear_arith)
            requires
                w >= 1,
                h >= 1,
                c >= 1,
        ;
    }
    let stride = dims.width * channels;
    let mut tasks: Vec<Task> = Vec::new();
    let mut i: usize = 0;
    while i < bands.len()
        invariant
            dims.wf(),
            sample_count(dims, format) <= usize::MAX,
            stride == dims.width * format.spec_channels(),
            dims.height * stride <= usize::MAX,
            is_partition(bands@, dims.height as int),
            0 <= i <= bands@.len(),
            tasks@.len() == i,
            forall|k: int|
                0 <= k < i ==> #[trigger] tasks@[k] == task_for(dims, format, bands@[k]),
        decreases bands@.len() - i,
    {
        let band = bands[i];
        proof {
            lemma_partition_bounded(bands@, dims.height as int, i as int);
            lemma_task_fits(dims, format, band);
        }
        let own = band.dimensions(dims);
        let (start, end) = band.sample_range(dims, stride);
        tasks.push(Task { band, dims: own, start, end });
        i += 1;
    }
    proof {
        lemma_tasks_tile(dims, format, bands@, tasks@);
    }
    tasks
}

} // verus!
