//! The split of a raster's rows into bands: contiguous runs of rows that can
//! be rendered independently, each into its own part of the buffer.

use vstd::prelude::*;
use crate::raster::Dimensions;

verus! {

/// The rows from `top` up to, not including, `bottom`.
#[derive(Clone, Copy, Debug, PartialEq, Eq, Structural)]
pub struct Band {
    pub top: usize,
    pub bottom: usize,
}

impl Band {
    /// Whether the band holds the row.
    pub open spec fn holds(self, row: int) -> bool {
        self.top <= row < self.bottom
    }

    /// Number of rows of the band.
    pub open spec fn spec_rows(self) -> int {
        self.bottom - self.top
    }

    /// The band lies inside a raster of the given dimensions and is not empty.
    pub open spec fn within(self, dims: Dimensions) -> bool {
        self.top < self.bottom <= dims.height
    }

    /// The raster that the band is when taken alone.
    pub open spec fn spec_dimensions(self, width: usize) -> Dimensions {
        Dimensions { width, height: (self.bottom - self.top) as usize }
    }

    /// First position of the band in a buffer that has `stride` samples per row.
    pub open spec fn spec_start(self, stride: int) -> int {
        self.top * stride
    }

    /// Position just past the band in a buffer that has `stride` samples per row.
    pub open spec fn spec_end(self, stride: int) -> int {
        self.bottom * stride
    }

    /// Number of rows of the band.
    pub fn rows(&self) -> (count: usize)
        requires
            self.top <= self.bottom,
        ensures
            count == self.spec_rows(),
    {
        self.bottom - self.top
    }

    /// Whether the band holds the row.
    pub fn contains_row(&self, row: usize) -> (answer: bool)
        ensures
            answer == self.holds(row as int),
    {
        self.top <= row && row < self.bottom
    }

    /// The raster that the band is when taken alone: as wide as the whole,
    /// as high as the band.
    pub fn dimensions(&self, dims: Dimensions) -> (own: Dimensions)
        requires
            dims.wf(),
            self.within(dims),
        ensures
            own == self.spec_dimensions(dims.width),
            own.wf(),
            own.pixel_count() <= dims.pixel_count(),
    {
        proof {
            lemma_band_fits(*self, dims.width as int, dims.height as int);
        }
        Dimensions { width: dims.width, height: self.bottom - self.top }
    }

    /// The two pixels of the whole raster that span the band: the first of its
    /// top row, and the one just past the end of its last row, one row down.
    /// Each is given as `(column, row)`.
    pub fn corners(&self, dims: Dimensions) -> (span: ((usize, usize), (usize, usize)))
        ensures
            span == ((0usize, self.top), (dims.width, self.bottom)),
    {
        ((0, self.top), (dims.width, self.bottom))
    }

    /// The part of a buffer with `stride` samples per row that belongs to the
    /// band: its first position and the position just past it.
    pub fn sample_range(&self, dims: Dimensions, stride: usize) -> (range: (usize, usize))
        requires
            self.within(dims),
            dims.height * stride <= usize::MAX,
        ensures
            range.0 == self.spec_start(stride as int),
            range.1 == self.spec_end(stride as int),
            range.0 <= range.1 <= dims.height * stride,
            range.1 - range.0 == self.spec_rows() * stride,
    {
        proof {
            lemma_band_fits(*self, stride as int, dims.height as int);
        }
        (self.top * stride, self.bottom * stride)
    }
}

/// Rows of each band but the last when `height` rows are shared out among
/// `workers`: the quotient, rounded up.
pub open spec fn rows_per_band(height: int, workers: int) -> int {
    (height + workers - 1) / workers
}

/// Number of bands into which `height` rows fall at `per` rows each, the last
/// band taking what is left.
pub open spec fn band_count(height: int, per: int) -> int {
    (height + per - 1) / per
}

/// The band at place `index` when the rows are cut every `per` rows.
pub open spec fn band_at(height: int, per: int, index: int) -> Band {
    Band {
        top: (index * per) as usize,
        bottom: (if (index + 1) * per < height {
            (index + 1) * per
        } else {
            height
        }) as usize,
    }
}

/// The bands into which `height` rows are split for `workers` workers.
pub open spec fn even_split(height: int, workers: int) -> Seq<Band> {
    let per = rows_per_band(height, workers);
    Seq::new(band_count(height, per) as nat, |index: int| band_at(height, per, index))
}

/// The bands, in order, cut the rows `0..height` into runs that are not empty:
/// the first starts at row 0, each next one where the one before it ends, and
/// the last ends at `height`.
pub open spec fn is_partition(bands: Seq<Band>, height: int) -> bool {
    &&& bands.len() > 0
    &&& bands[0].top == 0
    &&& bands[bands.len() - 1].bottom == height
    &&& forall|i: int| 0 <= i < bands.len() ==> (#[trigger] bands[i]).top < bands[i].bottom
    &&& forall|i: int|
        0 <= i < bands.len() - 1 ==> (#[trigger] bands[i]).bottom == bands[i + 1].top
}

/// Multiplying a band's bounds by a row length keeps their order and stays
/// within the whole.
pub proof fn lemma_band_fits(band: Band, stride: int, height: int)
    requires
        band.top <= band.bottom <= height,
        stride >= 0,
    ensures
        0 <= band.top * stride <= band.bottom * stride <= height * stride,
        band.bottom * stride - band.top * stride == (band.bottom - band.top) * stride,
        stride * (band.bottom - band.top) <= stride * height,
{
    let t = band.top as int;
    let b = band.bottom as int;
    assert(0 <= t * stride <= b * stride <= height * stride) by (nonlinear_arith)
        requires
            0 <= t <= b <= height,
            stride >= 0,
    ;
    assert(b * stride - t * stride == (b - t) * stride) by (nonlinear_arith);
    assert(stride * (b - t) <= stride * height) by (nonlinear_arith)
        requires
            0 <= t <= b <= height,
            stride >= 0,
    ;
}

/// The rounded-up quotient: the least `per` with `per * workers >= height`.
pub proof fn lemma_rows_per_band(height: int, workers: int)
    requires
        height > 0,
        workers > 0,
    ensures
        rows_per_band(height, workers) >= 1,
        rows_per_band(height, workers) <= height,
        rows_per_band(height, workers) * workers >= height,
        (rows_per_band(height, workers) - 1) * workers < height,
        rows_per_band(height, workers) == height / workers + if height % workers == 0 {
            0int
        } else {
            1int
        },
{
    let q = height / workers;
    let r = height % workers;
    vstd::arithmetic::div_mod::lemma_fundamental_div_mod(height, workers);
    assert(q >= 0) by (nonlinear_arith)
        requires
            height > 0,
            workers > 0,
            q == height / workers,
    ;
    let per = q + if r == 0 { 0int } else { 1int };
    // height + workers - 1 == workers * per + rest, with 0 <= rest < workers
    let rest = if r == 0 { workers - 1 } else { r - 1 };
    assert(height + workers - 1 == workers * per + rest) by (nonlinear_arith)
        requires
            height == workers * q + r,
            per == q + if r == 0 { 0int } else { 1int },
            rest == if r == 0 { workers - 1 } else { r - 1 },
    ;
    vstd::arithmetic::div_mod::lemma_fundamental_div_mod_converse(
        height + workers - 1,
        workers,
        per,
        rest,
    );
    assert(per * workers >= height && (per - 1) * workers < height) by (nonlinear_arith)
        requires
            height + workers - 1 == workers * per + rest,
            0 <= rest < workers,
    ;
    assert(per >= 1 && per <= height) by (nonlinear_arith)
        requires
            per * workers >= height,
            (per - 1) * workers < height,
            height > 0,
            workers > 0,
    ;
}

/// Cutting every `per` rows gives the least number of bands that reaches
/// `height`.
pub proof fn lemma_band_count(height: int, per: int)
    requires
        height > 0,
        per > 0,
    ensures
        band_count(height, per) >= 1,
        (band_count(height, per) - 1) * per < height <= band_count(height, per) * per,
{
    lemma_rows_per_band(height, per);
}

/// Sharing rows out among `workers` never makes more bands than workers.
pub proof fn lemma_split_within_workers(height: int, workers: int)
    requires
        height > 0,
        workers > 0,
    ensures
        1 <= even_split(height, workers).len() <= workers,
{
    lemma_rows_per_band(height, workers);
    let per = rows_per_band(height, workers);
    lemma_band_count(height, per);
    let n = band_count(height, per);
    assert(n <= workers) by (nonlinear_arith)
        requires
            per >= 1,
            per * workers >= height,
            (n - 1) * per < height,
    ;
}

/// The even split is a partition of the rows, and all of its bands but the
/// last have the same number of rows.
pub proof fn lemma_even_split_is_partition(height: int, workers: int)
    requires
        0 < height <= usize::MAX,
        workers > 0,
    ensures
        is_partition(even_split(height, workers), height),
        forall|i: int|
            0 <= i < even_split(height, workers).len() - 1 ==> (#[trigger] even_split(
                height,
                workers,
            )[i]).spec_rows() == rows_per_band(height, workers),
        0 < even_split(height, workers).last().spec_rows() <= rows_per_band(height, workers),
{
    lemma_rows_per_band(height, workers);
    let per = rows_per_band(height, workers);
    lemma_band_count(height, per);
    let n = band_count(height, per);
    let bands = even_split(height, workers);
    assert forall|i: int| 0 <= i < n implies {
        &&& (#[trigger] bands[i]).top == i * per
        &&& bands[i].bottom == if i + 1 < n {
            (i + 1) * per
        } else {
            height
        }
        &&& bands[i].top < bands[i].bottom
    } by {
        lemma_cut_points(height, per, n, i);
    }
    assert forall|i: int| 0 <= i < bands.len() - 1 implies (#[trigger] bands[i]).bottom == bands[i
        + 1].top by {
        assert(bands[i + 1].top == (i + 1) * per);
    }
    assert forall|i: int| 0 <= i < bands.len() - 1 implies (#[trigger] bands[i]).spec_rows()
        == per by {
        assert((i + 1) * per - i * per == per) by (nonlinear_arith);
    }
    assert(bands[0].top == 0);
    assert(bands[n - 1].bottom == height);
    lemma_cut_points(height, per, n, n - 1);
}

/// Where the cuts fall: band `i` of `n` starts at `i * per`, below `height`,
/// and ends `per` rows on unless it is the last, which ends at `height`.
pub proof fn lemma_cut_points(height: int, per: int, n: int, i: int)
    requires
        0 < height <= usize::MAX,
        per > 0,
        n == band_count(height, per),
        0 <= i < n,
    ensures
        0 <= i * per < height,
        i + 1 < n ==> (i + 1) * per < height,
        i + 1 == n ==> (i + 1) * per >= height,
        i + 1 == n ==> height - i * per <= per,
        band_at(height, per, i).top == i * per,
        band_at(height, per, i).bottom == if i + 1 < n {
            (i + 1) * per
        } else {
            height
        },
        band_at(height, per, i).top < band_at(height, per, i).bottom,
{
    lemma_band_count(height, per);
    assert(0 <= i * per && i * per < height) by (nonlinear_arith)
        requires
            0 <= i < n,
            per > 0,
            (n - 1) * per < height,
    ;
    if i + 1 < n {
        assert((i + 1) * per < height) by (nonlinear_arith)
            requires
                0 <= i,
                i + 1 < n,
                per > 0,
                (n - 1) * per < height,
        ;
    } else {
        assert((i + 1) * per >= height);
        assert(height - i * per <= per) by (nonlinear_arith)
            requires
                (i + 1) * per >= height,
        ;
    }
    assert((i + 1) * per > i * per) by (nonlinear_arith)
        requires
            per > 0,
    ;
}

/// In a partition a band further on starts no earlier than a band before it
/// ends.
pub proof fn lemma_partition_ordered(bands: Seq<Band>, height: int, i: int, j: int)
    requires
        is_partition(bands, height),
        0 <= i < j < bands.len(),
    ensures
        bands[i].bottom <= bands[j].top,
    decreases j - i,
{
    if i + 1 < j {
        lemma_partition_ordered(bands, height, i, j - 1);
        assert(bands[j - 1].bottom == bands[j - 1 + 1].top);
        assert(bands[j - 1].top < bands[j - 1].bottom);
    } else {
        assert(bands[i].bottom == bands[i + 1].top);
    }
}

/// Every band of a partition lies within the rows `0..height`.
pub proof fn lemma_partition_bounded(bands: Seq<Band>, height: int, i: int)
    requires
        is_partition(bands, height),
        0 <= i < bands.len(),
    ensures
        0 <= bands[i].top < bands[i].bottom <= height,
{
    let last = bands.len() - 1;
    if i < last {
        lemma_partition_ordered(bands, height, i, last);
        assert(bands[last].top < bands[last].bottom);
    }
}

/// Every row of the raster lies in a band of a partition.
pub proof fn lemma_partition_covers(bands: Seq<Band>, height: int, row: int) -> (i: int)
    requires
        is_partition(bands, height),
        0 <= row < height,
    ensures
        0 <= i < bands.len(),
        bands[i].holds(row),
{
    lemma_covers_from(bands, height, row, 0)
}

proof fn lemma_covers_from(bands: Seq<Band>, height: int, row: int, from: int) -> (i: int)
    requires
        is_partition(bands, height),
        0 <= from < bands.len(),
        bands[from].top <= row < height,
    ensures
        from <= i < bands.len(),
        bands[i].holds(row),
    decreases bands.len() - from,
{
    if row < bands[from].bottom {
        from
    } else {
        assert(from < bands.len() - 1);
        assert(bands[from].bottom == bands[from + 1].top);
        lemma_covers_from(bands, height, row, from + 1)
    }
}

/// No row lies in two bands of a partition.
pub proof fn lemma_partition_disjoint(bands: Seq<Band>, height: int, i: int, j: int, row: int)
    requires
        is_partition(bands, height),
        0 <= i < bands.len(),
        0 <= j < bands.len(),
        bands[i].holds(row),
        bands[j].holds(row),
    ensures
        i == j,
{
    if i < j {
        lemma_partition_ordered(bands, height, i, j);
    } else if j < i {
        lemma_partition_ordered(bands, height, j, i);
    }
}

/// The parts of the buffer that two different bands of a partition own do not
/// overlap, and each lies inside the buffer.
pub proof fn lemma_sample_ranges_disjoint(
    bands: Seq<Band>,
    height: int,
    stride: int,
    i: int,
    j: int,
)
    requires
        is_partition(bands, height),
        stride >= 0,
        0 <= i < j < bands.len(),
    ensures
        0 <= bands[i].spec_start(stride) <= bands[i].spec_end(stride) <= bands[j].spec_start(
            stride,
        ) <= bands[j].spec_end(stride) <= height * stride,
{
    lemma_partition_ordered(bands, height, i, j);
    lemma_partition_bounded(bands, height, i);
    lemma_partition_bounded(bands, height, j);
    let a = bands[i].top as int;
    let b = bands[i].bottom as int;
    let c = bands[j].top as int;
    let d = bands[j].bottom as int;
    assert(0 <= a * stride <= b * stride <= c * stride <= d * stride <= height * stride)
        by (nonlinear_arith)
        requires
            0 <= a <= b <= c <= d <= height,
            stride >= 0,
    ;
}

/// Rows of each band but the last when `height` rows are shared out among
/// `workers`.
pub fn band_height(height: usize, workers: usize) -> (per: usize)
    requires
        height > 0,
        workers > 0,
    ensures
        per == rows_per_band(height as int, workers as int),
        1 <= per <= height,
{
    proof {
        lemma_rows_per_band(height as int, workers as int);
    }
    if height % workers == 0 {
        height / workers
    } else {
        height / workers + 1
    }
}

/// Splits the rows `0..height` into bands for `workers` workers: bands of
/// `band_height` rows each, in order from the top, the last one taking the
/// rows that are left. Where the rounded-up band height fills the raster in
/// fewer bands than there are workers, fewer bands are made.
pub fn split_rows(height: usize, workers: usize) -> (bands: Vec<Band>)
    requires
        height > 0,
        workers > 0,
    ensures
        bands@ == even_split(height as int, workers as int),
        is_partition(bands@, height as int),
        1 <= bands@.len() <= workers,
{
    let per = band_height(height, workers);
    let ghost n = band_count(height as int, per as int);
    let ghost goal = even_split(height as int, workers as int);
    let mut bands: Vec<Band> = Vec::new();
    let mut top: usize = 0;
    proof {
        lemma_band_count(height as int, per as int);
    }
    while top < height
        invariant
            per == rows_per_band(height as int, workers as int),
            1 <= per <= height,
            n == band_count(height as int, per as int),
            goal == even_split(height as int, workers as int),
            goal.len() == n,
            0 <= bands@.len() <= n,
            bands@.len() < n ==> top == bands@.len() * per,
            bands@.len() == n ==> top == height,
            forall|i: int| 0 <= i < bands@.len() ==> bands@[i] == goal[i],
        decreases height - top,
    {
        let ghost i = bands@.len() as int;
        proof {
            if i == n {
                assert(false);
            }
            lemma_cut_points(height as int, per as int, n, i);
            assert((i + 1) * per == i * per + per) by (nonlinear_arith);
        }
        let bottom: usize = if height - top <= per {
            height
        } else {
            top + per
        };
        proof {
            if i + 1 < n {
                assert(bottom == (i + 1) * per);
            } else {
                assert(bottom == height);
            }
            assert(goal[i] == band_at(height as int, per as int, i));
        }
        bands.push(Band { top, bottom });
        top = bottom;
    }
    proof {
        assert(bands@.len() == n) by {
            if bands@.len() < n {
                lemma_cut_points(height as int, per as int, n, bands@.len() as int);
            }
        }
        assert(bands@ =~= goal);
        lemma_even_split_is_partition(height as int, workers as int);
        lemma_split_within_workers(height as int, workers as int);
    }
    bands
}

/// The place, in the split for `workers` workers, of the band that holds `row`.
pub fn band_of_row(height: usize, workers: usize, row: usize) -> (index: usize)
    requires
        workers > 0,
        row < height,
    ensures
        index == row as int / rows_per_band(height as int, workers as int),
        index < even_split(height as int, workers as int).len(),
        even_split(height as int, workers as int)[index as int].holds(row as int),
{
    let per = band_height(height, workers);
    let index = row / per;
    proof {
        let h = height as int;
        let p = per as int;
        let n = band_count(h, p);
        let r = row as int;
        let k = index as int;
        lemma_band_count(h, p);
        vstd::arithmetic::div_mod::lemma_fundamental_div_mod(r, p);
        assert(k * p <= r < (k + 1) * p) by (nonlinear_arith)
            requires
                r == p * k + r % p,
                0 <= r % p < p,
        ;
        assert(0 <= k < n) by (nonlinear_arith)
            requires
                k * p <= r,
                r < h,
                h <= n * p,
                p > 0,
                r >= 0,
                r == p * k + r % p,
                0 <= r % p < p,
        ;
        lemma_cut_points(h, p, n, k);
    }
    index
}

/// Tells whether the bands, in order, cut the rows `0..height` into runs that
/// are not empty, leaving no row out and none in two bands.
pub fn check_partition(bands: &Vec<Band>, height: usize) -> (ok: bool)
    ensures
        ok == is_partition(bands@, height as int),
{
    let n = bands.len();
    if n == 0 {
        return false;
    }
    if bands[0].top != 0 || bands[n - 1].bottom != height {
        return false;
    }
    let mut i: usize = 0;
    while i < n
        invariant
            n == bands@.len(),
            0 <= i <= n,
            forall|k: int| 0 <= k < i ==> (#[trigger] bands@[k]).top < bands@[k].bottom,
            forall|k: int|
                0 <= k < i && k < n - 1 ==> (#[trigger] bands@[k]).bottom == bands@[k + 1].top,
        decreases n - i,
    {
        if bands[i].top >= bands[i].bottom {
            return false;
        }
        if i + 1 < n && bands[i].bottom != bands[i + 1].top {
            return false;
        }
        i += 1;
    }
    true
}

} // verus!
