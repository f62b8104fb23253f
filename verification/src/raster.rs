//! The pixel grid: dimensions, and the row-major position of each pixel.

use vstd::prelude::*;
use vstd::arithmetic::div_mod::{lemma_fundamental_div_mod, lemma_fundamental_div_mod_converse};
use vstd::arithmetic::mul::{lemma_mul_inequality, lemma_mul_is_commutative};

verus! {

/// Width and height of a raster, counted in pixels.
#[derive(Clone, Copy, Debug, PartialEq, Eq, Structural)]
pub struct Dimensions {
    pub width: usize,
    pub height: usize,
}

impl Dimensions {
    /// Both sides are positive and the number of pixels fits a machine word.
    pub open spec fn wf(self) -> bool {
        &&& self.width > 0
        &&& self.height > 0
        &&& self.width * self.height <= usize::MAX
    }

    /// Number of pixels of the raster.
    pub open spec fn pixel_count(self) -> int {
        self.width * self.height
    }

    /// Whether `(column, row)` names a pixel of the raster.
    pub open spec fn contains(self, column: int, row: int) -> bool {
        0 <= column < self.width && 0 <= row < self.height
    }

    /// Row-major position of the pixel `(column, row)`.
    pub open spec fn index_of(self, column: int, row: int) -> int {
        row * self.width + column
    }

    /// Column of the pixel at row-major position `index`.
    pub open spec fn column_of(self, index: int) -> int {
        index % (self.width as int)
    }

    /// Row of the pixel at row-major position `index`.
    pub open spec fn row_of(self, index: int) -> int {
        index / (self.width as int)
    }

    /// Builds the dimensions of a raster, or nothing where a side is zero or
    /// the pixel count overflows.
    pub fn new(width: usize, height: usize) -> (made: Option<Dimensions>)
        ensures
            made == if (Dimensions { width, height }).wf() {
                Some(Dimensions { width, height })
            } else {
                None::<Dimensions>
            },
    {
        if width == 0 || height == 0 {
            return None;
        }
        match width.checked_mul(height) {
            Some(_) => Some(Dimensions { width, height }),
            None => None,
        }
    }

    /// Number of pixels, as a machine integer.
    pub fn len(&self) -> (count: usize)
        requires
            self.wf(),
        ensures
            count == self.pixel_count(),
            count > 0,
    {
        proof {
            lemma_mul_inequality(1, self.height as int, self.width as int);
            lemma_mul_is_commutative(self.width as int, self.height as int);
        }
        self.width * self.height
    }

    /// Row-major position of a pixel of the raster.
    pub fn offset(&self, column: usize, row: usize) -> (index: usize)
        requires
            self.wf(),
            self.contains(column as int, row as int),
        ensures
            index == self.index_of(column as int, row as int),
            index < self.pixel_count(),
    {
        proof {
            lemma_index_in_range(*self, column as int, row as int);
        }
        row * self.width + column
    }

    /// The pixel that sits at a row-major position: `(column, row)`.
    pub fn coordinates(&self, index: usize) -> (at: (usize, usize))
        requires
            self.wf(),
            index < self.pixel_count(),
        ensures
            at.0 == self.column_of(index as int),
            at.1 == self.row_of(index as int),
            self.contains(at.0 as int, at.1 as int),
            self.index_of(at.0 as int, at.1 as int) == index,
    {
        proof {
            lemma_position_roundtrip(*self, index as int);
        }
        (index % self.width, index / self.width)
    }
}

/// Every pixel of the raster has a position below the pixel count.
pub proof fn lemma_index_in_range(dims: Dimensions, column: int, row: int)
    requires
        dims.width > 0,
        dims.contains(column, row),
    ensures
        0 <= dims.index_of(column, row) < dims.pixel_count(),
        row * dims.width >= 0,
{
    let w = dims.width as int;
    let h = dims.height as int;
    assert(row * w >= 0) by (nonlinear_arith)
        requires
            row >= 0,
            w > 0,
    ;
    assert(row * w + column < w * h) by (nonlinear_arith)
        requires
            0 <= row < h,
            0 <= column < w,
    ;
}

/// A pixel's position leads back to its column and row.
pub proof fn lemma_coordinate_roundtrip(dims: Dimensions, column: int, row: int)
    requires
        dims.width > 0,
        dims.contains(column, row),
    ensures
        dims.column_of(dims.index_of(column, row)) == column,
        dims.row_of(dims.index_of(column, row)) == row,
{
    let w = dims.width as int;
    lemma_mul_is_commutative(row, w);
    lemma_fundamental_div_mod_converse(dims.index_of(column, row), w, row, column);
}

/// A position below the pixel count names a pixel of the raster, and that
/// pixel's position is the one started from.
pub proof fn lemma_position_roundtrip(dims: Dimensions, index: int)
    requires
        dims.width > 0,
        0 <= index < dims.pixel_count(),
    ensures
        dims.contains(dims.column_of(index), dims.row_of(index)),
        dims.index_of(dims.column_of(index), dims.row_of(index)) == index,
{
    let w = dims.width as int;
    let h = dims.height as int;
    lemma_fundamental_div_mod(index, w);
    lemma_mul_is_commutative(index / w, w);
    assert(0 <= index % w < w);
    assert(index / w >= 0) by (nonlinear_arith)
        requires
            index >= 0,
            w > 0,
    ;
    assert(index / w < h) by (nonlinear_arith)
        requires
            0 <= index < w * h,
            w > 0,
            index == w * (index / w) + index % w,
            0 <= index % w,
    ;
}

/// Two pixels of the raster with one position are one pixel.
pub proof fn lemma_index_injective(dims: Dimensions, c1: int, r1: int, c2: int, r2: int)
    requires
        dims.width > 0,
        dims.contains(c1, r1),
        dims.contains(c2, r2),
        dims.index_of(c1, r1) == dims.index_of(c2, r2),
    ensures
        c1 == c2,
        r1 == r2,
{
    lemma_coordinate_roundtrip(dims, c1, r1);
    lemma_coordinate_roundtrip(dims, c2, r2);
}

} // verus!
