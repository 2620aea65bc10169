//! A two-dimensional score grid stored row-major, the carrier of heatmaps
//! and of single channels of size-regression maps.

use vstd::prelude::*;

verus! {

/// Row-major index of cell `(r, c)` is within a `h * w` buffer.
pub proof fn lemma_row_major_in_bounds(h: int, w: int, r: int, c: int)
    requires
        0 <= r < h,
        0 <= c < w,
    ensures
        0 <= r * w + c < h * w,
{
    assert(0 <= r * w + c < h * w) by (nonlinear_arith)
        requires
            0 <= r < h,
            0 <= c < w,
    ;
}

/// Distinct cells have distinct row-major indices.
pub proof fn lemma_row_major_injective(w: int, r1: int, c1: int, r2: int, c2: int)
    requires
        0 <= c1 < w,
        0 <= c2 < w,
        0 <= r1,
        0 <= r2,
        r1 * w + c1 == r2 * w + c2,
    ensures
        r1 == r2,
        c1 == c2,
{
    assert(r1 == r2 && c1 == c2) by (nonlinear_arith)
        requires
            0 <= c1 < w,
            0 <= c2 < w,
            0 <= r1,
            0 <= r2,
            r1 * w + c1 == r2 * w + c2,
    ;
}

/// A `height x width` grid of fixed-point values in row-major order.
pub struct Grid {
    pub data: Vec<i64>,
    pub height: usize,
    pub width: usize,
}

impl Grid {
    /// The buffer holds exactly one value per cell.
    pub open spec fn wf(self) -> bool {
        self.data.len() == self.height * self.width
    }

    /// The value of cell `(r, c)`.
    pub open spec fn at(self, r: int, c: int) -> int {
        self.data@[r * self.width + c] as int
    }

    /// Both grids have the same dimensions.
    pub open spec fn same_dims(self, other: Grid) -> bool {
        self.height == other.height && self.width == other.width
    }

    /// A grid of zeros.
    pub fn new(height: usize, width: usize) -> (g: Grid)
        requires
            height * width <= usize::MAX,
        ensures
            g.wf(),
            g.height == height,
            g.width == width,
            forall|r: int, c: int|
                0 <= r < height && 0 <= c < width ==> g.at(r, c) == 0,
    {
        proof {
            if height > 0 && width > 0 {
                lemma_row_major_in_bounds(height as int, width as int, 0, 0);
            }
            assert(height * width >= 0) by (nonlinear_arith);
        }
        let n: usize = height * width;
        let mut data: Vec<i64> = Vec::new();
        data.resize(n, 0i64);
        let g = Grid { data, height, width };
        proof {
            assert forall|r: int, c: int|
                0 <= r < height && 0 <= c < width implies g.at(r, c) == 0 by {
                lemma_row_major_in_bounds(height as int, width as int, r, c);
            }
        }
        g
    }

    /// A grid over an existing row-major buffer.
    pub fn from_vec(data: Vec<i64>, height: usize, width: usize) -> (g: Grid)
        requires
            data.len() == height * width,
        ensures
            g.wf(),
            g.height == height,
            g.width == width,
            g.data == data,
    {
        Grid { data, height, width }
    }

    /// Read one cell.
    pub fn get(&self, r: usize, c: usize) -> (v: i64)
        requires
            self.wf(),
            r < self.height,
            c < self.width,
        ensures
            v == self.at(r as int, c as int),
    {
        proof {
            lemma_row_major_in_bounds(self.height as int, self.width as int, r as int, c as int);
        }
        self.data[r * self.width + c]
    }

    /// Write one cell; every other cell keeps its value.
    pub fn set(&mut self, r: usize, c: usize, v: i64)
        requires
            old(self).wf(),
            r < old(self).height,
            c < old(self).width,
        ensures
            final(self).wf(),
            final(self).height == old(self).height,
            final(self).width == old(self).width,
            final(self).at(r as int, c as int) == v,
            forall|i: int, j: int|
                0 <= i < final(self).height && 0 <= j < final(self).width && !(i == r && j == c)
                    ==> final(self).at(i, j) == old(self).at(i, j),
    {
        proof {
            lemma_row_major_in_bounds(self.height as int, self.width as int, r as int, c as int);
        }
        let idx: usize = r * self.width + c;
        self.data.set(idx, v);
        proof {
            assert forall|i: int, j: int|
                0 <= i < self.height && 0 <= j < self.width && !(i == r && j == c)
                    implies self.at(i, j) == old(self).at(i, j) by {
                lemma_row_major_in_bounds(
                    self.height as int,
                    self.width as int,
                    i,
                    j,
                );
                if i * self.width + j == r as int * self.width + c as int {
                    lemma_row_major_injective(self.width as int, i, j, r as int, c as int);
                }
            }
        }
    }
}

} // verus!

verus! {

/// A `height x width` map with two regression channels per cell (predicted
/// box width and height), stored row-major with the channels interleaved.
pub struct SizeMap {
    pub data: Vec<i64>,
    pub height: usize,
    pub width: usize,
}

impl SizeMap {
    /// The buffer holds exactly two values per cell.
    pub open spec fn wf(self) -> bool {
        self.data.len() == 2 * (self.height * self.width)
    }

    /// The value of channel `ch` at cell `(r, c)`.
    pub open spec fn at(self, r: int, c: int, ch: int) -> int {
        self.data@[(r * self.width + c) * 2 + ch] as int
    }

    /// A map over an existing interleaved buffer.
    pub fn from_vec(data: Vec<i64>, height: usize, width: usize) -> (m: SizeMap)
        requires
            data.len() == 2 * (height * width),
        ensures
            m.wf(),
            m.height == height,
            m.width == width,
            m.data == data,
    {
        SizeMap { data, height, width }
    }

    /// Read one channel of one cell.
    pub fn get(&self, r: usize, c: usize, ch: usize) -> (v: i64)
        requires
            self.wf(),
            r < self.height,
            c < self.width,
            ch < 2,
        ensures
            v == self.at(r as int, c as int, ch as int),
    {
        proof {
            lemma_row_major_in_bounds(self.height as int, self.width as int, r as int, c as int);
            assert((r as int * self.width + c) * 2 + ch < 2 * (self.height * self.width))
                by (nonlinear_arith)
                requires
                    0 <= r as int * self.width + c < self.height * self.width,
                    ch < 2,
            ;
        }
        self.data[(r * self.width + c) * 2 + ch]
    }
}

} // verus!
