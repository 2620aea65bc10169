//! Three-channel images of fixed-point standardized pixel values, with
//! exact nearest-neighbor resampling and cropping.

use crate::fixed::{div_trunc, div_trunc_i64, SCALE};
use crate::DetectConfig;
use vstd::arithmetic::div_mod::{
    lemma_div_is_ordered, lemma_div_pos_is_pos, lemma_fundamental_div_mod,
    lemma_multiply_divide_lt, lemma_remainder_lower,
};
use vstd::arithmetic::mul::{lemma_mul_inequality, lemma_mul_nonnegative};
use vstd::prelude::*;

verus! {

/// Index of channel `ch`, row `y`, column `x` in a channel-first buffer.
pub proof fn lemma_chw_in_bounds(h: int, w: int, ch: int, y: int, x: int)
    requires
        0 <= ch < 3,
        0 <= y < h,
        0 <= x < w,
    ensures
        0 <= (ch * h + y) * w + x < 3 * (h * w),
        0 <= ch * h,
        0 <= (ch * h + y) * w,
        ch * h <= (ch * h + y) * w + x,
        ch * h + y <= (ch * h + y) * w + x,
        (ch * h + y) * w <= (ch * h + y) * w + x,
{
    assert(0 <= (ch * h + y) * w + x < 3 * (h * w) && 0 <= ch * h && 0 <= (ch * h + y) * w && ch
        * h <= (ch * h + y) * w + x && ch * h + y <= (ch * h + y) * w + x) by (nonlinear_arith)
        requires
            0 <= ch < 3,
            0 <= y < h,
            0 <= x < w,
    ;
}

/// Distinct pixel positions have distinct buffer indices.
pub proof fn lemma_chw_injective(h: int, w: int, c1: int, y1: int, x1: int, c2: int, y2: int, x2: int)
    requires
        0 <= c1 < 3,
        0 <= y1 < h,
        0 <= x1 < w,
        0 <= c2 < 3,
        0 <= y2 < h,
        0 <= x2 < w,
        (c1 * h + y1) * w + x1 == (c2 * h + y2) * w + x2,
    ensures
        c1 == c2,
        y1 == y2,
        x1 == x2,
{
    assert(c1 == c2 && y1 == y2 && x1 == x2) by (nonlinear_arith)
        requires
            0 <= c1 < 3,
            0 <= y1 < h,
            0 <= x1 < w,
            0 <= c2 < 3,
            0 <= y2 < h,
            0 <= x2 < w,
            (c1 * h + y1) * w + x1 == (c2 * h + y2) * w + x2,
    ;
}

/// A three-channel `height x width` image of fixed-point values, stored
/// channel-first.
pub struct Image {
    pub data: Vec<i64>,
    pub height: usize,
    pub width: usize,
}

impl Image {
    /// The buffer holds exactly three values per pixel.
    pub open spec fn wf(self) -> bool {
        self.data.len() == 3 * (self.height * self.width)
    }

    /// The value of channel `ch` at row `y`, column `x`.
    pub open spec fn at(self, ch: int, y: int, x: int) -> int {
        self.data@[(ch * self.height + y) * self.width + x] as int
    }

    /// An all-zero image.
    pub fn new(height: usize, width: usize) -> (img: Image)
        requires
            3 * (height * width) <= usize::MAX,
        ensures
            img.wf(),
            img.height == height,
            img.width == width,
    {
        proof {
            assert(height * width >= 0 && 3 * (height * width) == (3 * height) * width)
                by (nonlinear_arith);
        }
        let hw: usize = height * width;
        let n: usize = 3 * hw;
        let mut data: Vec<i64> = Vec::new();
        data.resize(n, 0i64);
        Image { data, height, width }
    }

    /// Read one channel of one pixel.
    pub fn get(&self, ch: usize, y: usize, x: usize) -> (v: i64)
        requires
            self.wf(),
            ch < 3,
            y < self.height,
            x < self.width,
        ensures
            v == self.at(ch as int, y as int, x as int),
    {
        proof {
            lemma_chw_in_bounds(
                self.height as int,
                self.width as int,
                ch as int,
                y as int,
                x as int,
            );
        }
        self.data[(ch * self.height + y) * self.width + x]
    }

    /// Write one channel of one pixel; every other value keeps its place.
    pub fn set(&mut self, ch: usize, y: usize, x: usize, v: i64)
        requires
            old(self).wf(),
            ch < 3,
            y < old(self).height,
            x < old(self).width,
        ensures
            final(self).wf(),
            final(self).height == old(self).height,
            final(self).width == old(self).width,
            final(self).at(ch as int, y as int, x as int) == v,
            forall|c: int, i: int, j: int|
                0 <= c < 3 && 0 <= i < final(self).height && 0 <= j < final(self).width && !(c
                    == ch && i == y && j == x) ==> final(self).at(c, i, j) == old(self).at(c, i, j),
    {
        proof {
            lemma_chw_in_bounds(
                self.height as int,
                self.width as int,
                ch as int,
                y as int,
                x as int,
            );
        }
        let idx: usize = (ch * self.height + y) * self.width + x;
        self.data.set(idx, v);
        proof {
            assert forall|c: int, i: int, j: int|
                0 <= c < 3 && 0 <= i < self.height && 0 <= j < self.width && !(c == ch && i == y
                    && j == x) implies self.at(c, i, j) == old(self).at(c, i, j) by {
                lemma_chw_in_bounds(self.height as int, self.width as int, c, i, j);
                if (c * self.height + i) * self.width + j == (ch as int * self.height
                    + y) * self.width + x {
                    lemma_chw_injective(
                        self.height as int,
                        self.width as int,
                        c,
                        i,
                        j,
                        ch as int,
                        y as int,
                        x as int,
                    );
                }
            }
        }
    }
}

/// The standardized fixed-point value of one raw 8-bit sample: the sample is
/// normalized to `[0, 1]`, the channel mean subtracted, and the result
/// divided by the channel deviation, all in fixed point with truncation
/// toward zero.
pub open spec fn standardized(v: int, mean: int, stdev: int) -> int {
    div_trunc(((v * (SCALE as int)) / 255 - mean) * (SCALE as int), stdev)
}

/// Normalizes a raw 8-bit channel-first image buffer to `[0, 1]` and
/// standardizes each channel with the configured mean and deviation.
pub fn preprocess(raw: &Vec<u8>, height: usize, width: usize, config: &DetectConfig) -> (img:
    Image)
    requires
        raw.len() == 3 * (height * width),
        config.wf(),
        3 * (height * width) <= usize::MAX,
    ensures
        img.wf(),
        img.height == height,
        img.width == width,
        forall|i: int|
            0 <= i < raw@.len() ==> img.data@[i] as int == standardized(
                #[trigger] raw@[i] as int,
                config.mean@[i / ((height * width) as int)] as int,
                config.stdev@[i / ((height * width) as int)] as int,
            ),
{
    let hw: usize = height * width;
    let n: usize = raw.len();
    let mut data: Vec<i64> = Vec::new();
    let mut i: usize = 0;
    while i < n
        invariant
            raw@.len() == n,
            n == 3 * (height * width),
            hw == height * width,
            config.wf(),
            i <= n,
            data@.len() == i,
            forall|j: int|
                0 <= j < i ==> data@[j] as int == standardized(
                    #[trigger] raw@[j] as int,
                    config.mean@[j / (hw as int)] as int,
                    config.stdev@[j / (hw as int)] as int,
                ),
        decreases n - i,
    {
        proof {
            assert(hw > 0) by {
                if hw == 0 {
                    assert(n == 0);
                }
            }
            lemma_multiply_divide_lt(i as int, hw as int, 3);
            lemma_div_pos_is_pos(i as int, hw as int);
        }
        let ch: usize = i / hw;
        let v: u8 = raw[i];
        let a: i64 = (((v as u64) * 65536) / 255) as i64;
        proof {
            lemma_div_pos_is_pos((v as int) * 65536, 255);
            lemma_mul_nonnegative(v as int, 65536);
            lemma_mul_inequality(v as int, 255, 65536);
            lemma_div_is_ordered((v as int) * 65536, 255int * 65536, 255);
            assert(255int * 65536 / 255 == 65536);
        }
        let b: i64 = a - config.mean[ch];
        let s: i64 = config.stdev[ch];
        let q: i64 = div_trunc_i64(b * SCALE, s);
        data.push(q);
        proof {
            assert(data@[i as int] as int == standardized(
                raw@[i as int] as int,
                config.mean@[i as int / (hw as int)] as int,
                config.stdev@[i as int / (hw as int)] as int,
            ));
        }
        i = i + 1;
    }
    Image { data, height, width }
}

/// The rounded target extent of resampling `dim` pixels by the positive
/// rational factor `num / den` (round half up).
pub open spec fn scaled_dim(dim: int, num: int, den: int) -> int {
    (2 * dim * num + den) / (2 * den)
}

/// Nearest-neighbor source index: target position `t` maps to source
/// position `t * den / num`.
pub open spec fn src_index(t: int, num: int, den: int) -> int {
    (t * den) / num
}

/// Every target index of a scaled extent maps to a source index inside the
/// source extent.
pub proof fn lemma_src_index_in_range(dim: int, num: int, den: int, t: int)
    requires
        1 <= dim,
        1 <= num,
        1 <= den,
        0 <= t < scaled_dim(dim, num, den),
    ensures
        0 <= src_index(t, num, den) < dim,
{
    lemma_mul_nonnegative(t, den);
    lemma_div_pos_is_pos(t * den, num);
    let q = scaled_dim(dim, num, den);
    lemma_fundamental_div_mod(2 * dim * num + den, 2 * den);
    lemma_remainder_lower(2 * dim * num + den, 2 * den);
    assert(2 * den * q <= 2 * dim * num + den);
    assert(t * den < dim * num) by (nonlinear_arith)
        requires
            t <= q - 1,
            2 * den * q <= 2 * dim * num + den,
            1 <= den,
            1 <= num,
            t >= 0,
    ;
    lemma_multiply_divide_lt(t * den, num, dim);
}

/// Resamples the image by the per-axis rational factors `wnum/wden` and
/// `hnum/hden` using nearest-neighbor lookup: target pixel `(y, x)` takes
/// the source pixel `(y*hden/hnum, x*wden/wnum)`.  Target extents round
/// half up.
pub fn resize_img(img: &Image, wnum: u64, wden: u64, hnum: u64, hden: u64) -> (out: Image)
    requires
        img.wf(),
        1 <= img.height <= 16384,
        1 <= img.width <= 16384,
        1 <= wnum <= 0x2000_0000,
        1 <= wden <= 0x2000_0000,
        1 <= hnum <= 0x2000_0000,
        1 <= hden <= 0x2000_0000,
        scaled_dim(img.width as int, wnum as int, wden as int) <= 16384,
        scaled_dim(img.height as int, hnum as int, hden as int) <= 16384,
    ensures
        out.wf(),
        out.height == scaled_dim(img.height as int, hnum as int, hden as int),
        out.width == scaled_dim(img.width as int, wnum as int, wden as int),
        forall|c: int, y: int, x: int|
            0 <= c < 3 && 0 <= y < out.height && 0 <= x < out.width ==> out.at(c, y, x) == img.at(
                c,
                src_index(y, hnum as int, hden as int),
                src_index(x, wnum as int, wden as int),
            ),
{
    proof {
        assert(0 <= 2 * (img.width as int) * (wnum as int) <= 0x100_0000_0000_0000 && 0 <= 2 * (
        img.height as int) * (hnum as int) <= 0x100_0000_0000_0000) by (nonlinear_arith)
            requires
                1 <= img.width <= 16384,
                1 <= img.height <= 16384,
                1 <= wnum <= 0x2000_0000,
                1 <= hnum <= 0x2000_0000,
        ;
    }
    let nw: usize = (((2 * (img.width as u64) * wnum + wden) / (2 * wden))) as usize;
    let nh: usize = (((2 * (img.height as u64) * hnum + hden) / (2 * hden))) as usize;
    proof {
        lemma_div_pos_is_pos(2 * (img.width as int) * (wnum as int) + wden, 2 * (wden as int));
        lemma_div_pos_is_pos(2 * (img.height as int) * (hnum as int) + hden, 2 * (hden as int));
        assert(3 * ((nh as int) * (nw as int)) <= 0x30000000) by (nonlinear_arith)
            requires
                0 <= nh <= 16384,
                0 <= nw <= 16384,
        ;
    }
    let mut out = Image::new(nh, nw);
    let mut c: usize = 0;
    while c < 3
        invariant
            img.wf(),
            out.wf(),
            out.height == nh,
            out.width == nw,
            nh == scaled_dim(img.height as int, hnum as int, hden as int),
            nw == scaled_dim(img.width as int, wnum as int, wden as int),
            nh <= 16384,
            nw <= 16384,
            1 <= img.height <= 16384,
            1 <= img.width <= 16384,
            1 <= wnum <= 0x2000_0000,
            1 <= wden <= 0x2000_0000,
            1 <= hnum <= 0x2000_0000,
            1 <= hden <= 0x2000_0000,
            c <= 3,
            forall|cc: int, y: int, x: int|
                0 <= cc < c && 0 <= y < nh && 0 <= x < nw ==> out.at(cc, y, x) == img.at(
                    cc,
                    src_index(y, hnum as int, hden as int),
                    src_index(x, wnum as int, wden as int),
                ),
        decreases 3 - c,
    {
        let mut y: usize = 0;
        while y < nh
            invariant
                img.wf(),
                out.wf(),
                out.height == nh,
                out.width == nw,
                nh == scaled_dim(img.height as int, hnum as int, hden as int),
                nw == scaled_dim(img.width as int, wnum as int, wden as int),
                nh <= 16384,
                nw <= 16384,
                1 <= img.height <= 16384,
                1 <= img.width <= 16384,
                1 <= wnum <= 0x2000_0000,
                1 <= wden <= 0x2000_0000,
                1 <= hnum <= 0x2000_0000,
                1 <= hden <= 0x2000_0000,
                c < 3,
                y <= nh,
                forall|cc: int, yy: int, x: int|
                    0 <= cc < c && 0 <= yy < nh && 0 <= x < nw ==> out.at(cc, yy, x) == img.at(
                        cc,
                        src_index(yy, hnum as int, hden as int),
                        src_index(x, wnum as int, wden as int),
                    ),
                forall|yy: int, x: int|
                    0 <= yy < y && 0 <= x < nw ==> out.at(c as int, yy, x) == img.at(
                        c as int,
                        src_index(yy, hnum as int, hden as int),
                        src_index(x, wnum as int, wden as int),
                    ),
            decreases nh - y,
        {
            proof {
                lemma_src_index_in_range(img.height as int, hnum as int, hden as int, y as int);
                lemma_mul_nonnegative(y as int, hden as int);
                assert((y as int) * (hden as int) <= 16384 * 0x2000_0000) by (nonlinear_arith)
                    requires
                        0 <= y <= 16384,
                        0 <= hden <= 0x2000_0000,
                ;
            }
            let sy: usize = (((y as u64) * hden) / hnum) as usize;
            let mut x: usize = 0;
            while x < nw
                invariant
                    img.wf(),
                    out.wf(),
                    out.height == nh,
                    out.width == nw,
                    nh == scaled_dim(img.height as int, hnum as int, hden as int),
                    nw == scaled_dim(img.width as int, wnum as int, wden as int),
                    nh <= 16384,
                    nw <= 16384,
                    1 <= img.height <= 16384,
                    1 <= img.width <= 16384,
                    1 <= wnum <= 0x2000_0000,
                    1 <= wden <= 0x2000_0000,
                    1 <= hnum <= 0x2000_0000,
                    1 <= hden <= 0x2000_0000,
                    c < 3,
                    y < nh,
                    x <= nw,
                    sy as int == src_index(y as int, hnum as int, hden as int),
                    sy < img.height,
                    forall|cc: int, yy: int, xx: int|
                        0 <= cc < c && 0 <= yy < nh && 0 <= xx < nw ==> out.at(cc, yy, xx)
                            == img.at(
                            cc,
                            src_index(yy, hnum as int, hden as int),
                            src_index(xx, wnum as int, wden as int),
                        ),
                    forall|yy: int, xx: int|
                        0 <= yy < y && 0 <= xx < nw ==> out.at(c as int, yy, xx) == img.at(
                            c as int,
                            src_index(yy, hnum as int, hden as int),
                            src_index(xx, wnum as int, wden as int),
                        ),
                    forall|xx: int|
                        0 <= xx < x ==> out.at(c as int, y as int, xx) == img.at(
                            c as int,
                            src_index(y as int, hnum as int, hden as int),
                            src_index(xx, wnum as int, wden as int),
                        ),
                decreases nw - x,
            {
                proof {
                    lemma_src_index_in_range(img.width as int, wnum as int, wden as int, x as int);
                    lemma_mul_nonnegative(x as int, wden as int);
                    assert((x as int) * (wden as int) <= 16384 * 0x2000_0000) by (nonlinear_arith)
                        requires
                            0 <= x <= 16384,
                            0 <= wden <= 0x2000_0000,
                    ;
                }
                let sx: usize = (((x as u64) * wden) / wnum) as usize;
                let v = img.get(c, sy, sx);
                out.set(c, y, x, v);
                x = x + 1;
            }
            y = y + 1;
        }
        c = c + 1;
    }
    out
}

/// The axis-aligned crop `[sy, ey) x [sx, ex)` of the image.
pub fn crop_img(img: &Image, sx: usize, ex: usize, sy: usize, ey: usize) -> (out: Image)
    requires
        img.wf(),
        sx < ex <= img.width,
        sy < ey <= img.height,
        img.height <= 16384,
        img.width <= 16384,
    ensures
        out.wf(),
        out.height == ey - sy,
        out.width == ex - sx,
        forall|c: int, y: int, x: int|
            0 <= c < 3 && 0 <= y < out.height && 0 <= x < out.width ==> out.at(c, y, x) == img.at(
                c,
                sy + y,
                sx + x,
            ),
{
    let nh: usize = ey - sy;
    let nw: usize = ex - sx;
    proof {
        assert(3 * ((nh as int) * (nw as int)) <= 0x30000000) by (nonlinear_arith)
            requires
                0 <= nh <= 16384,
                0 <= nw <= 16384,
        ;
    }
    let mut out = Image::new(nh, nw);
    let mut c: usize = 0;
    while c < 3
        invariant
            img.wf(),
            out.wf(),
            out.height == nh,
            out.width == nw,
            nh == ey - sy,
            nw == ex - sx,
            sx < ex <= img.width,
            sy < ey <= img.height,
            c <= 3,
            forall|cc: int, y: int, x: int|
                0 <= cc < c && 0 <= y < nh && 0 <= x < nw ==> out.at(cc, y, x) == img.at(
                    cc,
                    sy + y,
                    sx + x,
                ),
        decreases 3 - c,
    {
        let mut y: usize = 0;
        while y < nh
            invariant
                img.wf(),
                out.wf(),
                out.height == nh,
                out.width == nw,
                nh == ey - sy,
                nw == ex - sx,
                sx < ex <= img.width,
                sy < ey <= img.height,
                c < 3,
                y <= nh,
                forall|cc: int, yy: int, x: int|
                    0 <= cc < c && 0 <= yy < nh && 0 <= x < nw ==> out.at(cc, yy, x) == img.at(
                        cc,
                        sy + yy,
                        sx + x,
                    ),
                forall|yy: int, x: int|
                    0 <= yy < y && 0 <= x < nw ==> out.at(c as int, yy, x) == img.at(
                        c as int,
                        sy + yy,
                        sx + x,
                    ),
            decreases nh - y,
        {
            let mut x: usize = 0;
            while x < nw
                invariant
                    img.wf(),
                    out.wf(),
                    out.height == nh,
                    out.width == nw,
                    nh == ey - sy,
                    nw == ex - sx,
                    sx < ex <= img.width,
                    sy < ey <= img.height,
                    c < 3,
                    y < nh,
                    x <= nw,
                    forall|cc: int, yy: int, xx: int|
                        0 <= cc < c && 0 <= yy < nh && 0 <= xx < nw ==> out.at(cc, yy, xx)
                            == img.at(cc, sy + yy, sx + xx),
                    forall|yy: int, xx: int|
                        0 <= yy < y && 0 <= xx < nw ==> out.at(c as int, yy, xx) == img.at(
                            c as int,
                            sy + yy,
                            sx + xx,
                        ),
                    forall|xx: int|
                        0 <= xx < x ==> out.at(c as int, y as int, xx) == img.at(
                            c as int,
                            sy + y,
                            sx + xx,
                        ),
                decreases nw - x,
            {
                let v = img.get(c, sy + y, sx + x);
                out.set(c, y, x, v);
                x = x + 1;
            }
            y = y + 1;
        }
        c = c + 1;
    }
    out
}

} // verus!
