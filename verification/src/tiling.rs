//! Tiling of a normalized image into fixed-size detector windows, and the
//! per-tile metadata that maps detections back to original-image pixels.
//!
//! The image is first rescaled per axis so that it measures at least twice
//! the configured window; the rescaled image is then divided into an exact
//! grid of equal tiles, interior tiles are widened by half the configured
//! overlap on each side, and every tile is resampled to the model's input
//! resolution.

use crate::image::{crop_img, resize_img, scaled_dim, src_index, Image};
use crate::DetectConfig;
use vstd::arithmetic::div_mod::{
    lemma_div_is_ordered, lemma_div_multiples_vanish_fancy, lemma_div_nonincreasing,
    lemma_div_pos_is_pos, lemma_fundamental_div_mod, lemma_mod_division_less_than_divisor,
    lemma_multiply_divide_lt, lemma_remainder_lower,
};
use vstd::arithmetic::mul::{lemma_mul_inequality, lemma_mul_nonnegative};
use vstd::prelude::*;

verus! {

/// Per-tile reprojection record: the tile's top-left offset in the globally
/// rescaled image, and the two exact rational scale factors (numerator over
/// denominator per axis) that map model-input coordinates back to the
/// original image.
pub struct TileMetadata {
    pub start_x: usize,
    pub start_y: usize,
    pub width_scale_num: u64,
    pub width_scale_den: u64,
    pub height_scale_num: u64,
    pub height_scale_den: u64,
}

impl TileMetadata {
    /// Scales are positive rationals and all fields are small enough that
    /// reprojected coordinates stay within box-arithmetic bounds.
    pub open spec fn wf(self) -> bool {
        &&& self.start_x <= 32768
        &&& self.start_y <= 32768
        &&& 1 <= self.width_scale_num <= 0x2000_0000
        &&& 1 <= self.width_scale_den <= 0x2000_0000
        &&& 1 <= self.height_scale_num <= 0x2000_0000
        &&& 1 <= self.height_scale_den <= 0x2000_0000
    }
}

/// Tile count along one axis, and the base extent of each tile: the axis is
/// divided into `cur / window` tiles of `cur / (cur / window)` pixels, so
/// remainder pixels are absorbed by integer division.
pub fn tile_edge(length: usize, window_length: usize) -> (r: (u8, u16))
    requires
        1 <= window_length <= length,
        length as int / (window_length as int) <= 255,
        length as int / (length as int / (window_length as int)) <= 65535,
    ensures
        r.0 as int == length as int / (window_length as int),
        r.1 as int == length as int / (length as int / (window_length as int)),
{
    let num = length / window_length;
    proof {
        lemma_div_pos_is_pos(length as int, window_length as int);
        assert(length as int / (window_length as int) >= 1) by {
            vstd::arithmetic::div_mod::lemma_div_is_ordered(
                window_length as int,
                length as int,
                window_length as int,
            );
            vstd::arithmetic::div_mod::lemma_div_by_self(window_length as int);
        }
    }
    let avg = length / num;
    (num as u8, avg as u16)
}

/// The per-axis extent of the globally rescaled image: axes shorter than
/// twice the window are brought up to exactly twice the window.
pub open spec fn rescaled(origin: int, window: int) -> int {
    if origin < 2 * window {
        2 * window
    } else {
        origin
    }
}

/// Numerator of the global rescale factor along one axis.
pub open spec fn g_num(origin: int, window: int) -> int {
    if origin < 2 * window {
        2 * window
    } else {
        1
    }
}

/// Denominator of the global rescale factor along one axis.
pub open spec fn g_den(origin: int, window: int) -> int {
    if origin < 2 * window {
        origin
    } else {
        1
    }
}

/// Resampling by the global factor hits the rescaled extent exactly.
pub proof fn lemma_rescaled_dim(origin: int, window: int)
    requires
        1 <= origin,
        1 <= window,
    ensures
        scaled_dim(origin, g_num(origin, window), g_den(origin, window)) == rescaled(
            origin,
            window,
        ),
{
    if origin < 2 * window {
        assert(2 * origin * (2 * window) + origin == (2 * origin) * (2 * window) + origin)
            by (nonlinear_arith);
        lemma_div_multiples_vanish_fancy(2 * window, origin, 2 * origin);
    } else {
        assert(2 * origin * 1 + 1 == 2 * origin + 1) by (nonlinear_arith);
        lemma_div_multiples_vanish_fancy(origin, 1, 2);
    }
}

/// Number of tiles along one axis of the rescaled image.
pub open spec fn axis_cells(cur: int, window: int) -> int {
    cur / window
}

/// Base tile extent along one axis of the rescaled image.
pub open spec fn axis_extent(cur: int, window: int) -> int {
    cur / (cur / window)
}

/// Whether tile `i` of one axis is widened by the overlap: it is interior
/// on the left (does not start at the edge) and the widened extent still
/// fits the image on the right.
pub open spec fn axis_expanded(cur: int, tile: int, overlap: int, i: int) -> bool {
    i * tile != 0 && (i + 1) * tile + overlap / 2 <= cur
}

/// Start of tile `i` along one axis.
pub open spec fn axis_start(cur: int, tile: int, overlap: int, i: int) -> int {
    if axis_expanded(cur, tile, overlap, i) {
        i * tile - overlap / 2
    } else {
        i * tile
    }
}

/// End of tile `i` along one axis.
pub open spec fn axis_end(cur: int, tile: int, overlap: int, i: int) -> int {
    if axis_expanded(cur, tile, overlap, i) {
        (i + 1) * tile + overlap / 2
    } else {
        (i + 1) * tile
    }
}

/// Numerator of the tile-to-input scale along one axis: widened tiles are
/// resampled as `tile + overlap` source pixels per `input` target pixels.
pub open spec fn axis_num(tile: int, overlap: int, expanded: bool) -> int {
    if expanded {
        tile + overlap
    } else {
        tile
    }
}

/// Whether the tile at flat cell index `n` (row-major over the tile grid)
/// resamples to exactly the model input resolution and is therefore kept.
pub open spec fn kept_cell(cfg: DetectConfig, ow: int, oh: int, n: int) -> bool {
    let cw = rescaled(ow, cfg.window_size.0 as int);
    let ch = rescaled(oh, cfg.window_size.1 as int);
    let wn = axis_cells(cw, cfg.window_size.0 as int);
    let wt = axis_extent(cw, cfg.window_size.0 as int);
    let ht = axis_extent(ch, cfg.window_size.1 as int);
    let xi = n % wn;
    let yi = n / wn;
    let ex = axis_expanded(cw, wt, cfg.overlap as int, xi);
    let ey = axis_expanded(ch, ht, cfg.overlap as int, yi);
    &&& scaled_dim(
        axis_end(cw, wt, cfg.overlap as int, xi) - axis_start(cw, wt, cfg.overlap as int, xi),
        cfg.input_size.0 as int,
        axis_num(wt, cfg.overlap as int, ex),
    ) == cfg.input_size.0 as int
    &&& scaled_dim(
        axis_end(ch, ht, cfg.overlap as int, yi) - axis_start(ch, ht, cfg.overlap as int, yi),
        cfg.input_size.1 as int,
        axis_num(ht, cfg.overlap as int, ey),
    ) == cfg.input_size.1 as int
}

/// Number of kept tiles among the first `n` cells of the tile grid.
pub open spec fn kept_count(cfg: DetectConfig, ow: int, oh: int, n: int) -> int
    decreases n,
{
    if n <= 0 {
        0
    } else {
        kept_count(cfg, ow, oh, n - 1) + if kept_cell(cfg, ow, oh, n - 1) {
            1int
        } else {
            0int
        }
    }
}

/// The metadata of the tile at flat cell index `n`: the tile's start in the
/// rescaled image, and per-axis scale `axis_num / input` composed with the
/// inverse global rescale factor.
pub open spec fn cell_metadata(cfg: DetectConfig, ow: int, oh: int, n: int) -> TileMetadata {
    let cw = rescaled(ow, cfg.window_size.0 as int);
    let ch = rescaled(oh, cfg.window_size.1 as int);
    let wn = axis_cells(cw, cfg.window_size.0 as int);
    let wt = axis_extent(cw, cfg.window_size.0 as int);
    let ht = axis_extent(ch, cfg.window_size.1 as int);
    let xi = n % wn;
    let yi = n / wn;
    let ex = axis_expanded(cw, wt, cfg.overlap as int, xi);
    let ey = axis_expanded(ch, ht, cfg.overlap as int, yi);
    TileMetadata {
        start_x: axis_start(cw, wt, cfg.overlap as int, xi) as usize,
        start_y: axis_start(ch, ht, cfg.overlap as int, yi) as usize,
        width_scale_num: (axis_num(wt, cfg.overlap as int, ex) * g_den(
            ow,
            cfg.window_size.0 as int,
        )) as u64,
        width_scale_den: ((cfg.input_size.0 as int) * g_num(ow, cfg.window_size.0 as int)) as u64,
        height_scale_num: (axis_num(ht, cfg.overlap as int, ey) * g_den(
            oh,
            cfg.window_size.1 as int,
        )) as u64,
        height_scale_den: ((cfg.input_size.1 as int) * g_num(oh, cfg.window_size.1 as int)) as u64,
    }
}

/// The source pixel of the original image seen at channel `c`, row `y`,
/// column `x` of the tile at flat cell index `n`: the tile-to-input
/// resampling, the crop offset, and the global rescale are composed.
pub open spec fn tile_pixel(img: Image, cfg: DetectConfig, n: int, c: int, y: int, x: int) -> int {
    let ow = img.width as int;
    let oh = img.height as int;
    let cw = rescaled(ow, cfg.window_size.0 as int);
    let ch = rescaled(oh, cfg.window_size.1 as int);
    let wn = axis_cells(cw, cfg.window_size.0 as int);
    let wt = axis_extent(cw, cfg.window_size.0 as int);
    let ht = axis_extent(ch, cfg.window_size.1 as int);
    let xi = n % wn;
    let yi = n / wn;
    let ex = axis_expanded(cw, wt, cfg.overlap as int, xi);
    let ey = axis_expanded(ch, ht, cfg.overlap as int, yi);
    let sx = axis_start(cw, wt, cfg.overlap as int, xi);
    let sy = axis_start(ch, ht, cfg.overlap as int, yi);
    let lx = sx + src_index(x, cfg.input_size.0 as int, axis_num(wt, cfg.overlap as int, ex));
    let ly = sy + src_index(y, cfg.input_size.1 as int, axis_num(ht, cfg.overlap as int, ey));
    img.at(
        c,
        src_index(ly, g_num(oh, cfg.window_size.1 as int), g_den(oh, cfg.window_size.1 as int)),
        src_index(lx, g_num(ow, cfg.window_size.0 as int), g_den(ow, cfg.window_size.0 as int)),
    )
}

/// One kept tile is correct: its image has the model input resolution and
/// carries the composed nearest-neighbor resampling of the original image,
/// and its metadata is the cell's metadata.
pub open spec fn tile_ok(img: Image, cfg: DetectConfig, n: int, t: (Image, TileMetadata)) -> bool {
    &&& t.0.wf()
    &&& t.0.width == cfg.input_size.0
    &&& t.0.height == cfg.input_size.1
    &&& t.1 == cell_metadata(cfg, img.width as int, img.height as int, n)
    &&& t.1.wf()
    &&& forall|c: int, y: int, x: int|
        0 <= c < 3 && 0 <= y < t.0.height && 0 <= x < t.0.width ==> #[trigger] t.0.at(c, y, x)
            == tile_pixel(img, cfg, n, c, y, x)
}

/// Helper facts about one axis of the tile grid.
proof fn lemma_axis_facts(cur: int, window: int)
    requires
        1 <= window <= 8192,
        2 * window <= cur <= 16384,
    ensures
        2 <= axis_cells(cur, window) <= cur,
        window <= axis_extent(cur, window) <= cur,
        axis_cells(cur, window) * axis_extent(cur, window) <= cur,
{
    let n = axis_cells(cur, window);
    let t = axis_extent(cur, window);
    assert(cur / window >= 2) by {
        lemma_div_is_ordered(2 * window, cur, window);
        assert(2 * window == window * 2) by (nonlinear_arith);
        vstd::arithmetic::div_mod::lemma_div_multiples_vanish(2, window);
    }
    lemma_div_nonincreasing(cur, window);
    lemma_fundamental_div_mod(cur, n);
    lemma_remainder_lower(cur, n);
    assert(n * t <= cur);
    assert(t >= window) by {
        lemma_fundamental_div_mod(cur, window);
        lemma_remainder_lower(cur, window);
        assert(n * window <= cur) by (nonlinear_arith)
            requires
                cur == window * n + cur % window,
                cur % window >= 0,
        ;
        lemma_div_is_ordered(n * window, cur, n);
        vstd::arithmetic::div_mod::lemma_div_multiples_vanish(window, n);
    }
    lemma_div_nonincreasing(cur, n);
    lemma_div_pos_is_pos(cur, n);
}

} // verus!

verus! {


/// Resampling at most `num` source pixels to `input` per `num` never
/// exceeds `input` target pixels, and exactly `num` source pixels hit
/// `input` exactly.
proof fn lemma_scaled_le(dim: int, input: int, num: int)
    requires
        1 <= dim <= num,
        1 <= input,
    ensures
        scaled_dim(dim, input, num) <= input,
        scaled_dim(num, input, num) == input,
{
    assert(2 * num * input + num == (2 * num) * input + num) by (nonlinear_arith);
    lemma_div_multiples_vanish_fancy(input, num, 2 * num);
    assert(2 * dim * input <= 2 * num * input) by (nonlinear_arith)
        requires
            dim <= num,
            input >= 1,
    ;
    lemma_div_is_ordered(2 * dim * input + num, 2 * num * input + num, 2 * num);
}

/// Kept counts never decrease along prefixes and never drop below zero.
proof fn lemma_kept_count_mono(cfg: DetectConfig, ow: int, oh: int, m: int, n: int)
    requires
        0 <= m <= n,
    ensures
        0 <= kept_count(cfg, ow, oh, m) <= kept_count(cfg, ow, oh, n),
    decreases n - m, m,
{
    if m < n {
        lemma_kept_count_mono(cfg, ow, oh, m, n - 1);
    } else if m > 0 {
        lemma_kept_count_mono(cfg, ow, oh, m - 1, m - 1);
    }
}

/// Crops `[sy, ey) x [sx, ex)` out of the rescaled image and resamples it
/// toward the model input resolution with per-axis factors
/// `input / num`; the result is exact nearest-neighbor lookup into `g`.
fn cut_tile(
    g: &Image,
    sx: usize,
    ex: usize,
    sy: usize,
    ey: usize,
    in_w: usize,
    in_h: usize,
    nx: usize,
    ny: usize,
) -> (t: Image)
    requires
        g.wf(),
        sx < ex <= g.width,
        sy < ey <= g.height,
        g.height <= 16384,
        g.width <= 16384,
        1 <= in_w <= 8192,
        1 <= in_h <= 8192,
        ex - sx <= nx,
        ey - sy <= ny,
        1 <= nx <= 0x2000_0000,
        1 <= ny <= 0x2000_0000,
    ensures
        t.wf(),
        t.height == scaled_dim(ey - sy, in_h as int, ny as int),
        t.width == scaled_dim(ex - sx, in_w as int, nx as int),
        t.height <= in_h,
        t.width <= in_w,
        forall|c: int, y: int, x: int|
            0 <= c < 3 && 0 <= y < t.height && 0 <= x < t.width ==> #[trigger] t.at(c, y, x)
                == g.at(
                c,
                sy + src_index(y, in_h as int, ny as int),
                sx + src_index(x, in_w as int, nx as int),
            ),
        forall|y: int|
            0 <= y < t.height ==> sy + src_index(y, in_h as int, ny as int) < ey,
        forall|x: int|
            0 <= x < t.width ==> sx + src_index(x, in_w as int, nx as int) < ex,
{
    proof {
        lemma_scaled_le(ex - sx, in_w as int, nx as int);
        lemma_scaled_le(ey - sy, in_h as int, ny as int);
    }
    let cropped = crop_img(g, sx, ex, sy, ey);
    let t = resize_img(&cropped, in_w as u64, nx as u64, in_h as u64, ny as u64);
    proof {
        assert forall|y: int| 0 <= y < t.height implies sy + src_index(y, in_h as int, ny as int)
            < ey by {
            crate::image::lemma_src_index_in_range(ey - sy, in_h as int, ny as int, y);
        }
        assert forall|x: int| 0 <= x < t.width implies sx + src_index(x, in_w as int, nx as int)
            < ex by {
            crate::image::lemma_src_index_in_range(ex - sx, in_w as int, nx as int, x);
        }
        assert forall|c: int, y: int, x: int|
            0 <= c < 3 && 0 <= y < t.height && 0 <= x < t.width implies #[trigger] t.at(c, y, x)
            == g.at(
            c,
            sy + src_index(y, in_h as int, ny as int),
            sx + src_index(x, in_w as int, nx as int),
        ) by {
            crate::image::lemma_src_index_in_range(ey - sy, in_h as int, ny as int, y);
            crate::image::lemma_src_index_in_range(ex - sx, in_w as int, nx as int, x);
        }
    }
    t
}

/// Appending the tile of the next kept cell preserves the tile ledger.
proof fn lemma_push_kept(
    img: Image,
    cfg: DetectConfig,
    n: int,
    old_out: Seq<(Image, TileMetadata)>,
    t: (Image, TileMetadata),
)
    requires
        n >= 0,
        old_out.len() == kept_count(cfg, img.width as int, img.height as int, n),
        forall|m: int|
            0 <= m < n && #[trigger] kept_cell(cfg, img.width as int, img.height as int, m)
                ==> 0 <= kept_count(cfg, img.width as int, img.height as int, m) < old_out.len()
                && tile_ok(
                img,
                cfg,
                m,
                old_out[kept_count(cfg, img.width as int, img.height as int, m)],
            ),
        kept_cell(cfg, img.width as int, img.height as int, n),
        tile_ok(img, cfg, n, t),
    ensures
        old_out.push(t).len() == kept_count(cfg, img.width as int, img.height as int, n + 1),
        forall|m: int|
            0 <= m < n + 1 && #[trigger] kept_cell(cfg, img.width as int, img.height as int, m)
                ==> 0 <= kept_count(cfg, img.width as int, img.height as int, m) < old_out.push(
                t,
            ).len() && tile_ok(
                img,
                cfg,
                m,
                old_out.push(t)[kept_count(cfg, img.width as int, img.height as int, m)],
            ),
{
    assert(kept_count(cfg, img.width as int, img.height as int, n + 1) == kept_count(
        cfg,
        img.width as int,
        img.height as int,
        n,
    ) + 1);
    assert forall|m: int|
        0 <= m < n + 1 && #[trigger] kept_cell(cfg, img.width as int, img.height as int, m)
        implies 0 <= kept_count(cfg, img.width as int, img.height as int, m) < old_out.push(
        t,
    ).len() && tile_ok(
        img,
        cfg,
        m,
        old_out.push(t)[kept_count(cfg, img.width as int, img.height as int, m)],
    ) by {
        lemma_kept_count_mono(cfg, img.width as int, img.height as int, m, n);
        if m < n {
            assert(0 <= kept_count(cfg, img.width as int, img.height as int, m) < old_out.len()
                && tile_ok(
                img,
                cfg,
                m,
                old_out[kept_count(cfg, img.width as int, img.height as int, m)],
            ));
            assert(old_out.push(t)[kept_count(cfg, img.width as int, img.height as int, m)]
                == old_out[kept_count(cfg, img.width as int, img.height as int, m)]);
        } else {
            assert(old_out.push(t)[old_out.len() as int] == t);
        }
    }
}

/// A skipped cell leaves the tile ledger unchanged.
proof fn lemma_skip_kept(
    img: Image,
    cfg: DetectConfig,
    n: int,
    out: Seq<(Image, TileMetadata)>,
)
    requires
        n >= 0,
        out.len() == kept_count(cfg, img.width as int, img.height as int, n),
        forall|m: int|
            0 <= m < n && #[trigger] kept_cell(cfg, img.width as int, img.height as int, m)
                ==> 0 <= kept_count(cfg, img.width as int, img.height as int, m) < out.len()
                && tile_ok(
                img,
                cfg,
                m,
                out[kept_count(cfg, img.width as int, img.height as int, m)],
            ),
        !kept_cell(cfg, img.width as int, img.height as int, n),
    ensures
        out.len() == kept_count(cfg, img.width as int, img.height as int, n + 1),
        forall|m: int|
            0 <= m < n + 1 && #[trigger] kept_cell(cfg, img.width as int, img.height as int, m)
                ==> 0 <= kept_count(cfg, img.width as int, img.height as int, m) < out.len()
                && tile_ok(
                img,
                cfg,
                m,
                out[kept_count(cfg, img.width as int, img.height as int, m)],
            ),
{
    assert(kept_count(cfg, img.width as int, img.height as int, n + 1) == kept_count(
        cfg,
        img.width as int,
        img.height as int,
        n,
    ));
    assert forall|m: int|
        0 <= m < n + 1 && #[trigger] kept_cell(cfg, img.width as int, img.height as int, m)
        implies 0 <= kept_count(cfg, img.width as int, img.height as int, m) < out.len()
        && tile_ok(
        img,
        cfg,
        m,
        out[kept_count(cfg, img.width as int, img.height as int, m)],
    ) by {
        assert(m < n);
        assert(0 <= kept_count(cfg, img.width as int, img.height as int, m) < out.len()
            && tile_ok(
            img,
            cfg,
            m,
            out[kept_count(cfg, img.width as int, img.height as int, m)],
        ));
    }
}

} // verus!

verus! {

/// Splits the globally rescaled image into a row-major grid of tiles, each
/// widened by the overlap where it is interior, resampled to the model
/// input resolution, and tagged with its reprojection metadata.  A tile
/// whose resampled extent misses the input resolution (possible only for
/// odd overlaps) is skipped; every kept tile is exact.
pub fn split_tiles(img: Image, config: &DetectConfig) -> (r: Vec<(Image, TileMetadata)>)
    requires
        img.wf(),
        config.wf(),
        1 <= img.height <= 16384,
        1 <= img.width <= 16384,
        config.overlap as int / 2 <= config.window_size.0,
        config.overlap as int / 2 <= config.window_size.1,
    ensures
        r@.len() == kept_count(
            *config,
            img.width as int,
            img.height as int,
            axis_cells(rescaled(img.height as int, config.window_size.1 as int), config.window_size.1 as int)
                * axis_cells(
                rescaled(img.width as int, config.window_size.0 as int),
                config.window_size.0 as int,
            ),
        ),
        forall|m: int|
            0 <= m < axis_cells(
                rescaled(img.height as int, config.window_size.1 as int),
                config.window_size.1 as int,
            ) * axis_cells(rescaled(img.width as int, config.window_size.0 as int), config.window_size.0 as int)
                && #[trigger] kept_cell(*config, img.width as int, img.height as int, m) ==> 0
                <= kept_count(*config, img.width as int, img.height as int, m) < r@.len()
                && tile_ok(
                img,
                *config,
                m,
                r@[kept_count(*config, img.width as int, img.height as int, m)],
            ),
{
    let ghost cfg = *config;
    let ow = img.width;
    let oh = img.height;
    let win_w = config.window_size.0;
    let win_h = config.window_size.1;
    let in_w = config.input_size.0;
    let in_h = config.input_size.1;
    let ovf: usize = config.overlap as usize;
    let ov2: usize = ovf / 2;
    let (gwn, gwd): (u64, u64) = if ow < 2 * win_w {
        (((2 * win_w) as u64), (ow as u64))
    } else {
        (1u64, 1u64)
    };
    let (ghn, ghd): (u64, u64) = if oh < 2 * win_h {
        (((2 * win_h) as u64), (oh as u64))
    } else {
        (1u64, 1u64)
    };
    proof {
        lemma_rescaled_dim(ow as int, win_w as int);
        lemma_rescaled_dim(oh as int, win_h as int);
    }
    let g = resize_img(&img, gwn, gwd, ghn, ghd);
    let cw = g.width;
    let ch_ = g.height;
    proof {
        lemma_axis_facts(cw as int, win_w as int);
        lemma_axis_facts(ch_ as int, win_h as int);
    }
    let wn = cw / win_w;
    let wt = cw / wn;
    let hn = ch_ / win_h;
    let ht = ch_ / hn;
    proof {
        assert(hn * wn <= 16384 * 16384) by (nonlinear_arith)
            requires
                0 <= hn <= 16384,
                0 <= wn <= 16384,
        ;
        lemma_mul_nonnegative(hn as int, wn as int);
    }
    let total: usize = hn * wn;
    let mut out: Vec<(Image, TileMetadata)> = Vec::new();
    let mut n: usize = 0;
    while n < total
        invariant
            img.wf(),
            g.wf(),
            config.wf(),
            cfg == *config,
            ow == img.width,
            oh == img.height,
            1 <= img.height <= 16384,
            1 <= img.width <= 16384,
            win_w == config.window_size.0,
            win_h == config.window_size.1,
            in_w == config.input_size.0,
            in_h == config.input_size.1,
            ovf == config.overlap as int,
            ov2 == ovf as int / 2,
            ov2 <= win_w,
            ov2 <= win_h,
            cw == rescaled(ow as int, win_w as int),
            ch_ == rescaled(oh as int, win_h as int),
            g.width == cw,
            g.height == ch_,
            2 * win_w <= cw <= 16384,
            2 * win_h <= ch_ <= 16384,
            wn == axis_cells(cw as int, win_w as int),
            wt == axis_extent(cw as int, win_w as int),
            hn == axis_cells(ch_ as int, win_h as int),
            ht == axis_extent(ch_ as int, win_h as int),
            2 <= wn <= cw,
            win_w <= wt <= cw,
            wn * wt <= cw,
            2 <= hn <= ch_,
            win_h <= ht <= ch_,
            hn * ht <= ch_,
            total == hn * wn,
            gwn as int == g_num(ow as int, win_w as int),
            gwd as int == g_den(ow as int, win_w as int),
            ghn as int == g_num(oh as int, win_h as int),
            ghd as int == g_den(oh as int, win_h as int),
            1 <= gwn <= 16384,
            1 <= gwd <= 16384,
            1 <= ghn <= 16384,
            1 <= ghd <= 16384,
            forall|c: int, y: int, x: int|
                0 <= c < 3 && 0 <= y < ch_ && 0 <= x < cw ==> #[trigger] g.at(c, y, x) == img.at(
                    c,
                    src_index(y, ghn as int, ghd as int),
                    src_index(x, gwn as int, gwd as int),
                ),
            n <= total,
            out@.len() == kept_count(cfg, ow as int, oh as int, n as int),
            forall|m: int|
                0 <= m < n && #[trigger] kept_cell(cfg, ow as int, oh as int, m) ==> 0
                    <= kept_count(cfg, ow as int, oh as int, m) < out@.len() && tile_ok(
                    img,
                    cfg,
                    m,
                    out@[kept_count(cfg, ow as int, oh as int, m)],
                ),
        decreases total - n,
    {
        let yi = n / wn;
        let xi = n % wn;
        proof {
            assert(n < wn * hn) by (nonlinear_arith)
                requires
                    n < total,
                    total == hn * wn,
            ;
            lemma_multiply_divide_lt(n as int, wn as int, hn as int);
            lemma_mod_division_less_than_divisor(n as int, wn as int);
            lemma_div_pos_is_pos(n as int, wn as int);
            lemma_mul_nonnegative(xi as int, wt as int);
            lemma_mul_nonnegative(yi as int, ht as int);
            assert((xi + 1) * wt == xi * wt + wt && (yi + 1) * ht == yi * ht + ht)
                by (nonlinear_arith);
            lemma_mul_inequality(xi + 1, wn as int, wt as int);
            lemma_mul_inequality(yi + 1, hn as int, ht as int);
        }
        let s0x = xi * wt;
        let e0x = s0x + wt;
        let s0y = yi * ht;
        let e0y = s0y + ht;
        proof {
            if s0x != 0 {
                assert(xi >= 1) by {
                    if xi == 0 {
                        assert(0int * wt == 0) by (nonlinear_arith);
                    }
                }
                lemma_mul_inequality(1, xi as int, wt as int);
                assert(1int * wt == wt) by (nonlinear_arith);
            }
            if s0y != 0 {
                assert(yi >= 1) by {
                    if yi == 0 {
                        assert(0int * ht == 0) by (nonlinear_arith);
                    }
                }
                lemma_mul_inequality(1, yi as int, ht as int);
                assert(1int * ht == ht) by (nonlinear_arith);
            }
        }
        let (sx, ex2, nx): (usize, usize, usize) = if s0x != 0 && e0x + ov2 <= cw {
            (s0x - ov2, e0x + ov2, wt + ovf)
        } else {
            (s0x, e0x, wt)
        };
        let (sy, ey2, ny): (usize, usize, usize) = if s0y != 0 && e0y + ov2 <= ch_ {
            (s0y - ov2, e0y + ov2, ht + ovf)
        } else {
            (s0y, e0y, ht)
        };
        proof {
            assert(sx as int == axis_start(cw as int, wt as int, ovf as int, xi as int));
            assert(ex2 as int == axis_end(cw as int, wt as int, ovf as int, xi as int));
            assert(nx as int == axis_num(
                wt as int,
                ovf as int,
                axis_expanded(cw as int, wt as int, ovf as int, xi as int),
            ));
            assert(sy as int == axis_start(ch_ as int, ht as int, ovf as int, yi as int));
            assert(ey2 as int == axis_end(ch_ as int, ht as int, ovf as int, yi as int));
            assert(ny as int == axis_num(
                ht as int,
                ovf as int,
                axis_expanded(ch_ as int, ht as int, ovf as int, yi as int),
            ));
        }
        let tile = cut_tile(&g, sx, ex2, sy, ey2, in_w, in_h, nx, ny);
        let ghost keptc = kept_cell(cfg, ow as int, oh as int, n as int);
        proof {
            assert(keptc <==> (tile.height == in_h && tile.width == in_w));
        }
        if tile.height == in_h && tile.width == in_w {
            proof {
                assert((nx as int) * (gwd as int) <= 0x2000_0000 && (in_w as int) * (gwn as int)
                    <= 0x2000_0000 && (ny as int) * (ghd as int) <= 0x2000_0000 && (in_h as int) * (
                ghn as int) <= 0x2000_0000 && (nx as int) * (gwd as int) >= 1 && (in_w as int) * (
                gwn as int) >= 1 && (ny as int) * (ghd as int) >= 1 && (in_h as int) * (ghn as int)
                    >= 1) by (nonlinear_arith)
                    requires
                        1 <= nx <= 16384 + 255,
                        1 <= ny <= 16384 + 255,
                        1 <= gwd <= 16384,
                        1 <= ghd <= 16384,
                        1 <= gwn <= 16384,
                        1 <= ghn <= 16384,
                        1 <= in_w <= 8192,
                        1 <= in_h <= 8192,
                ;
            }
            let md = TileMetadata {
                start_x: sx,
                start_y: sy,
                width_scale_num: (nx as u64) * gwd,
                width_scale_den: (in_w as u64) * gwn,
                height_scale_num: (ny as u64) * ghd,
                height_scale_den: (in_h as u64) * ghn,
            };
            let ghost old_out = out@;
            proof {
                assert(md == cell_metadata(cfg, ow as int, oh as int, n as int));
                assert(md.wf());
                assert forall|c: int, y: int, x: int|
                    0 <= c < 3 && 0 <= y < tile.height && 0 <= x < tile.width
                    implies #[trigger] tile.at(c, y, x) == tile_pixel(
                    img,
                    cfg,
                    n as int,
                    c,
                    y,
                    x,
                ) by {}
                assert(tile_ok(img, cfg, n as int, (tile, md)));
                lemma_push_kept(img, cfg, n as int, old_out, (tile, md));
            }
            out.push((tile, md));
        } else {
            proof {
                lemma_skip_kept(img, cfg, n as int, out@);
            }
        }
        n = n + 1;
    }
    out
}

} // verus!

verus! {

/// Law: an image measuring exactly twice the window on both axes with zero
/// overlap yields exactly one tile per grid cell of the 2 x 2 grid, with
/// no padding or widening, and each tile's metadata scale is the bare
/// window-to-input ratio: the global rescale contributes the identity.
pub proof fn lemma_exact_double_tiling(cfg: DetectConfig, ow: int, oh: int)
    requires
        cfg.wf(),
        ow == 2 * cfg.window_size.0,
        oh == 2 * cfg.window_size.1,
        cfg.overlap == 0,
    ensures
        axis_cells(rescaled(ow, cfg.window_size.0 as int), cfg.window_size.0 as int) == 2,
        axis_cells(rescaled(oh, cfg.window_size.1 as int), cfg.window_size.1 as int) == 2,
        forall|n: int| 0 <= n < 4 ==> #[trigger] kept_cell(cfg, ow, oh, n),
        kept_count(cfg, ow, oh, 4) == 4,
        forall|n: int|
            0 <= n < 4 ==> {
                let md = #[trigger] cell_metadata(cfg, ow, oh, n);
                &&& md.width_scale_num as int == cfg.window_size.0 as int
                &&& md.width_scale_den as int == cfg.input_size.0 as int
                &&& md.height_scale_num as int == cfg.window_size.1 as int
                &&& md.height_scale_den as int == cfg.input_size.1 as int
                &&& md.start_x as int == (n % 2) * (cfg.window_size.0 as int)
                &&& md.start_y as int == (n / 2) * (cfg.window_size.1 as int)
            },
{
    let ww = cfg.window_size.0 as int;
    let wh = cfg.window_size.1 as int;
    let cw = rescaled(ow, ww);
    let ch = rescaled(oh, wh);
    assert(cw == 2 * ww && ch == 2 * wh);
    assert(axis_cells(cw, ww) == 2) by {
        assert(2 * ww == ww * 2) by (nonlinear_arith);
        vstd::arithmetic::div_mod::lemma_div_multiples_vanish(2, ww);
    }
    assert(axis_cells(ch, wh) == 2) by {
        assert(2 * wh == wh * 2) by (nonlinear_arith);
        vstd::arithmetic::div_mod::lemma_div_multiples_vanish(2, wh);
    }
    assert(axis_extent(cw, ww) == ww) by {
        vstd::arithmetic::div_mod::lemma_div_multiples_vanish(ww, 2);
    }
    assert(axis_extent(ch, wh) == wh) by {
        vstd::arithmetic::div_mod::lemma_div_multiples_vanish(wh, 2);
    }
    assert forall|i: int| 0 <= i < 2 implies axis_start(cw, ww, 0, i) == i * ww && axis_end(
        cw,
        ww,
        0,
        i,
    ) - axis_start(cw, ww, 0, i) == ww && axis_num(
        ww,
        0,
        axis_expanded(cw, ww, 0, i),
    ) == ww by {
        assert(0int * ww == 0 && 1int * ww == ww && 2int * ww == ww + ww) by (nonlinear_arith);
    }
    assert forall|i: int| 0 <= i < 2 implies axis_start(ch, wh, 0, i) == i * wh && axis_end(
        ch,
        wh,
        0,
        i,
    ) - axis_start(ch, wh, 0, i) == wh && axis_num(
        wh,
        0,
        axis_expanded(ch, wh, 0, i),
    ) == wh by {
        assert(0int * wh == 0 && 1int * wh == wh && 2int * wh == wh + wh) by (nonlinear_arith);
    }
    lemma_scaled_le(ww, cfg.input_size.0 as int, ww);
    lemma_scaled_le(wh, cfg.input_size.1 as int, wh);
    assert forall|n: int| 0 <= n < 4 implies #[trigger] kept_cell(cfg, ow, oh, n) by {
        vstd::arithmetic::div_mod::lemma_mod_division_less_than_divisor(n, 2);
        vstd::arithmetic::div_mod::lemma_div_pos_is_pos(n, 2);
        vstd::arithmetic::div_mod::lemma_multiply_divide_lt(n, 2, 2);
    }
    assert forall|n: int| 0 <= n < 4 implies {
        let md = #[trigger] cell_metadata(cfg, ow, oh, n);
        &&& md.width_scale_num as int == cfg.window_size.0 as int
        &&& md.width_scale_den as int == cfg.input_size.0 as int
        &&& md.height_scale_num as int == cfg.window_size.1 as int
        &&& md.height_scale_den as int == cfg.input_size.1 as int
        &&& md.start_x as int == (n % 2) * (cfg.window_size.0 as int)
        &&& md.start_y as int == (n / 2) * (cfg.window_size.1 as int)
    } by {
        vstd::arithmetic::div_mod::lemma_mod_division_less_than_divisor(n, 2);
        vstd::arithmetic::div_mod::lemma_div_pos_is_pos(n, 2);
        vstd::arithmetic::div_mod::lemma_multiply_divide_lt(n, 2, 2);
        assert(ww * 1 == ww && (cfg.input_size.0 as int) * 1 == cfg.input_size.0 as int && wh * 1
            == wh && (cfg.input_size.1 as int) * 1 == cfg.input_size.1 as int)
            by (nonlinear_arith);
    }
    assert(kept_cell(cfg, ow, oh, 0) && kept_cell(cfg, ow, oh, 1) && kept_cell(cfg, ow, oh, 2)
        && kept_cell(cfg, ow, oh, 3));
    assert(kept_count(cfg, ow, oh, 0) == 0);
    assert(kept_count(cfg, ow, oh, 1) == 1);
    assert(kept_count(cfg, ow, oh, 2) == 2);
    assert(kept_count(cfg, ow, oh, 3) == 3);
    assert(kept_count(cfg, ow, oh, 4) == 4);
}

} // verus!
