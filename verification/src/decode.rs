//! Decoding one tile's raw detector outputs (heatmap logits and a size
//! regression map) into bounding boxes, and reprojecting those boxes from
//! model-input coordinates to original-image coordinates.

use crate::bbox::BBox;
use crate::fixed::{
    div_trunc, div_trunc_i64, lemma_div_trunc_bounds, lemma_div_trunc_ordered, lemma_sigmoid_range,
    sigmoid_spec, SCALE,
};
use crate::grid::{Grid, SizeMap};
use crate::heatmap::{
    grid_entries, heatmap_nms, lemma_grid_entries_cells, lemma_top_k_len, lemma_top_k_membership,
    lemma_top_k_sorted, nms_value, padded_at, row_max, sigmoid_grid, top_k, top_k_spec, win_max,
};
use crate::tiling::TileMetadata;
use crate::DetectConfig;
use vstd::arithmetic::div_mod::{
    lemma_div_pos_is_pos, lemma_fundamental_div_mod, lemma_mod_division_less_than_divisor,
    lemma_multiply_divide_le, lemma_multiply_divide_lt,
};
use vstd::arithmetic::mul::{lemma_mul_inequality, lemma_mul_is_commutative, lemma_mul_nonnegative};
use vstd::prelude::*;

verus! {

/// Magnitude bound on box coordinates decoded at model-input resolution.
pub const DECODE_LIMIT: i64 = 2097152;

/// Upper bound accepted for size-regression values (fixed-point heatmap
/// cells), far above any plausible prediction; callers clamp raw outputs
/// into this range.
pub const SIZE_REG_LIMIT: i64 = 16777216;

/// The logistic activation of the heatmap, extended by `p` cells of zeros
/// on every side.
pub open spec fn sig_padded_at(g: Grid, p: int, r: int, c: int) -> int {
    if p <= r < g.height + p && p <= c < g.width + p {
        sigmoid_spec(g.at(r - p, c - p))
    } else {
        0
    }
}

/// Maximum of `n` activated padded cells `(r, c0) .. (r, c0 + n - 1)`.
pub open spec fn sig_row_max(g: Grid, p: int, r: int, c0: int, n: nat) -> int
    decreases n,
{
    if n <= 1 {
        sig_padded_at(g, p, r, c0)
    } else {
        let m = sig_row_max(g, p, r, c0, (n - 1) as nat);
        let v = sig_padded_at(g, p, r, c0 + n - 1);
        if v > m {
            v
        } else {
            m
        }
    }
}

/// Maximum of the activated `m x k` padded window with top-left `(r0, c0)`.
pub open spec fn sig_win_max(g: Grid, p: int, r0: int, c0: int, m: nat, k: nat) -> int
    decreases m,
{
    if m <= 1 {
        sig_row_max(g, p, r0, c0, k)
    } else {
        let a = sig_win_max(g, p, r0, c0, (m - 1) as nat, k);
        let b = sig_row_max(g, p, r0 + m - 1, c0, k);
        if b > a {
            b
        } else {
            a
        }
    }
}

/// What peak suppression keeps at `(r, c)` of the activated heatmap.
pub open spec fn sig_nms_value(g: Grid, kernel: int, r: int, c: int) -> int {
    if sigmoid_spec(g.at(r, c)) == sig_win_max(
        g,
        (kernel - 1) / 2,
        r,
        c,
        kernel as nat,
        kernel as nat,
    ) {
        sigmoid_spec(g.at(r, c))
    } else {
        0
    }
}

/// A grid holding the activation of `g` has the row maxima of the
/// activated grid.
proof fn lemma_sig_row_max_eq(sg: Grid, g: Grid, p: int, r: int, c0: int, n: nat)
    requires
        sg.height == g.height,
        sg.width == g.width,
        forall|a: int, b: int|
            0 <= a < g.height && 0 <= b < g.width ==> sg.at(a, b) == sigmoid_spec(
                #[trigger] g.at(a, b),
            ),
    ensures
        row_max(sg, p, r, c0, n) == sig_row_max(g, p, r, c0, n),
    decreases n,
{
    if n > 1 {
        lemma_sig_row_max_eq(sg, g, p, r, c0, (n - 1) as nat);
    }
}

/// A grid holding the activation of `g` has the window maxima of the
/// activated grid.
proof fn lemma_sig_win_max_eq(sg: Grid, g: Grid, p: int, r0: int, c0: int, m: nat, k: nat)
    requires
        sg.height == g.height,
        sg.width == g.width,
        forall|a: int, b: int|
            0 <= a < g.height && 0 <= b < g.width ==> sg.at(a, b) == sigmoid_spec(
                #[trigger] g.at(a, b),
            ),
    ensures
        win_max(sg, p, r0, c0, m, k) == sig_win_max(g, p, r0, c0, m, k),
    decreases m,
{
    lemma_sig_row_max_eq(sg, g, p, r0 + m - 1, c0, k);
    if m > 1 {
        lemma_sig_win_max_eq(sg, g, p, r0, c0, (m - 1) as nat, k);
    } else {
        lemma_sig_row_max_eq(sg, g, p, r0, c0, k);
    }
}

/// All cells of the activated and peak-suppressed heatmap as
/// `(row, col, value)` triples in row-major order.
pub open spec fn suppressed_entries(g: Grid, kernel: int) -> Seq<(usize, usize, i64)> {
    Seq::new(
        (g.height * g.width) as nat,
        |i: int|
            (
                (i / (g.width as int)) as usize,
                (i % (g.width as int)) as usize,
                sig_nms_value(g, kernel, i / (g.width as int), i % (g.width as int)) as i64,
            ),
    )
}

/// Every suppressed entry names a valid cell and its value is a fixed-point
/// score in `[0, 1]`.
pub proof fn lemma_suppressed_entries_cells(g: Grid, kernel: int)
    requires
        g.wf(),
    ensures
        forall|i: int|
            0 <= i < suppressed_entries(g, kernel).len() ==> {
                let e = #[trigger] suppressed_entries(g, kernel)[i];
                &&& (e.0 as int) < g.height
                &&& (e.1 as int) < g.width
                &&& 0 <= e.2 <= SCALE
                &&& e.2 as int == sig_nms_value(g, kernel, e.0 as int, e.1 as int)
            },
{
    let w = g.width as int;
    let h = g.height as int;
    assert forall|i: int| 0 <= i < suppressed_entries(g, kernel).len() implies {
        let e = #[trigger] suppressed_entries(g, kernel)[i];
        &&& (e.0 as int) < g.height
        &&& (e.1 as int) < g.width
        &&& 0 <= e.2 <= SCALE
        &&& e.2 as int == sig_nms_value(g, kernel, e.0 as int, e.1 as int)
    } by {
        assert(w > 0) by {
            if w <= 0 {
                assert(h * w <= 0) by (nonlinear_arith)
                    requires
                        w <= 0,
                        h >= 0,
                ;
            }
        }
        lemma_multiply_divide_lt(i, w, h);
        lemma_mod_division_less_than_divisor(i, w);
        lemma_div_pos_is_pos(i, w);
        lemma_sigmoid_range(g.at(i / w, i % w));
    }
}

/// The box decoded from one heatmap peak `(row, col, score)`: the predicted
/// size is read from the regression map at the peak's cell (the width
/// channel serves both extents, matching the convention of the trained
/// models), and both the size and the peak position are scaled from heatmap
/// resolution to model-input resolution, truncating toward zero as a float
/// cast would.
pub open spec fn box_from_peak(p: (usize, usize, i64), wh: SizeMap, cfg: DetectConfig) -> BBox {
    let r = p.0 as int;
    let c = p.1 as int;
    let wq = wh.at(r, c, 0);
    let hq = wh.at(r, c, 0);
    let in_w = cfg.input_size.0 as int;
    let in_h = cfg.input_size.1 as int;
    let den_x = 2 * (SCALE as int) * (cfg.heatmap_size.0 as int);
    let den_y = 2 * (SCALE as int) * (cfg.heatmap_size.1 as int);
    BBox {
        x_min: div_trunc((2 * c * (SCALE as int) - wq) * in_w, den_x) as i64,
        y_min: div_trunc((2 * r * (SCALE as int) - hq) * in_h, den_y) as i64,
        x_max: div_trunc((2 * c * (SCALE as int) + wq) * in_w, den_x) as i64,
        y_max: div_trunc((2 * r * (SCALE as int) + hq) * in_h, den_y) as i64,
        score: p.2,
    }
}

/// The boxes decoded from one tile's outputs: activate the heatmap, keep
/// local maxima, take the `tile_max_num` best peaks, and turn each into a
/// box.
pub open spec fn decode_spec(hm: Grid, wh: SizeMap, cfg: DetectConfig) -> Seq<BBox> {
    top_k_spec(suppressed_entries(hm, 3), cfg.tile_max_num as int).map_values(
        |p: (usize, usize, i64)| box_from_peak(p, wh, cfg),
    )
}

/// A decoded box is well-formed with coordinates at model-input scale.
pub open spec fn decoded_wf(b: BBox) -> bool {
    &&& b.wf()
    &&& -DECODE_LIMIT <= b.x_min
    &&& b.x_max <= DECODE_LIMIT
    &&& -DECODE_LIMIT <= b.y_min
    &&& b.y_max <= DECODE_LIMIT
}

/// One truncated scaling `div_trunc((2*coord*SCALE +/- size) * in_dim,
/// 2*SCALE*heat_dim)` stays within `DECODE_LIMIT` and is monotone in the
/// size term.
proof fn lemma_scaled_coord_bounds(coordinate: int, size: int, in_dim: int, heat_dim: int)
    requires
        0 <= coordinate < heat_dim,
        0 <= size <= SIZE_REG_LIMIT,
        1 <= in_dim <= 8192,
        1 <= heat_dim <= 8192,
    ensures
        -DECODE_LIMIT <= div_trunc(
            (2 * coordinate * (SCALE as int) - size) * in_dim,
            2 * (SCALE as int) * heat_dim,
        ) <= div_trunc(
            (2 * coordinate * (SCALE as int) + size) * in_dim,
            2 * (SCALE as int) * heat_dim,
        ) <= DECODE_LIMIT,
        -0x4000_0000_0000_0000 <= (2 * coordinate * (SCALE as int) - size) * in_dim <= (2
            * coordinate * (SCALE as int) + size) * in_dim <= 0x4000_0000_0000_0000,
{
    assert((2 * coordinate * 65536 - size) * in_dim >= -0x4000_0000_0000_0000 && (2 * coordinate
        * 65536 + size) * in_dim <= 0x4000_0000_0000_0000) by (nonlinear_arith)
        requires
            0 <= coordinate < heat_dim,
            0 <= size <= 16777216,
            1 <= in_dim <= 8192,
            1 <= heat_dim <= 8192,
    ;
    let den = 2 * (SCALE as int) * heat_dim;
    let num_lo = (2 * coordinate * (SCALE as int) - size) * in_dim;
    let num_hi = (2 * coordinate * (SCALE as int) + size) * in_dim;
    assert(den == 131072 * heat_dim);
    assert(num_lo <= num_hi) by (nonlinear_arith)
        requires
            size >= 0,
            in_dim >= 1,
            num_lo == (2 * coordinate * 65536 - size) * in_dim,
            num_hi == (2 * coordinate * 65536 + size) * in_dim,
    ;
    lemma_div_trunc_ordered(num_lo, num_hi, den);
    assert(num_hi <= den * (in_dim + 1048576) && -num_lo <= den * 1048576 && den >= 131072)
        by (nonlinear_arith)
        requires
            0 <= coordinate < heat_dim,
            0 <= size <= 16777216,
            1 <= in_dim <= 8192,
            1 <= heat_dim <= 8192,
            den == 131072 * heat_dim,
            num_lo == (2 * coordinate * 65536 - size) * in_dim,
            num_hi == (2 * coordinate * 65536 + size) * in_dim,
    ;
    if num_hi >= 0 {
        lemma_multiply_divide_le(num_hi, den, in_dim + 1048576);
    } else {
        lemma_div_trunc_bounds(num_hi, den);
    }
    if num_lo < 0 {
        lemma_multiply_divide_le(-num_lo, den, 1048576);
    } else {
        lemma_div_trunc_bounds(num_lo, den);
    }
}

/// Decodes one tile's raw outputs into bounding boxes at model-input
/// resolution: logistic activation of the heatmap, suppression of non-peak
/// cells, extraction of the `tile_max_num` highest peaks, and box-size
/// lookup in the regression map at each peak.  Returns exactly
/// `min(tile_max_num, heatmap cells)` boxes, in descending score order.
pub fn decode_heatmap(hm: &Grid, wh: &SizeMap, config: &DetectConfig) -> (boxes: Vec<BBox>)
    requires
        hm.wf(),
        wh.wf(),
        config.wf(),
        hm.width == config.heatmap_size.0,
        hm.height == config.heatmap_size.1,
        wh.width == config.heatmap_size.0,
        wh.height == config.heatmap_size.1,
        forall|r: int, c: int|
            0 <= r < wh.height && 0 <= c < wh.width ==> 0 <= #[trigger] wh.at(r, c, 0)
                <= SIZE_REG_LIMIT,
    ensures
        boxes@ == decode_spec(*hm, *wh, *config),
        boxes@.len() == if config.tile_max_num as int <= hm.height * hm.width {
            config.tile_max_num as int
        } else {
            hm.height * hm.width
        },
        forall|i: int| 0 <= i < boxes@.len() ==> decoded_wf(#[trigger] boxes@[i]),
        forall|i: int, j: int|
            0 <= i < j < boxes@.len() ==> (#[trigger] boxes@[i]).score >= (
            #[trigger] boxes@[j]).score,
{
    let ghost se = suppressed_entries(*hm, 3);
    let sg = sigmoid_grid(hm);
    proof {
        assert((sg.height + 2) * (sg.width + 2) <= 8194 * 8194) by (nonlinear_arith)
            requires
                0 <= sg.height <= 8192,
                0 <= sg.width <= 8192,
        ;
    }
    let ng = heatmap_nms(&sg, 3);
    proof {
        assert forall|a: int, b: int|
            0 <= a < ng.height && 0 <= b < ng.width implies ng.at(a, b) == sig_nms_value(
            *hm,
            3,
            a,
            b,
        ) by {
            lemma_sig_win_max_eq(sg, *hm, 1, a, b, 3, 3);
        }
        lemma_grid_entries_cells(ng);
        lemma_suppressed_entries_cells(*hm, 3);
        assert(grid_entries(ng) =~= se) by {
            assert forall|i: int| 0 <= i < grid_entries(ng).len() implies grid_entries(ng)[i]
                == se[i] by {
                let w = ng.width as int;
                let h = ng.height as int;
                assert(w > 0) by {
                    if w <= 0 {
                        assert(h * w <= 0) by (nonlinear_arith)
                            requires
                                w <= 0,
                                h >= 0,
                        ;
                    }
                }
                lemma_multiply_divide_lt(i, w, h);
                lemma_mod_division_less_than_divisor(i, w);
                lemma_div_pos_is_pos(i, w);
                lemma_fundamental_div_mod(i, w);
                lemma_mul_is_commutative(w, i / w);
                assert(ng.data@[i] as int == ng.at(i / w, i % w));
            }
        }
    }
    let peaks = top_k(&ng, config.tile_max_num as usize);
    proof {
        lemma_top_k_membership(se, config.tile_max_num as int);
    }
    let mut boxes: Vec<BBox> = Vec::new();
    let mut i: usize = 0;
    while i < peaks.len()
        invariant
            hm.wf(),
            wh.wf(),
            config.wf(),
            hm.width == config.heatmap_size.0,
            hm.height == config.heatmap_size.1,
            wh.width == config.heatmap_size.0,
            wh.height == config.heatmap_size.1,
            forall|r: int, c: int|
                0 <= r < wh.height && 0 <= c < wh.width ==> 0 <= #[trigger] wh.at(r, c, 0)
                    <= SIZE_REG_LIMIT,
            peaks@ == top_k_spec(se, config.tile_max_num as int),
            se == suppressed_entries(*hm, 3),
            forall|j: int| 0 <= j < peaks@.len() ==> se.contains(#[trigger] peaks@[j]),
            i <= peaks@.len(),
            boxes@ == peaks@.take(i as int).map_values(
                |p: (usize, usize, i64)| box_from_peak(p, *wh, *config),
            ),
            forall|j: int| 0 <= j < boxes@.len() ==> decoded_wf(#[trigger] boxes@[j]),
        decreases peaks@.len() - i,
    {
        let p = peaks[i];
        proof {
            assert(se.contains(p));
            let m = choose|m: int| 0 <= m < se.len() && se[m] == p;
            lemma_suppressed_entries_cells(*hm, 3);
            assert(se[m] == p);
            lemma_scaled_coord_bounds(
                p.1 as int,
                wh.at(p.0 as int, p.1 as int, 0),
                config.input_size.0 as int,
                config.heatmap_size.0 as int,
            );
            lemma_scaled_coord_bounds(
                p.0 as int,
                wh.at(p.0 as int, p.1 as int, 0),
                config.input_size.1 as int,
                config.heatmap_size.1 as int,
            );
        }
        let wq = wh.get(p.0, p.1, 0);
        let hq = wh.get(p.0, p.1, 0);
        let in_w = config.input_size.0 as i64;
        let in_h = config.input_size.1 as i64;
        let den_x: i64 = 2 * SCALE * (config.heatmap_size.0 as i64);
        let den_y: i64 = 2 * SCALE * (config.heatmap_size.1 as i64);
        let cx: i64 = 2 * (p.1 as i64) * SCALE;
        let cy: i64 = 2 * (p.0 as i64) * SCALE;
        let b = BBox {
            x_min: div_trunc_i64((cx - wq) * in_w, den_x),
            y_min: div_trunc_i64((cy - hq) * in_h, den_y),
            x_max: div_trunc_i64((cx + wq) * in_w, den_x),
            y_max: div_trunc_i64((cy + hq) * in_h, den_y),
            score: p.2,
        };
        proof {
            assert(b == box_from_peak(p, *wh, *config));
        }
        boxes.push(b);
        proof {
            assert(boxes@ =~= peaks@.take(i + 1).map_values(
                |p: (usize, usize, i64)| box_from_peak(p, *wh, *config),
            ));
        }
        i = i + 1;
    }
    proof {
        assert(peaks@.take(peaks@.len() as int) =~= peaks@);
        assert(boxes@ =~= decode_spec(*hm, *wh, *config));
        lemma_top_k_len(se, config.tile_max_num as int);
        lemma_top_k_sorted(se, config.tile_max_num as int);
        assert forall|a: int, j: int|
            0 <= a < j < boxes@.len() implies (#[trigger] boxes@[a]).score >= (
        #[trigger] boxes@[j]).score by {
            assert(boxes@[a] == box_from_peak(peaks@[a], *wh, *config));
            assert(boxes@[j] == box_from_peak(peaks@[j], *wh, *config));
        }
    }
    boxes
}

/// The box reprojected from model-input coordinates to original-image
/// coordinates: each coordinate is scaled by the tile's rational scale
/// factor (truncating toward zero) and shifted by the tile's offset.
pub open spec fn reproject_box(b: BBox, md: TileMetadata) -> BBox {
    BBox {
        x_min: (div_trunc(b.x_min * md.width_scale_num, md.width_scale_den as int)
            + md.start_x) as i64,
        y_min: (div_trunc(b.y_min * md.height_scale_num, md.height_scale_den as int)
            + md.start_y) as i64,
        x_max: (div_trunc(b.x_max * md.width_scale_num, md.width_scale_den as int)
            + md.start_x) as i64,
        y_max: (div_trunc(b.y_max * md.height_scale_num, md.height_scale_den as int)
            + md.start_y) as i64,
        score: b.score,
    }
}

/// One reprojected coordinate stays within box-arithmetic bounds, and the
/// reprojection is monotone.
proof fn lemma_reproject_bounds(lo: int, hi: int, num: int, den: int, start: int)
    requires
        -DECODE_LIMIT <= lo <= hi <= DECODE_LIMIT,
        1 <= num <= 0x2000_0000,
        1 <= den <= 0x2000_0000,
        0 <= start <= 32768,
    ensures
        -crate::bbox::COORD_LIMIT <= div_trunc(lo * num, den) + start <= div_trunc(hi * num, den)
            + start <= crate::bbox::COORD_LIMIT,
        -0x4000_0000_0000_0000 <= lo * num <= 0x4000_0000_0000_0000,
        -0x4000_0000_0000_0000 <= hi * num <= 0x4000_0000_0000_0000,
{
    lemma_mul_inequality(lo, hi, num);
    lemma_div_trunc_ordered(lo * num, hi * num, den);
    assert(-0x8000_0000_0000_0000int < lo * num && hi * num < 0x8000_0000_0000_0000int
        && lo * num >= -(2097152int * 0x2000_0000) && hi * num <= 2097152int * 0x2000_0000)
        by (nonlinear_arith)
        requires
            -2097152 <= lo <= hi <= 2097152,
            1 <= num <= 0x2000_0000,
    ;
    lemma_div_trunc_bounds(lo * num, den);
    lemma_div_trunc_bounds(hi * num, den);
}

/// Reprojects every box of one tile to original-image coordinates using the
/// tile's metadata; box order and scores are unchanged.
pub fn apply_metadata(boxes: Vec<BBox>, metadata: &TileMetadata) -> (r: Vec<BBox>)
    requires
        metadata.wf(),
        forall|i: int| 0 <= i < boxes@.len() ==> decoded_wf(#[trigger] boxes@[i]),
    ensures
        r@ == boxes@.map_values(|b: BBox| reproject_box(b, *metadata)),
        forall|i: int| 0 <= i < r@.len() ==> (#[trigger] r@[i]).wf(),
{
    let mut out: Vec<BBox> = Vec::new();
    let mut i: usize = 0;
    while i < boxes.len()
        invariant
            metadata.wf(),
            forall|j: int| 0 <= j < boxes@.len() ==> decoded_wf(#[trigger] boxes@[j]),
            i <= boxes@.len(),
            out@ == boxes@.take(i as int).map_values(|b: BBox| reproject_box(b, *metadata)),
            forall|j: int| 0 <= j < out@.len() ==> (#[trigger] out@[j]).wf(),
        decreases boxes@.len() - i,
    {
        let b = boxes[i];
        proof {
            lemma_reproject_bounds(
                b.x_min as int,
                b.x_max as int,
                metadata.width_scale_num as int,
                metadata.width_scale_den as int,
                metadata.start_x as int,
            );
            lemma_reproject_bounds(
                b.y_min as int,
                b.y_max as int,
                metadata.height_scale_num as int,
                metadata.height_scale_den as int,
                metadata.start_y as int,
            );
        }
        let wn = metadata.width_scale_num as i64;
        let wd = metadata.width_scale_den as i64;
        let hn = metadata.height_scale_num as i64;
        let hd = metadata.height_scale_den as i64;
        let nb = BBox {
            x_min: div_trunc_i64(b.x_min * wn, wd) + (metadata.start_x as i64),
            y_min: div_trunc_i64(b.y_min * hn, hd) + (metadata.start_y as i64),
            x_max: div_trunc_i64(b.x_max * wn, wd) + (metadata.start_x as i64),
            y_max: div_trunc_i64(b.y_max * hn, hd) + (metadata.start_y as i64),
            score: b.score,
        };
        proof {
            assert(nb == reproject_box(b, *metadata));
        }
        out.push(nb);
        proof {
            assert(out@ =~= boxes@.take(i + 1).map_values(
                |bb: BBox| reproject_box(bb, *metadata),
            ));
        }
        i = i + 1;
    }
    proof {
        assert(boxes@.take(boxes@.len() as int) =~= boxes@);
    }
    out
}

} // verus!

verus! {

/// Fixed-point size-regression value of the documented sanity threshold:
/// 100 heatmap cells.
pub const SIZE_WARN_LIMIT: i64 = 6553600;

/// Number of cells among the first `n` (row-major) whose width-channel
/// regression reaches the sanity threshold.
pub open spec fn oversized_count_spec(wh: SizeMap, n: int) -> int
    decreases n,
{
    if n <= 0 {
        0
    } else {
        oversized_count_spec(wh, n - 1) + if wh.at(
            (n - 1) / (wh.width as int),
            (n - 1) % (wh.width as int),
            0,
        ) >= SIZE_WARN_LIMIT {
            1int
        } else {
            0int
        }
    }
}

/// Counts the size-regression cells at or above the sanity threshold of
/// 100 heatmap cells.  Oversized predictions are only reported, never
/// dropped, so this count is what a caller logs as a warning.
pub fn oversized_size_count(wh: &SizeMap) -> (n: usize)
    requires
        wh.wf(),
    ensures
        n == oversized_count_spec(*wh, wh.height * wh.width),
{
    let w = wh.width;
    let h = wh.height;
    proof {
        lemma_mul_nonnegative(h as int, w as int);
    }
    let cells: usize = h * w;
    let mut n: usize = 0;
    let mut i: usize = 0;
    while i < cells
        invariant
            wh.wf(),
            w == wh.width,
            h == wh.height,
            cells == h * w,
            i <= cells,
            n <= i,
            n == oversized_count_spec(*wh, i as int),
        decreases cells - i,
    {
        proof {
            assert(w > 0) by {
                if w == 0 {
                    assert(h * w == 0) by (nonlinear_arith)
                        requires
                            w == 0,
                    ;
                }
            }
            assert(i < w * h) by (nonlinear_arith)
                requires
                    i < cells,
                    cells == h * w,
            ;
            lemma_multiply_divide_lt(i as int, w as int, h as int);
            lemma_mod_division_less_than_divisor(i as int, w as int);
            lemma_div_pos_is_pos(i as int, w as int);
        }
        let r = i / w;
        let c = i % w;
        if wh.get(r, c, 0) >= SIZE_WARN_LIMIT {
            n = n + 1;
        }
        i = i + 1;
    }
    n
}

} // verus!
