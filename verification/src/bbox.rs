//! Axis-aligned bounding boxes in original-image pixel coordinates, with a
//! fixed-point detection score, and their intersection-over-union measure.

use crate::fixed::SCALE;
use vstd::arithmetic::div_mod::{
    lemma_div_is_ordered, lemma_div_multiples_vanish, lemma_div_pos_is_pos,
};
use vstd::arithmetic::mul::{
    lemma_mul_is_commutative, lemma_mul_nonnegative, lemma_mul_upper_bound,
};
use vstd::math::{max, min};
use vstd::prelude::*;

verus! {

/// Coordinate magnitude bound under which all box arithmetic (areas,
/// intersection-over-union, score decay) stays within 128-bit integers.
pub const COORD_LIMIT: i64 = 2251799813685248;

/// An axis-aligned detection box: pixel bounds and a fixed-point score.
#[derive(Clone, Copy, Debug, PartialEq, Eq, Structural)]
pub struct BBox {
    pub x_min: i64,
    pub y_min: i64,
    pub x_max: i64,
    pub y_max: i64,
    pub score: i64,
}

impl BBox {
    /// Geometry is ordered and bounded; the score is a fixed-point value in
    /// `[0, 1]`.
    pub open spec fn wf(self) -> bool {
        &&& -COORD_LIMIT <= self.x_min <= self.x_max <= COORD_LIMIT
        &&& -COORD_LIMIT <= self.y_min <= self.y_max <= COORD_LIMIT
        &&& 0 <= self.score <= SCALE
    }
}

/// Fixed-point intersection-over-union of two boxes, with the inclusive
/// pixel-count convention (`+ 1` on each axis): zero when the boxes do not
/// overlap or the union is degenerate, else `overlap * SCALE / union`.
pub open spec fn iou_spec(a: BBox, b: BBox) -> int {
    let w = min(a.x_max as int, b.x_max as int) - max(a.x_min as int, b.x_min as int) + 1;
    let h = min(a.y_max as int, b.y_max as int) - max(a.y_min as int, b.y_min as int) + 1;
    if w <= 0 || h <= 0 {
        0
    } else {
        let o = w * h;
        let area_a = (a.x_max - a.x_min + 1) * (a.y_max - a.y_min + 1);
        let area_b = (b.x_max - b.x_min + 1) * (b.y_max - b.y_min + 1);
        let u = area_a + area_b - o;
        if u <= 0 {
            0
        } else {
            (o * (SCALE as int)) / u
        }
    }
}

/// For well-formed boxes the measure lies in `[0, SCALE]`; when the boxes
/// overlap, the overlap area is positive and bounded by each box's area and
/// the union is positive.
pub proof fn lemma_iou_range(a: BBox, b: BBox)
    requires
        a.wf(),
        b.wf(),
    ensures
        0 <= iou_spec(a, b) <= SCALE,
{
    let w = min(a.x_max as int, b.x_max as int) - max(a.x_min as int, b.x_min as int) + 1;
    let h = min(a.y_max as int, b.y_max as int) - max(a.y_min as int, b.y_min as int) + 1;
    if w > 0 && h > 0 {
        let o = w * h;
        let wa = a.x_max - a.x_min + 1;
        let ha = a.y_max - a.y_min + 1;
        let wb = b.x_max - b.x_min + 1;
        let hb = b.y_max - b.y_min + 1;
        let area_a = wa * ha;
        let area_b = wb * hb;
        let u = area_a + area_b - o;
        lemma_mul_nonnegative(w, h);
        lemma_mul_upper_bound(w, wa, h, ha);
        lemma_mul_upper_bound(w, wb, h, hb);
        if u > 0 {
            lemma_div_pos_is_pos(o * (SCALE as int), u);
            lemma_mul_is_commutative(o, SCALE as int);
            lemma_mul_is_commutative(u, SCALE as int);
            vstd::arithmetic::mul::lemma_mul_inequality(o, u, SCALE as int);
            lemma_div_is_ordered(o * (SCALE as int), u * (SCALE as int), u);
            lemma_div_multiples_vanish(SCALE as int, u);
        }
    }
}

/// Fixed-point intersection-over-union of two well-formed boxes.
pub fn iou(a: &BBox, b: &BBox) -> (r: i64)
    requires
        a.wf(),
        b.wf(),
    ensures
        r == iou_spec(*a, *b),
        0 <= r <= SCALE,
{
    proof {
        lemma_iou_range(*a, *b);
    }
    let x_lo: i64 = if a.x_min >= b.x_min { a.x_min } else { b.x_min };
    let x_hi: i64 = if a.x_max <= b.x_max { a.x_max } else { b.x_max };
    let y_lo: i64 = if a.y_min >= b.y_min { a.y_min } else { b.y_min };
    let y_hi: i64 = if a.y_max <= b.y_max { a.y_max } else { b.y_max };
    let w: i64 = x_hi - x_lo + 1;
    let h: i64 = y_hi - y_lo + 1;
    if w <= 0 || h <= 0 {
        return 0;
    }
    let wa: i64 = a.x_max - a.x_min + 1;
    let ha: i64 = a.y_max - a.y_min + 1;
    let wb: i64 = b.x_max - b.x_min + 1;
    let hb: i64 = b.y_max - b.y_min + 1;
    proof {
        lemma_mul_nonnegative(w as int, h as int);
        lemma_mul_upper_bound(w as int, wa as int, h as int, ha as int);
        lemma_mul_upper_bound(w as int, wb as int, h as int, hb as int);
        lemma_mul_upper_bound(wa as int, 4503599627370497, ha as int, 4503599627370497);
        lemma_mul_upper_bound(wb as int, 4503599627370497, hb as int, 4503599627370497);
    }
    let o: u128 = (w as u128) * (h as u128);
    let area_a: u128 = (wa as u128) * (ha as u128);
    let area_b: u128 = (wb as u128) * (hb as u128);
    let u: u128 = area_a + area_b - o;
    if u == 0 {
        return 0;
    }
    let r: u128 = (o * 65536) / u;
    proof {
        let oi = (w as int) * (h as int);
        let ui = (wa as int) * (ha as int) + (wb as int) * (hb as int) - oi;
        lemma_div_pos_is_pos(oi * 65536, ui);
        lemma_mul_is_commutative(oi, 65536);
        lemma_mul_is_commutative(ui, 65536);
        vstd::arithmetic::mul::lemma_mul_inequality(oi, ui, 65536);
        lemma_div_is_ordered(oi * 65536, ui * 65536, ui);
        lemma_div_multiples_vanish(65536, ui);
    }
    r as i64
}

} // verus!
