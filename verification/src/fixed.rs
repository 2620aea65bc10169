//! Fixed-point arithmetic for detection scores.
//!
//! Scores, normalized pixel values and decay factors are integers counting
//! units of `1/SCALE` (16 fractional bits).  The exponential below is the
//! basis of both the logistic (sigmoid) activation applied to raw heatmap
//! logits and the Gaussian score decay of soft non-maximum suppression; it
//! is an exact integer computation (a Horner-form Taylor polynomial on a
//! small argument followed by repeated squaring), so every caller's contract
//! can state its result precisely.

use vstd::arithmetic::div_mod::{
    lemma_div_is_ordered, lemma_div_is_ordered_by_denominator, lemma_div_pos_is_pos,
};
use vstd::arithmetic::mul::{lemma_mul_inequality, lemma_mul_nonnegative, lemma_mul_upper_bound};
use vstd::prelude::*;

verus! {

/// Number of fixed-point units in 1.0.
pub const SCALE: i64 = 65536;

/// Horner evaluation of the Taylor polynomial of `e^(-u/SCALE)`,
/// seen from level `n` (the full value is `taylor_horner(u, 0)`):
/// `h_8 = SCALE` and `h_n = SCALE - u*h_{n+1}/((n+1)*SCALE)`.
pub open spec fn taylor_horner(u: int, n: nat) -> int
    decreases 8 - n,
{
    if n >= 8 {
        SCALE as int
    } else {
        SCALE - (u * taylor_horner(u, n + 1)) / ((n + 1) * SCALE)
    }
}

/// `m` rounds of fixed-point squaring: each round maps `r` to `r*r/SCALE`.
pub open spec fn sq_chain(r: int, m: nat) -> int
    decreases m,
{
    if m == 0 {
        r
    } else {
        sq_chain((r * r) / (SCALE as int), (m - 1) as nat)
    }
}

/// Fixed-point `e^(-t/SCALE)` for `0 <= t <= 32*SCALE`: the Taylor
/// polynomial is evaluated on `t/64` (at most 1/2 in real terms) and the
/// result is squared six times.
pub open spec fn exp_neg_spec(t: int) -> int {
    sq_chain(taylor_horner(t / 64, 0), 6)
}

/// Fixed-point logistic function `1/(1 + e^(-x/SCALE))`, clamped to the
/// constant 0 or 1 outside `(-16, 16)` in real terms, where the true value
/// differs from the clamp by less than one fixed-point unit.
pub open spec fn sigmoid_spec(x: int) -> int {
    if x >= 16 * (SCALE as int) {
        SCALE as int
    } else if x <= -16 * (SCALE as int) {
        0
    } else if x >= 0 {
        ((SCALE as int) * (SCALE as int)) / (SCALE + exp_neg_spec(x))
    } else {
        SCALE - ((SCALE as int) * (SCALE as int)) / (SCALE + exp_neg_spec(-x))
    }
}

/// Every level of the Horner evaluation stays within `[SCALE/2, SCALE]`.
pub proof fn lemma_taylor_horner_bounds(u: int, n: nat)
    requires
        0 <= u <= 32768,
    ensures
        32768 <= taylor_horner(u, n) <= 65536,
    decreases 8 - n,
{
    if n < 8 {
        lemma_taylor_horner_bounds(u, n + 1);
        let h = taylor_horner(u, n + 1);
        let d = (n + 1) * SCALE;
        lemma_mul_nonnegative(u, h);
        lemma_mul_upper_bound(u, 32768, h, 65536);
        lemma_mul_inequality(1, n + 1 as int, 65536);
        lemma_div_pos_is_pos(u * h, d);
        lemma_div_is_ordered(u * h, 32768int * 65536, d);
        lemma_div_is_ordered_by_denominator(32768int * 65536, 65536, d);
        assert(32768int * 65536 / 65536 == 32768);
    }
}

/// Fixed-point squaring keeps values in `[0, SCALE]`.
pub proof fn lemma_sq_chain_bounds(r: int, m: nat)
    requires
        0 <= r <= 65536,
    ensures
        0 <= sq_chain(r, m) <= 65536,
    decreases m,
{
    if m > 0 {
        lemma_mul_nonnegative(r, r);
        lemma_mul_upper_bound(r, 65536, r, 65536);
        lemma_div_pos_is_pos(r * r, 65536);
        lemma_div_is_ordered(r * r, 65536int * 65536, 65536);
        assert(65536int * 65536 / 65536 == 65536);
        lemma_sq_chain_bounds((r * r) / 65536, (m - 1) as nat);
    }
}

/// The fixed-point exponential of a nonpositive real argument lies in `[0, 1]`.
pub proof fn lemma_exp_neg_range(t: int)
    requires
        0 <= t <= 32 * SCALE,
    ensures
        0 <= exp_neg_spec(t) <= SCALE,
{
    lemma_div_pos_is_pos(t, 64);
    lemma_div_is_ordered(t, 32int * 65536, 64);
    lemma_taylor_horner_bounds(t / 64, 0);
    lemma_sq_chain_bounds(taylor_horner(t / 64, 0), 6);
}

/// The fixed-point sigmoid lies in `[0, SCALE]` for every argument.
pub proof fn lemma_sigmoid_range(x: int)
    ensures
        0 <= sigmoid_spec(x) <= SCALE,
{
    if -16 * (SCALE as int) < x < 16 * (SCALE as int) {
        let t = if x >= 0 { x } else { -x };
        lemma_exp_neg_range(t);
        let e = exp_neg_spec(t);
        lemma_div_pos_is_pos(65536int * 65536, 65536 + e);
        lemma_div_is_ordered_by_denominator(65536int * 65536, 65536, 65536 + e);
        assert(65536int * 65536 / 65536 == 65536);
        lemma_div_is_ordered_by_denominator(65536int * 65536, 65536 + e, 2int * 65536);
        assert(65536int * 65536 / (2int * 65536) == 32768);
    }
}

/// Fixed-point `e^(-t/SCALE)`.
pub fn exp_neg_q(t: i64) -> (r: i64)
    requires
        0 <= t <= 32 * SCALE,
    ensures
        r == exp_neg_spec(t as int),
        0 <= r <= SCALE,
{
    proof {
        lemma_exp_neg_range(t as int);
    }
    let u: u64 = (t as u64) / 64;
    proof {
        lemma_div_pos_is_pos(t as int, 64);
        lemma_div_is_ordered(t as int, 32int * 65536, 64);
        lemma_taylor_horner_bounds(u as int, 0);
        lemma_taylor_horner_bounds(u as int, 1);
        lemma_taylor_horner_bounds(u as int, 2);
        lemma_taylor_horner_bounds(u as int, 3);
        lemma_taylor_horner_bounds(u as int, 4);
        lemma_taylor_horner_bounds(u as int, 5);
        lemma_taylor_horner_bounds(u as int, 6);
        lemma_taylor_horner_bounds(u as int, 7);
        lemma_taylor_horner_bounds(u as int, 8);
    }
    let mut h: u64 = 65536;
    assert(h == taylor_horner(u as int, 8));
    h = 65536 - (u * h) / (8 * 65536);
    assert(h == taylor_horner(u as int, 7)) by {
        lemma_step_in_range(u as int, 8);
    }
    h = 65536 - (u * h) / (7 * 65536);
    assert(h == taylor_horner(u as int, 6)) by {
        lemma_step_in_range(u as int, 7);
    }
    h = 65536 - (u * h) / (6 * 65536);
    assert(h == taylor_horner(u as int, 5)) by {
        lemma_step_in_range(u as int, 6);
    }
    h = 65536 - (u * h) / (5 * 65536);
    assert(h == taylor_horner(u as int, 4)) by {
        lemma_step_in_range(u as int, 5);
    }
    h = 65536 - (u * h) / (4 * 65536);
    assert(h == taylor_horner(u as int, 3)) by {
        lemma_step_in_range(u as int, 4);
    }
    h = 65536 - (u * h) / (3 * 65536);
    assert(h == taylor_horner(u as int, 2)) by {
        lemma_step_in_range(u as int, 3);
    }
    h = 65536 - (u * h) / (2 * 65536);
    assert(h == taylor_horner(u as int, 1)) by {
        lemma_step_in_range(u as int, 2);
    }
    h = 65536 - (u * h) / (1 * 65536);
    assert(h == taylor_horner(u as int, 0)) by {
        lemma_step_in_range(u as int, 1);
    }
    let mut r: u64 = h;
    let ghost t0 = taylor_horner(u as int, 0);
    proof {
        lemma_sq_chain_bounds(t0, 6);
        lemma_sq_chain_bounds(t0, 5);
        lemma_sq_chain_bounds(t0, 4);
        lemma_sq_chain_bounds(t0, 3);
        lemma_sq_chain_bounds(t0, 2);
        lemma_sq_chain_bounds(t0, 1);
    }
    r = sq_q(r);
    assert(r == sq_chain(t0, 1)) by {
        lemma_sq_chain_step(t0, 0);
    }
    r = sq_q(r);
    assert(r == sq_chain(t0, 2)) by {
        lemma_sq_chain_step(t0, 1);
    }
    r = sq_q(r);
    assert(r == sq_chain(t0, 3)) by {
        lemma_sq_chain_step(t0, 2);
    }
    r = sq_q(r);
    assert(r == sq_chain(t0, 4)) by {
        lemma_sq_chain_step(t0, 3);
    }
    r = sq_q(r);
    assert(r == sq_chain(t0, 5)) by {
        lemma_sq_chain_step(t0, 4);
    }
    r = sq_q(r);
    assert(r == sq_chain(t0, 6)) by {
        lemma_sq_chain_step(t0, 5);
    }
    r as i64
}

/// One round of fixed-point squaring.
fn sq_q(a: u64) -> (r: u64)
    requires
        a <= 65536,
    ensures
        r == (a as int * a as int) / 65536,
        r <= 65536,
{
    proof {
        lemma_mul_nonnegative(a as int, a as int);
        lemma_mul_upper_bound(a as int, 65536, a as int, 65536);
        lemma_div_pos_is_pos(a as int * a as int, 65536);
        lemma_div_is_ordered(a as int * a as int, 65536int * 65536, 65536);
        assert(65536int * 65536 / 65536 == 65536);
    }
    (a * a) / 65536
}

/// One Horner step, with the bounds needed to run it on 64-bit integers.
proof fn lemma_step_in_range(u: int, n: nat)
    requires
        0 <= u <= 32768,
        1 <= n <= 8,
    ensures
        taylor_horner(u, (n - 1) as nat) == SCALE - (u * taylor_horner(u, n)) / (n * SCALE),
        0 <= (u * taylor_horner(u, n)) / (n * SCALE) <= 32768,
        0 <= u * taylor_horner(u, n) <= 32768int * 65536,
{
    lemma_taylor_horner_bounds(u, n);
    let h = taylor_horner(u, n);
    lemma_mul_nonnegative(u, h);
    lemma_mul_upper_bound(u, 32768, h, 65536);
    lemma_mul_inequality(1, n as int, 65536);
    lemma_div_pos_is_pos(u * h, n * SCALE);
    lemma_div_is_ordered(u * h, 32768int * 65536, n * SCALE);
    lemma_div_is_ordered_by_denominator(32768int * 65536, 65536, n * SCALE);
    assert(32768int * 65536 / 65536 == 32768);
}

/// Squaring a value known to be the chain at level `m` yields level `m + 1`,
/// within 64-bit bounds.
proof fn lemma_sq_chain_step(r0: int, m: nat)
    requires
        0 <= r0 <= 65536,
    ensures
        sq_chain(r0, m + 1) == (sq_chain(r0, m) * sq_chain(r0, m)) / 65536,
        0 <= sq_chain(r0, m) * sq_chain(r0, m) <= 65536int * 65536,
    decreases m,
{
    lemma_sq_chain_bounds(r0, m);
    let r = sq_chain(r0, m);
    lemma_mul_nonnegative(r, r);
    lemma_mul_upper_bound(r, 65536, r, 65536);
    if m > 0 {
        lemma_mul_nonnegative(r0, r0);
        lemma_mul_upper_bound(r0, 65536, r0, 65536);
        lemma_div_pos_is_pos(r0 * r0, 65536);
        lemma_div_is_ordered(r0 * r0, 65536int * 65536, 65536);
        assert(65536int * 65536 / 65536 == 65536);
        lemma_sq_chain_step((r0 * r0) / 65536, (m - 1) as nat);
    } else {
        assert(sq_chain(r0, 1) == (r0 * r0) / (SCALE as int)) by {
            reveal_with_fuel(sq_chain, 2);
        }
    }
}

/// Fixed-point logistic activation of a raw logit.
pub fn sigmoid_q(x: i64) -> (r: i64)
    ensures
        r == sigmoid_spec(x as int),
        0 <= r <= SCALE,
{
    proof {
        lemma_sigmoid_range(x as int);
    }
    if x >= 16 * SCALE {
        SCALE
    } else if x <= -16 * SCALE {
        0
    } else if x >= 0 {
        let e = exp_neg_q(x);
        let q: u64 = (65536u64 * 65536u64) / (65536u64 + (e as u64));
        proof {
            lemma_div_is_ordered_by_denominator(65536int * 65536, 65536, 65536 + e as int);
            assert(65536int * 65536 / 65536 == 65536);
            lemma_div_pos_is_pos(65536int * 65536, 65536 + e as int);
        }
        q as i64
    } else {
        let e = exp_neg_q(-x);
        let q: u64 = (65536u64 * 65536u64) / (65536u64 + (e as u64));
        proof {
            lemma_div_is_ordered_by_denominator(65536int * 65536, 65536, 65536 + e as int);
            assert(65536int * 65536 / 65536 == 65536);
            lemma_div_pos_is_pos(65536int * 65536, 65536 + e as int);
        }
        SCALE - (q as i64)
    }
}

} // verus!

verus! {

/// Integer division truncating toward zero (for positive divisors), the
/// rounding used when detector outputs are scaled between resolutions.
pub open spec fn div_trunc(a: int, b: int) -> int {
    if a >= 0 {
        a / b
    } else {
        -((-a) / b)
    }
}

/// Truncating division is monotone in the dividend.
pub proof fn lemma_div_trunc_ordered(a1: int, a2: int, b: int)
    requires
        a1 <= a2,
        b > 0,
    ensures
        div_trunc(a1, b) <= div_trunc(a2, b),
{
    if a1 >= 0 {
        lemma_div_is_ordered(a1, a2, b);
    } else if a2 < 0 {
        lemma_div_is_ordered(-a2, -a1, b);
    } else {
        lemma_div_pos_is_pos(-a1, b);
        lemma_div_pos_is_pos(a2, b);
    }
}

/// Truncating division by a positive divisor never grows the magnitude and
/// keeps the dividend's sign.
pub proof fn lemma_div_trunc_bounds(a: int, b: int)
    requires
        b > 0,
    ensures
        a >= 0 ==> 0 <= div_trunc(a, b) <= a,
        a < 0 ==> a <= div_trunc(a, b) <= 0,
{
    if a >= 0 {
        lemma_div_pos_is_pos(a, b);
        vstd::arithmetic::div_mod::lemma_div_nonincreasing(a, b);
    } else {
        lemma_div_pos_is_pos(-a, b);
        vstd::arithmetic::div_mod::lemma_div_nonincreasing(-a, b);
    }
}

/// Division truncating toward zero, as the hardware float-to-int casts of
/// the usual decoders round.
pub fn div_trunc_i64(a: i64, b: i64) -> (r: i64)
    requires
        b > 0,
        -0x4000_0000_0000_0000 <= a <= 0x4000_0000_0000_0000,
    ensures
        r == div_trunc(a as int, b as int),
{
    proof {
        lemma_div_trunc_bounds(a as int, b as int);
    }
    if a >= 0 {
        ((a as u64) / (b as u64)) as i64
    } else {
        let m: i64 = -a;
        -(((m as u64) / (b as u64)) as i64)
    }
}

} // verus!
