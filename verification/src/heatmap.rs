//! Heatmap math: zero padding, max pooling, local-maximum peak suppression,
//! logistic activation, and top-K peak extraction.

use crate::fixed::{sigmoid_q, sigmoid_spec, SCALE};
use crate::grid::Grid;
use vstd::arithmetic::div_mod::{lemma_div_nonincreasing, lemma_fundamental_div_mod};
use vstd::arithmetic::mul::{lemma_mul_inequality, lemma_mul_nonnegative, lemma_mul_upper_bound};
use vstd::prelude::*;

verus! {

/// The grid extended by `p` cells of zeros on every side, addressed in
/// padded coordinates.
pub open spec fn padded_at(g: Grid, p: int, r: int, c: int) -> int {
    if p <= r < g.height + p && p <= c < g.width + p {
        g.at(r - p, c - p)
    } else {
        0
    }
}

/// Maximum of the `n` padded cells `(r, c0) .. (r, c0 + n - 1)`.
pub open spec fn row_max(g: Grid, p: int, r: int, c0: int, n: nat) -> int
    decreases n,
{
    if n <= 1 {
        padded_at(g, p, r, c0)
    } else {
        let m = row_max(g, p, r, c0, (n - 1) as nat);
        let v = padded_at(g, p, r, c0 + n - 1);
        if v > m {
            v
        } else {
            m
        }
    }
}

/// Maximum of the `m x k` window of padded cells with top-left `(r0, c0)`.
pub open spec fn win_max(g: Grid, p: int, r0: int, c0: int, m: nat, k: nat) -> int
    decreases m,
{
    if m <= 1 {
        row_max(g, p, r0, c0, k)
    } else {
        let a = win_max(g, p, r0, c0, (m - 1) as nat, k);
        let b = row_max(g, p, r0 + m - 1, c0, k);
        if b > a {
            b
        } else {
            a
        }
    }
}

/// The window maximum dominates every element of its window.
pub proof fn lemma_win_max_dominates(g: Grid, p: int, r0: int, c0: int, m: nat, k: nat, dr: int, dc: int)
    requires
        0 <= dr < m,
        0 <= dc < k,
    ensures
        win_max(g, p, r0, c0, m, k) >= padded_at(g, p, r0 + dr, c0 + dc),
    decreases m,
{
    if m <= 1 {
        lemma_row_max_dominates(g, p, r0, c0, k, dc);
    } else if dr == m - 1 {
        lemma_row_max_dominates(g, p, r0 + m - 1, c0, k, dc);
    } else {
        lemma_win_max_dominates(g, p, r0, c0, (m - 1) as nat, k, dr, dc);
    }
}

/// The row maximum dominates every element of its row segment.
pub proof fn lemma_row_max_dominates(g: Grid, p: int, r: int, c0: int, n: nat, dc: int)
    requires
        0 <= dc < n,
    ensures
        row_max(g, p, r, c0, n) >= padded_at(g, p, r, c0 + dc),
    decreases n,
{
    if n > 1 && dc < n - 1 {
        lemma_row_max_dominates(g, p, r, c0, (n - 1) as nat, dc);
    }
}

/// The grid extended by `padding` cells of zeros on every side.
pub fn pad(g: &Grid, padding: usize) -> (out: Grid)
    requires
        g.wf(),
        g.height + 2 * padding <= usize::MAX,
        g.width + 2 * padding <= usize::MAX,
        (g.height + 2 * padding) * (g.width + 2 * padding) <= usize::MAX,
    ensures
        out.wf(),
        out.height == g.height + 2 * padding,
        out.width == g.width + 2 * padding,
        forall|r: int, c: int|
            0 <= r < out.height && 0 <= c < out.width ==> out.at(r, c) == padded_at(
                *g,
                padding as int,
                r,
                c,
            ),
{
    proof {
        lemma_mul_nonnegative(g.height + 2 * padding, g.width + 2 * padding);
        if g.width + 2 * padding >= 1 {
            lemma_mul_inequality(1, g.width + 2 * padding, g.height + 2 * padding);
        }
    }
    let mut out = Grid::new(g.height + 2 * padding, g.width + 2 * padding);
    let mut r: usize = 0;
    while r < g.height
        invariant
            out.wf(),
            out.height == g.height + 2 * padding,
            out.width == g.width + 2 * padding,
            g.wf(),
            r <= g.height,
            forall|i: int, j: int|
                0 <= i < out.height && 0 <= j < out.width ==> out.at(i, j) == (
                if padding <= i < r + padding && padding <= j < g.width + padding {
                    g.at(i - padding, j - padding)
                } else {
                    0
                }),
        decreases g.height - r,
    {
        let mut c: usize = 0;
        while c < g.width
            invariant
                out.wf(),
                out.height == g.height + 2 * padding,
                out.width == g.width + 2 * padding,
                g.wf(),
                r < g.height,
                c <= g.width,
                forall|i: int, j: int|
                    0 <= i < out.height && 0 <= j < out.width ==> out.at(i, j) == (
                    if padding <= i < r + padding && padding <= j < g.width + padding {
                        g.at(i - padding, j - padding)
                    } else if i == r + padding && padding <= j < c + padding {
                        g.at(i - padding, j - padding)
                    } else {
                        0
                    }),
            decreases g.width - c,
        {
            let v = g.get(r, c);
            out.set(r + padding, c + padding, v);
            c = c + 1;
        }
        r = r + 1;
    }
    proof {
        assert forall|i: int, j: int|
            0 <= i < out.height && 0 <= j < out.width implies out.at(i, j) == padded_at(
            *g,
            padding as int,
            i,
            j,
        ) by {}
    }
    out
}

/// Maximum over one row segment of the padded grid, read from the padded
/// grid `pg` whose contents are `padded_at(g, p, _, _)`.
fn row_scan(pg: &Grid, r: usize, c0: usize, n: usize, Ghost(g): Ghost<Grid>, Ghost(p): Ghost<int>) -> (m: i64)
    requires
        pg.wf(),
        r < pg.height,
        c0 + n <= pg.width,
        n >= 1,
        forall|i: int, j: int|
            0 <= i < pg.height && 0 <= j < pg.width ==> pg.at(i, j) == padded_at(g, p, i, j),
    ensures
        m == row_max(g, p, r as int, c0 as int, n as nat),
{
    let mut m = pg.get(r, c0);
    let mut l: usize = 1;
    while l < n
        invariant
            pg.wf(),
            r < pg.height,
            c0 + n <= pg.width,
            1 <= l <= n,
            forall|i: int, j: int|
                0 <= i < pg.height && 0 <= j < pg.width ==> pg.at(i, j) == padded_at(g, p, i, j),
            m == row_max(g, p, r as int, c0 as int, l as nat),
        decreases n - l,
    {
        let v = pg.get(r, c0 + l);
        if v > m {
            m = v;
        }
        l = l + 1;
    }
    m
}

/// Maximum over one `kernel x kernel` window of the padded grid.
fn window_scan(
    pg: &Grid,
    r0: usize,
    c0: usize,
    kernel: usize,
    Ghost(g): Ghost<Grid>,
    Ghost(p): Ghost<int>,
) -> (m: i64)
    requires
        pg.wf(),
        r0 + kernel <= pg.height,
        c0 + kernel <= pg.width,
        kernel >= 1,
        forall|i: int, j: int|
            0 <= i < pg.height && 0 <= j < pg.width ==> pg.at(i, j) == padded_at(g, p, i, j),
    ensures
        m == win_max(g, p, r0 as int, c0 as int, kernel as nat, kernel as nat),
{
    let mut m = row_scan(pg, r0, c0, kernel, Ghost(g), Ghost(p));
    let mut k: usize = 1;
    while k < kernel
        invariant
            pg.wf(),
            r0 + kernel <= pg.height,
            c0 + kernel <= pg.width,
            kernel >= 1,
            1 <= k <= kernel,
            forall|i: int, j: int|
                0 <= i < pg.height && 0 <= j < pg.width ==> pg.at(i, j) == padded_at(g, p, i, j),
            m == win_max(g, p, r0 as int, c0 as int, k as nat, kernel as nat),
        decreases kernel - k,
    {
        let v = row_scan(pg, r0 + k, c0, kernel, Ghost(g), Ghost(p));
        if v > m {
            m = v;
        }
        k = k + 1;
    }
    m
}

/// Zero-pads the grid by `padding` on each side, then writes to every output
/// cell the maximum of the `kernel x kernel` window found there at the given
/// `stride`.  Output dimensions follow the usual pooling formula with
/// integer (floor) division.
pub fn max_pooling(g: &Grid, kernel: usize, stride: usize, padding: usize) -> (out: Grid)
    requires
        g.wf(),
        kernel >= 1,
        stride >= 1,
        g.height + 2 * padding >= kernel,
        g.width + 2 * padding >= kernel,
        (g.height + 2 * padding) * (g.width + 2 * padding) <= usize::MAX,
    ensures
        out.wf(),
        out.height == (g.height + 2 * padding - kernel) / (stride as int) + 1,
        out.width == (g.width + 2 * padding - kernel) / (stride as int) + 1,
        forall|i: int, j: int|
            0 <= i < out.height && 0 <= j < out.width ==> out.at(i, j) == win_max(
                *g,
                padding as int,
                i * stride,
                j * stride,
                kernel as nat,
                kernel as nat,
            ),
{
    proof {
        lemma_mul_inequality(1, g.width + 2 * padding, g.height + 2 * padding);
        lemma_mul_inequality(1, g.height + 2 * padding, g.width + 2 * padding);
        vstd::arithmetic::mul::lemma_mul_is_commutative(
            g.height + 2 * padding,
            g.width + 2 * padding,
        );
    }
    let pg = pad(g, padding);
    let ph = pg.height;
    let pw = pg.width;
    let oh: usize = (ph - kernel) / stride + 1;
    let ow: usize = (pw - kernel) / stride + 1;
    proof {
        lemma_div_nonincreasing(ph - kernel, stride as int);
        lemma_div_nonincreasing(pw - kernel, stride as int);
        lemma_mul_nonnegative(oh as int, ow as int);
        lemma_mul_upper_bound(oh as int, ph as int, ow as int, pw as int);
        lemma_pool_window_fits(ph as int, kernel as int, stride as int);
        lemma_pool_window_fits(pw as int, kernel as int, stride as int);
    }
    let mut out = Grid::new(oh, ow);
    let ghost gg = *g;
    let ghost pp = padding as int;
    let mut i: usize = 0;
    while i < oh
        invariant
            pg.wf(),
            out.wf(),
            g.wf(),
            out.height == oh,
            out.width == ow,
            pg.height == ph,
            pg.width == pw,
            kernel >= 1,
            stride >= 1,
            i <= oh,
            (oh - 1) * stride + kernel <= ph,
            (ow - 1) * stride + kernel <= pw,
            forall|a: int, b: int|
                0 <= a < ph && 0 <= b < pw ==> pg.at(a, b) == padded_at(gg, pp, a, b),
            forall|a: int, b: int|
                0 <= a < i && 0 <= b < ow ==> out.at(a, b) == win_max(
                    gg,
                    pp,
                    a * stride,
                    b * stride,
                    kernel as nat,
                    kernel as nat,
                ),
        decreases oh - i,
    {
        let mut j: usize = 0;
        proof {
            lemma_mul_inequality(i as int, oh - 1, stride as int);
        }
        while j < ow
            invariant
                pg.wf(),
                out.wf(),
                g.wf(),
                out.height == oh,
                out.width == ow,
                pg.height == ph,
                pg.width == pw,
                kernel >= 1,
                stride >= 1,
                i < oh,
                j <= ow,
                i * stride + kernel <= ph,
                (ow - 1) * stride + kernel <= pw,
                forall|a: int, b: int|
                    0 <= a < ph && 0 <= b < pw ==> pg.at(a, b) == padded_at(gg, pp, a, b),
                forall|a: int, b: int|
                    0 <= a < i && 0 <= b < ow ==> out.at(a, b) == win_max(
                        gg,
                        pp,
                        a * stride,
                        b * stride,
                        kernel as nat,
                        kernel as nat,
                    ),
                forall|b: int|
                    0 <= b < j ==> out.at(i as int, b) == win_max(
                        gg,
                        pp,
                        i as int * stride,
                        b * stride,
                        kernel as nat,
                        kernel as nat,
                    ),
            decreases ow - j,
        {
            proof {
                lemma_mul_inequality(j as int, ow - 1, stride as int);
            }
            let m = window_scan(&pg, i * stride, j * stride, kernel, Ghost(gg), Ghost(pp));
            out.set(i, j, m);
            j = j + 1;
        }
        i = i + 1;
    }
    out
}

/// The last pooling window at this dimension still fits inside the padded
/// extent: `((d - k)/s)*s + k <= d`.
proof fn lemma_pool_window_fits(d: int, k: int, s: int)
    requires
        d >= k,
        k >= 1,
        s >= 1,
    ensures
        ((d - k) / s) * s + k <= d,
        (d - k) / s >= 0,
{
    lemma_fundamental_div_mod(d - k, s);
    vstd::arithmetic::div_mod::lemma_remainder_lower(d - k, s);
    vstd::arithmetic::div_mod::lemma_div_pos_is_pos(d - k, s);
}

} // verus!

verus! {

/// The value kept at `(r, c)` by peak suppression with the given kernel:
/// the cell's own value where it equals the padded window maximum centered
/// there, and zero everywhere else.
pub open spec fn nms_value(g: Grid, kernel: int, r: int, c: int) -> int {
    if g.at(r, c) == win_max(g, (kernel - 1) / 2, r, c, kernel as nat, kernel as nat) {
        g.at(r, c)
    } else {
        0
    }
}

/// Suppresses every cell that is not a local maximum of its `kernel x kernel`
/// neighborhood (with zero padding of `(kernel - 1) / 2` on each side, so the
/// output has the input's dimensions); kernel must be odd.  Cells that tie
/// with their neighborhood maximum are kept.
pub fn heatmap_nms(hm: &Grid, kernel: usize) -> (out: Grid)
    requires
        hm.wf(),
        kernel >= 1,
        kernel % 2 == 1,
        hm.height >= 1,
        hm.width >= 1,
        (hm.height + kernel - 1) * (hm.width + kernel - 1) <= usize::MAX,
    ensures
        out.wf(),
        out.height == hm.height,
        out.width == hm.width,
        forall|r: int, c: int|
            0 <= r < out.height && 0 <= c < out.width ==> out.at(r, c) == nms_value(
                *hm,
                kernel as int,
                r,
                c,
            ),
{
    let padding: usize = (kernel - 1) / 2;
    proof {
        lemma_fundamental_div_mod(kernel as int, 2);
        lemma_fundamental_div_mod(kernel - 1, 2);
        vstd::arithmetic::div_mod::lemma_mod_division_less_than_divisor(kernel - 1, 2);
        assert(2 * (padding as int) == kernel - 1);
    }
    let pooled = max_pooling(hm, kernel, 1, padding);
    proof {
        assert(pooled.height == hm.height && pooled.width == hm.width) by {
            vstd::arithmetic::div_mod::lemma_div_multiples_vanish(hm.height - 1, 1);
            vstd::arithmetic::div_mod::lemma_div_multiples_vanish(hm.width - 1, 1);
        }
    }
    let h = hm.height;
    let w = hm.width;
    let mut out = Grid::new(h, w);
    let mut r: usize = 0;
    while r < h
        invariant
            hm.wf(),
            pooled.wf(),
            out.wf(),
            out.height == h,
            out.width == w,
            pooled.height == h,
            pooled.width == w,
            hm.height == h,
            hm.width == w,
            kernel >= 1,
            r <= h,
            forall|a: int, b: int|
                0 <= a < h && 0 <= b < w ==> pooled.at(a, b) == win_max(
                    *hm,
                    padding as int,
                    a,
                    b,
                    kernel as nat,
                    kernel as nat,
                ),
            forall|a: int, b: int|
                0 <= a < r && 0 <= b < w ==> out.at(a, b) == nms_value(*hm, kernel as int, a, b),
            2 * (padding as int) == kernel - 1,
        decreases h - r,
    {
        let mut c: usize = 0;
        while c < w
            invariant
                hm.wf(),
                pooled.wf(),
                out.wf(),
                out.height == h,
                out.width == w,
                pooled.height == h,
                pooled.width == w,
                hm.height == h,
                hm.width == w,
                kernel >= 1,
                r < h,
                c <= w,
                forall|a: int, b: int|
                    0 <= a < h && 0 <= b < w ==> pooled.at(a, b) == win_max(
                        *hm,
                        padding as int,
                        a,
                        b,
                        kernel as nat,
                        kernel as nat,
                    ),
                forall|a: int, b: int|
                    0 <= a < r && 0 <= b < w ==> out.at(a, b) == nms_value(*hm, kernel as int, a, b),
                forall|b: int|
                    0 <= b < c ==> out.at(r as int, b) == nms_value(*hm, kernel as int, r as int, b),
                2 * (padding as int) == kernel - 1,
            decreases w - c,
        {
            let v = hm.get(r, c);
            let pv = pooled.get(r, c);
            if v == pv {
                out.set(r, c, v);
            } else {
                out.set(r, c, 0);
            }
            c = c + 1;
        }
        r = r + 1;
    }
    out
}

/// Law: on a grid of nonnegative values, peak suppression never increases
/// any cell, and every nonzero output value equals the padded window maximum
/// centered at its cell.
pub proof fn lemma_nms_sound(g: Grid, kernel: int, r: int, c: int)
    requires
        g.wf(),
        0 <= r < g.height,
        0 <= c < g.width,
        kernel >= 1,
        forall|a: int, b: int| 0 <= a < g.height && 0 <= b < g.width ==> g.at(a, b) >= 0,
    ensures
        nms_value(g, kernel, r, c) <= g.at(r, c),
        nms_value(g, kernel, r, c) != 0 ==> nms_value(g, kernel, r, c) == win_max(
            g,
            (kernel - 1) / 2,
            r,
            c,
            kernel as nat,
            kernel as nat,
        ),
{
}

/// Applies the fixed-point logistic function to every cell.
pub fn sigmoid_grid(hm: &Grid) -> (out: Grid)
    requires
        hm.wf(),
    ensures
        out.wf(),
        out.height == hm.height,
        out.width == hm.width,
        forall|r: int, c: int|
            0 <= r < out.height && 0 <= c < out.width ==> out.at(r, c) == sigmoid_spec(
                hm.at(r, c),
            ),
        forall|r: int, c: int|
            0 <= r < out.height && 0 <= c < out.width ==> 0 <= #[trigger] out.at(r, c) <= SCALE,
{
    let h = hm.height;
    let w = hm.width;
    let mut out = Grid::new(h, w);
    let mut r: usize = 0;
    while r < h
        invariant
            hm.wf(),
            out.wf(),
            out.height == h,
            out.width == w,
            hm.height == h,
            hm.width == w,
            r <= h,
            forall|a: int, b: int|
                0 <= a < r && 0 <= b < w ==> out.at(a, b) == sigmoid_spec(hm.at(a, b)) && 0 <= out.at(
                    a,
                    b,
                ) <= SCALE,
        decreases h - r,
    {
        let mut c: usize = 0;
        while c < w
            invariant
                hm.wf(),
                out.wf(),
                out.height == h,
                out.width == w,
                hm.height == h,
                hm.width == w,
                r < h,
                c <= w,
                forall|a: int, b: int|
                    0 <= a < r && 0 <= b < w ==> out.at(a, b) == sigmoid_spec(hm.at(a, b)) && 0
                        <= out.at(a, b) <= SCALE,
                forall|b: int|
                    0 <= b < c ==> out.at(r as int, b) == sigmoid_spec(hm.at(r as int, b)) && 0
                        <= out.at(r as int, b) <= SCALE,
            decreases w - c,
        {
            let v = sigmoid_q(hm.get(r, c));
            out.set(r, c, v);
            c = c + 1;
        }
        r = r + 1;
    }
    out
}

} // verus!

verus! {

/// All cells of the grid as `(row, col, value)` triples in row-major order.
pub open spec fn grid_entries(g: Grid) -> Seq<(usize, usize, i64)> {
    Seq::new(
        (g.height * g.width) as nat,
        |i: int|
            (
                (i / (g.width as int)) as usize,
                (i % (g.width as int)) as usize,
                g.data@[i],
            ),
    )
}

/// Every entry triple names a valid cell and carries that cell's value.
pub proof fn lemma_grid_entries_cells(g: Grid)
    requires
        g.wf(),
    ensures
        forall|i: int|
            0 <= i < grid_entries(g).len() ==> {
                let e = #[trigger] grid_entries(g)[i];
                &&& (e.0 as int) < g.height
                &&& (e.1 as int) < g.width
                &&& e.2 as int == g.at(e.0 as int, e.1 as int)
            },
{
    let w = g.width as int;
    let h = g.height as int;
    assert forall|i: int| 0 <= i < grid_entries(g).len() implies {
        let e = #[trigger] grid_entries(g)[i];
        &&& (e.0 as int) < g.height
        &&& (e.1 as int) < g.width
        &&& e.2 as int == g.at(e.0 as int, e.1 as int)
    } by {
        assert(w > 0) by {
            if w <= 0 {
                assert(h * w <= 0) by (nonlinear_arith)
                    requires
                        w <= 0,
                        h >= 0,
                ;
            }
        }
        vstd::arithmetic::div_mod::lemma_multiply_divide_lt(i, w, h);
        vstd::arithmetic::div_mod::lemma_mod_division_less_than_divisor(i, w);
        vstd::arithmetic::div_mod::lemma_div_pos_is_pos(i, w);
        lemma_fundamental_div_mod(i, w);
        vstd::arithmetic::mul::lemma_mul_is_commutative(w, i / w);
        let e = grid_entries(g)[i];
        assert(e.0 as int == i / w && e.1 as int == i % w && e.2 == g.data@[i]);
        assert((i / w) * w + i % w == i);
        assert(g.at(e.0 as int, e.1 as int) == g.data@[(i / w) * w + i % w] as int);
    }
}

/// The index of the first entry holding the maximal value.
pub open spec fn argmax_entry(s: Seq<(usize, usize, i64)>) -> int
    decreases s.len(),
{
    if s.len() <= 1 {
        0
    } else {
        let rest = 1 + argmax_entry(s.drop_first());
        if s[0].2 >= s[rest].2 {
            0
        } else {
            rest
        }
    }
}

/// `argmax_entry` points at a maximal value and at the first index holding it.
pub proof fn lemma_argmax_entry(s: Seq<(usize, usize, i64)>)
    requires
        s.len() >= 1,
    ensures
        0 <= argmax_entry(s) < s.len(),
        forall|i: int| 0 <= i < s.len() ==> (#[trigger] s[i]).2 <= s[argmax_entry(s)].2,
        forall|i: int| 0 <= i < argmax_entry(s) ==> (#[trigger] s[i]).2 < s[argmax_entry(s)].2,
    decreases s.len(),
{
    if s.len() > 1 {
        let t = s.drop_first();
        lemma_argmax_entry(t);
        let a = argmax_entry(s);
        assert forall|i: int| 0 <= i < s.len() implies (#[trigger] s[i]).2 <= s[a].2 by {
            if i >= 1 {
                assert(t[i - 1] == s[i]);
            }
        }
        assert forall|i: int| 0 <= i < a implies (#[trigger] s[i]).2 < s[a].2 by {
            if i >= 1 {
                assert(t[i - 1] == s[i]);
            }
        }
    }
}

/// The `min(k, len)` highest-valued entries in descending value order:
/// repeatedly take the first maximal entry of what remains.
pub open spec fn top_k_spec(s: Seq<(usize, usize, i64)>, k: int) -> Seq<(usize, usize, i64)>
    decreases k,
{
    if k <= 0 || s.len() == 0 {
        Seq::<(usize, usize, i64)>::empty()
    } else {
        let a = argmax_entry(s);
        seq![s[a]] + top_k_spec(s.remove(a), k - 1)
    }
}

/// Law: top-K returns exactly `min(k, len)` entries.
pub proof fn lemma_top_k_len(s: Seq<(usize, usize, i64)>, k: int)
    ensures
        top_k_spec(s, k).len() == if k <= 0 {
            0int
        } else if k <= s.len() {
            k
        } else {
            s.len() as int
        },
    decreases k,
{
    if k > 0 && s.len() > 0 {
        lemma_argmax_entry(s);
        lemma_top_k_len(s.remove(argmax_entry(s)), k - 1);
    }
}

/// Every entry returned by top-K is an entry of the input.
pub proof fn lemma_top_k_membership(s: Seq<(usize, usize, i64)>, k: int)
    ensures
        forall|i: int|
            0 <= i < top_k_spec(s, k).len() ==> s.contains(#[trigger] top_k_spec(s, k)[i]),
    decreases k,
{
    if k > 0 && s.len() > 0 {
        lemma_argmax_entry(s);
        let a = argmax_entry(s);
        let t = s.remove(a);
        lemma_top_k_membership(t, k - 1);
        assert forall|i: int|
            0 <= i < top_k_spec(s, k).len() implies s.contains(
            #[trigger] top_k_spec(s, k)[i],
        ) by {
            if i == 0 {
                assert(s[a] == top_k_spec(s, k)[0]);
            } else {
                let e = top_k_spec(s, k)[i];
                assert(e == top_k_spec(t, k - 1)[i - 1]);
                assert(t.contains(e));
                let j = choose|j: int| 0 <= j < t.len() && t[j] == e;
                if j < a {
                    assert(s[j] == e);
                } else {
                    assert(s[j + 1] == e);
                }
            }
        }
    }
}

/// Law: top-K output values are sorted in descending order.
pub proof fn lemma_top_k_sorted(s: Seq<(usize, usize, i64)>, k: int)
    ensures
        forall|i: int, j: int|
            0 <= i < j < top_k_spec(s, k).len() ==> (#[trigger] top_k_spec(s, k)[i]).2 >= (
            #[trigger] top_k_spec(s, k)[j]).2,
    decreases k,
{
    if k > 0 && s.len() > 0 {
        lemma_argmax_entry(s);
        let a = argmax_entry(s);
        let t = s.remove(a);
        lemma_top_k_sorted(t, k - 1);
        lemma_top_k_membership(t, k - 1);
        let out = top_k_spec(s, k);
        assert forall|i: int, j: int|
            0 <= i < j < out.len() implies (#[trigger] out[i]).2 >= (#[trigger] out[j]).2 by {
            if i == 0 {
                let e = out[j];
                assert(top_k_spec(t, k - 1)[j - 1] == e);
                assert(t.contains(e));
                let m = choose|m: int| 0 <= m < t.len() && t[m] == e;
                if m < a {
                    assert(s[m] == e);
                } else {
                    assert(s[m + 1] == e);
                }
            } else {
                assert(out[i] == top_k_spec(t, k - 1)[i - 1]);
                assert(out[j] == top_k_spec(t, k - 1)[j - 1]);
            }
        }
    }
}

/// All cells of the grid as a vector of `(row, col, value)` triples.
fn collect_entries(g: &Grid) -> (v: Vec<(usize, usize, i64)>)
    requires
        g.wf(),
    ensures
        v@ == grid_entries(*g),
{
    let w = g.width;
    let n = g.data.len();
    let mut v: Vec<(usize, usize, i64)> = Vec::new();
    let mut i: usize = 0;
    while i < n
        invariant
            g.wf(),
            n == g.data.len(),
            w == g.width,
            i <= n,
            v@ == grid_entries(*g).take(i as int),
        decreases n - i,
    {
        proof {
            if w == 0 {
                assert(g.height * g.width == 0) by (nonlinear_arith)
                    requires
                        g.width == 0,
                ;
            }
        }
        let r = i / w;
        let c = i % w;
        let val = g.data[i];
        v.push((r, c, val));
        proof {
            assert(v@ =~= grid_entries(*g).take(i + 1));
        }
        i = i + 1;
    }
    proof {
        assert(v@ =~= grid_entries(*g));
    }
    v
}

/// The index of the first maximal entry of a nonempty vector.
fn find_max_entry(v: &Vec<(usize, usize, i64)>) -> (a: usize)
    requires
        v@.len() >= 1,
    ensures
        a as int == argmax_entry(v@),
{
    let mut best: usize = 0;
    let mut i: usize = 1;
    while i < v.len()
        invariant
            1 <= i <= v@.len(),
            best < i,
            forall|j: int| 0 <= j < i ==> (#[trigger] v@[j]).2 <= v@[best as int].2,
            forall|j: int| 0 <= j < best ==> (#[trigger] v@[j]).2 < v@[best as int].2,
        decreases v@.len() - i,
    {
        if v[i].2 > v[best].2 {
            best = i;
        }
        i = i + 1;
    }
    proof {
        lemma_argmax_entry(v@);
        let a = argmax_entry(v@);
        if a < best {
            assert(v@[a].2 < v@[best as int].2);
        }
        if best < a {
            assert(v@[best as int].2 < v@[a].2);
        }
    }
    best
}

/// The `min(k, cell count)` highest-valued cells of the grid, as
/// `(row, col, value)` triples in descending value order; among cells of
/// equal value the first in row-major order is taken first.
pub fn top_k(heatmap: &Grid, k: usize) -> (r: Vec<(usize, usize, i64)>)
    requires
        heatmap.wf(),
    ensures
        r@ == top_k_spec(grid_entries(*heatmap), k as int),
        r@.len() == if k as int <= heatmap.height * heatmap.width {
            k as int
        } else {
            heatmap.height * heatmap.width
        },
        forall|i: int, j: int| 0 <= i < j < r@.len() ==> (#[trigger] r@[i]).2 >= (#[trigger] r@[j]).2,
{
    let ghost es = grid_entries(*heatmap);
    proof {
        lemma_top_k_len(es, k as int);
        lemma_top_k_sorted(es, k as int);
    }
    let mut pool = collect_entries(heatmap);
    let mut out: Vec<(usize, usize, i64)> = Vec::new();
    while out.len() < k && pool.len() > 0
        invariant
            out@.len() <= k,
            top_k_spec(es, k as int) == out@ + top_k_spec(pool@, k - out@.len()),
        decreases pool@.len(),
    {
        let a = find_max_entry(&pool);
        proof {
            lemma_argmax_entry(pool@);
        }
        let m = pool.remove(a);
        let ghost old_out = out@;
        let ghost old_pool_rest = top_k_spec(pool@, k - out@.len() - 1);
        out.push(m);
        proof {
            assert(out@ + top_k_spec(pool@, k - out@.len()) =~= old_out + (seq![m]
                + top_k_spec(pool@, k - out@.len())));
        }
    }
    proof {
        assert(out@ + top_k_spec(pool@, k - out@.len()) =~= out@);
    }
    out
}

} // verus!
