use swift_det_lib::fixed::{exp_neg_q, sigmoid_q, SCALE};
use swift_det_lib::grid::Grid;
use swift_det_lib::heatmap::{heatmap_nms, max_pooling, top_k};

fn grid(data: Vec<i64>, h: usize, w: usize) -> Grid {
    Grid::from_vec(data, h, w)
}

#[test]
fn sigmoid_exact_values() {
    assert_eq!(sigmoid_q(0), SCALE / 2);
    assert_eq!(sigmoid_q(16 * SCALE), SCALE);
    assert_eq!(sigmoid_q(20 * SCALE), SCALE);
    assert_eq!(sigmoid_q(-16 * SCALE), 0);
    assert_eq!(sigmoid_q(-20 * SCALE), 0);
    assert_eq!(exp_neg_q(0), SCALE);
}

#[test]
fn sigmoid_matches_reference_curve() {
    for i in -60..=60 {
        let x: i64 = i * SCALE / 4;
        let got = sigmoid_q(x) as f64 / SCALE as f64;
        let want = 1.0 / (1.0 + (-(x as f64) / SCALE as f64).exp());
        assert!((got - want).abs() < 2e-3, "x={} got={} want={}", x, got, want);
    }
}

#[test]
fn sigmoid_is_symmetric() {
    for i in -100..=100 {
        let x: i64 = i * 1234;
        assert_eq!(sigmoid_q(x) + sigmoid_q(-x), SCALE);
    }
}

#[test]
fn exp_neg_matches_reference_curve() {
    for i in 0..=64 {
        let t: i64 = i * SCALE / 2;
        let got = exp_neg_q(t) as f64 / SCALE as f64;
        let want = (-(t as f64) / SCALE as f64).exp();
        assert!((got - want).abs() < 2e-3, "t={} got={} want={}", t, got, want);
    }
}

#[test]
fn top_k_returns_min_k_sorted_descending() {
    let g = grid(vec![5, 1, 3, 1, 9, 2], 2, 3);
    let r = top_k(&g, 3);
    assert_eq!(r, vec![(1, 1, 9), (0, 0, 5), (0, 2, 3)]);
    assert_eq!(top_k(&g, 0), vec![]);
    let all = top_k(&g, 10);
    assert_eq!(all.len(), 6);
    for i in 1..all.len() {
        assert!(all[i - 1].2 >= all[i].2);
    }
    for k in 0..8usize {
        assert_eq!(top_k(&g, k).len(), k.min(6));
    }
}

#[test]
fn top_k_breaks_ties_in_row_major_order() {
    let g = grid(vec![2, 2, 2, 2], 2, 2);
    let r = top_k(&g, 3);
    assert_eq!(r, vec![(0, 0, 2), (0, 1, 2), (1, 0, 2)]);
}

#[test]
fn max_pooling_computes_window_maxima() {
    let g = grid(vec![1, 2, 3, 4, 5, 6, 7, 8, 9], 3, 3);
    let p = max_pooling(&g, 2, 1, 0);
    assert_eq!(p.height, 2);
    assert_eq!(p.width, 2);
    assert_eq!(p.data, vec![5, 6, 8, 9]);
}

#[test]
fn max_pooling_dominates_every_window_element() {
    // a fixed pseudo-random grid
    let mut data: Vec<i64> = Vec::new();
    let mut s: i64 = 12345;
    for _ in 0..25 {
        s = (s * 1103515245 + 12345) % 65536;
        data.push(s - 30000);
    }
    let g = grid(data.clone(), 5, 5);
    let kernel = 3usize;
    let padding = 1usize;
    let p = max_pooling(&g, kernel, 1, padding);
    assert_eq!(p.height, 5);
    assert_eq!(p.width, 5);
    for i in 0..5usize {
        for j in 0..5usize {
            let pooled = p.data[i * 5 + j];
            for di in 0..kernel {
                for dj in 0..kernel {
                    let r = i + di;
                    let c = j + dj;
                    // padded coordinates: source cell is (r - 1, c - 1)
                    let v = if r >= padding && r < 5 + padding && c >= padding && c < 5 + padding {
                        data[(r - padding) * 5 + (c - padding)]
                    } else {
                        0
                    };
                    assert!(pooled >= v);
                }
            }
        }
    }
}

#[test]
fn heatmap_nms_keeps_only_local_maxima() {
    let g = grid(vec![1, 2, 1, 2, 9, 2, 1, 2, 1], 3, 3);
    let n = heatmap_nms(&g, 3);
    assert_eq!(n.data, vec![0, 0, 0, 0, 9, 0, 0, 0, 0]);
}

#[test]
fn heatmap_nms_keeps_ties_with_the_window_maximum() {
    let g = grid(vec![4, 4, 4, 4], 2, 2);
    let n = heatmap_nms(&g, 3);
    assert_eq!(n.data, vec![4, 4, 4, 4]);
}

#[test]
fn heatmap_nms_never_increases_nonnegative_grids() {
    let mut data: Vec<i64> = Vec::new();
    let mut s: i64 = 777;
    for _ in 0..36 {
        s = (s * 1103515245 + 12345) % 65536;
        data.push(s.abs());
    }
    let g = grid(data.clone(), 6, 6);
    let n = heatmap_nms(&g, 3);
    for i in 0..36usize {
        assert!(n.data[i] <= data[i]);
        if n.data[i] != 0 {
            // a surviving value equals its own cell and is a local maximum
            assert_eq!(n.data[i], data[i]);
            let (r, c) = (i / 6, i % 6);
            for dr in 0..3usize {
                for dc in 0..3usize {
                    let rr = (r + dr) as i64 - 1;
                    let cc = (c + dc) as i64 - 1;
                    if rr >= 0 && rr < 6 && cc >= 0 && cc < 6 {
                        assert!(data[i] >= data[(rr * 6 + cc) as usize]);
                    }
                }
            }
        }
    }
}
