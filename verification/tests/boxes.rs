use swift_det_lib::bbox::{iou, BBox};
use swift_det_lib::fixed::{exp_neg_q, SCALE};
use swift_det_lib::nms::{decay, soft_nms};

fn boxed(x_min: i64, y_min: i64, x_max: i64, y_max: i64, score: i64) -> BBox {
    BBox { x_min, y_min, x_max, y_max, score }
}

#[test]
fn iou_of_identical_boxes_is_one() {
    let a = boxed(10, 20, 30, 40, 50000);
    assert_eq!(iou(&a, &a), SCALE);
}

#[test]
fn iou_of_disjoint_boxes_is_zero() {
    let a = boxed(0, 0, 10, 10, 50000);
    let b = boxed(100, 100, 110, 110, 50000);
    assert_eq!(iou(&a, &b), 0);
    assert_eq!(iou(&b, &a), 0);
}

#[test]
fn iou_uses_inclusive_pixel_counts() {
    // overlap 2x2 = 4 pixels, areas 4 and 16, union 16
    let a = boxed(0, 0, 1, 1, 50000);
    let b = boxed(0, 0, 3, 3, 50000);
    assert_eq!(iou(&a, &b), 4 * SCALE / 16);
}

#[test]
fn decay_with_full_overlap_is_gaussian_at_one() {
    let kept = boxed(0, 0, 9, 9, 60000);
    let other = boxed(0, 0, 9, 9, 30000);
    let decayed = decay(&kept, &other);
    // IoU = 1 and sigma = 0.5, so the factor is exactly exp(-1/0.5) in
    // fixed point
    let factor = exp_neg_q(2 * SCALE);
    assert_eq!(decayed.score, 30000 * factor / SCALE);
    let approx = factor as f64 / SCALE as f64;
    assert!((approx - (-2.0f64).exp()).abs() < 1e-3);
    // geometry is untouched
    assert_eq!(decayed.x_min, 0);
    assert_eq!(decayed.y_max, 9);
}

#[test]
fn decay_without_overlap_keeps_the_score() {
    let kept = boxed(0, 0, 9, 9, 60000);
    let other = boxed(50, 50, 59, 59, 30000);
    assert_eq!(decay(&kept, &other).score, 30000);
}

#[test]
fn soft_nms_keeps_every_box() {
    let boxes = vec![
        boxed(0, 0, 9, 9, 60000),
        boxed(0, 0, 9, 9, 30000),
        boxed(50, 50, 59, 59, 20000),
        boxed(3, 3, 12, 12, 50000),
        boxed(70, 0, 79, 9, 10000),
    ];
    let out = soft_nms(boxes.clone());
    assert_eq!(out.len(), boxes.len());
    for i in 1..out.len() {
        assert!(out[i - 1].score >= out[i].score);
    }
}

#[test]
fn soft_nms_of_empty_list_is_empty() {
    assert_eq!(soft_nms(vec![]).len(), 0);
}

#[test]
fn soft_nms_decays_the_lower_duplicate_exactly() {
    let boxes = vec![boxed(0, 0, 9, 9, 30000), boxed(0, 0, 9, 9, 60000)];
    let out = soft_nms(boxes);
    let factor = exp_neg_q(2 * SCALE);
    assert_eq!(out[0].score, 60000);
    assert_eq!(out[1].score, 30000 * factor / SCALE);
}

#[test]
fn soft_nms_leaves_distant_boxes_untouched() {
    let boxes = vec![
        boxed(0, 0, 9, 9, 60000),
        boxed(100, 100, 109, 109, 40000),
        boxed(200, 200, 209, 209, 20000),
    ];
    let out = soft_nms(boxes);
    assert_eq!(out[0].score, 60000);
    assert_eq!(out[1].score, 40000);
    assert_eq!(out[2].score, 20000);
}
