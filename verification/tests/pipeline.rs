use swift_det_lib::bbox::BBox;
use swift_det_lib::pipeline::{DetectError, DetectionStatusResponse};
use swift_det_lib::fixed::SCALE;
use swift_det_lib::grid::{Grid, SizeMap};
use swift_det_lib::image::preprocess;
use swift_det_lib::pipeline::{finish_detections, process_tile};
use swift_det_lib::tiling::{split_tiles, TileMetadata};
use swift_det_lib::DetectConfig;

fn config(window: usize, input: usize, heat: usize, overlap: u8, tile_max_num: u16) -> DetectConfig {
    DetectConfig {
        mean: [0, 0, 0],
        stdev: [65536, 65536, 65536],
        window_size: (window, window),
        overlap,
        tile_max_num,
        input_size: (input, input),
        batch_size: 1,
        heatmap_size: (heat, heat),
        model_path: String::new(),
    }
}

/// A deterministic stand-in for the inference engine: the tile at the
/// rescaled-image origin sees one bright peak with the given extent; every
/// other tile sees none.
fn stub_outputs(md: &TileMetadata, heat: usize, peak: (usize, usize), size: i64) -> (Grid, SizeMap) {
    let mut hm_data: Vec<i64> = vec![-20 * SCALE; heat * heat];
    if md.start_x == 0 && md.start_y == 0 {
        hm_data[peak.0 * heat + peak.1] = 20 * SCALE;
    }
    let wh_data: Vec<i64> = vec![size; 2 * heat * heat];
    (
        Grid::from_vec(hm_data, heat, heat),
        SizeMap::from_vec(wh_data, heat, heat),
    )
}

fn run_detection(cfg: &DetectConfig, raw: &Vec<u8>, side: usize, peak: (usize, usize), apply_merge: bool) -> (Vec<BBox>, Vec<(usize, usize)>) {
    let img = preprocess(raw, side, side, cfg);
    let tiles = split_tiles(img, cfg);
    let total = tiles.len();
    let mut progress: Vec<(usize, usize)> = Vec::new();
    let mut all: Vec<BBox> = Vec::new();
    let mut current = 1usize;
    for (_, md) in &tiles {
        // progress is reported before each tile's inference
        progress.push((current, total));
        let (hm, wh) = stub_outputs(md, cfg.heatmap_size.0, peak, 8 * SCALE);
        let boxes = process_tile(&hm, &wh, md, cfg);
        all.extend(boxes);
        current += 1;
    }
    (finish_detections(all, apply_merge), progress)
}

#[test]
fn end_to_end_finds_the_synthetic_square() {
    let side = 2000usize;
    let cfg = config(800, 800, 200, 32, 10);
    let mut raw: Vec<u8> = vec![0; 3 * side * side];
    // a bright square at (500,500)-(540,540) in every channel
    for ch in 0..3usize {
        for y in 500..540usize {
            for x in 500..540usize {
                raw[(ch * side + y) * side + x] = 255;
            }
        }
    }
    let (unmerged, progress) = run_detection(&cfg, &raw, side, (104, 104), false);
    let (merged, _) = run_detection(&cfg, &raw, side, (104, 104), true);
    // four tiles, progress reported for each in order
    assert_eq!(progress, vec![(1, 4), (2, 4), (3, 4), (4, 4)]);
    // ten peaks are decoded per tile; merging keeps every box
    assert_eq!(unmerged.len(), 40);
    assert_eq!(merged.len(), 40);
    // exactly one confident detection, at the square
    let strong: Vec<&BBox> = merged.iter().filter(|b| b.score >= SCALE / 2).collect();
    assert_eq!(strong.len(), 1);
    let b = strong[0];
    assert!((b.x_min - 500).abs() <= 3, "x_min {}", b.x_min);
    assert!((b.y_min - 500).abs() <= 3, "y_min {}", b.y_min);
    assert!((b.x_max - 540).abs() <= 3, "x_max {}", b.x_max);
    assert!((b.y_max - 540).abs() <= 3, "y_max {}", b.y_max);
    // no overlapping competitor: soft-NMS leaves its score unchanged
    let best_unmerged = unmerged.iter().map(|b| b.score).max().unwrap();
    assert_eq!(b.score, best_unmerged);
    assert_eq!(b.score, SCALE);
}

#[test]
fn identical_runs_produce_identical_box_lists() {
    let side = 640usize;
    let cfg = config(320, 320, 80, 32, 5);
    let raw: Vec<u8> = vec![7; 3 * side * side];
    let (a_raw, _) = run_detection(&cfg, &raw, side, (40, 40), false);
    let (b_raw, _) = run_detection(&cfg, &raw, side, (40, 40), false);
    assert_eq!(a_raw, b_raw);
    let (a_merged, _) = run_detection(&cfg, &raw, side, (40, 40), true);
    let (b_merged, _) = run_detection(&cfg, &raw, side, (40, 40), true);
    assert_eq!(a_merged, b_merged);
}

#[test]
fn detect_error_variants_are_distinct() {
    let open_failure = DetectError::ImageOpenFailed(String::from("no such file"));
    let infer_failure = DetectError::InferenceFailure(String::from("bad batch"));
    assert_ne!(open_failure, infer_failure);
    assert_eq!(
        open_failure,
        DetectError::ImageOpenFailed(String::from("no such file"))
    );
}

#[test]
fn detection_status_carries_progress() {
    let status = DetectionStatusResponse {
        status: String::from("processing"),
        current: Some(2),
        total: Some(4),
    };
    assert_eq!(status.current, Some(2));
    assert_eq!(status.total, Some(4));
    assert_eq!(status.status, "processing");
}
