use swift_det_lib::bbox::BBox;
use swift_det_lib::decode::{apply_metadata, decode_heatmap, oversized_size_count};
use swift_det_lib::fixed::SCALE;
use swift_det_lib::grid::{Grid, SizeMap};
use swift_det_lib::tiling::TileMetadata;
use swift_det_lib::DetectConfig;

fn config(heat: usize, input: usize, tile_max_num: u16) -> DetectConfig {
    DetectConfig {
        mean: [0, 0, 0],
        stdev: [65536, 65536, 65536],
        window_size: (800, 800),
        overlap: 0,
        tile_max_num,
        input_size: (input, input),
        batch_size: 1,
        heatmap_size: (heat, heat),
        model_path: String::new(),
    }
}

fn outputs_with_peak(heat: usize, r: usize, c: usize, size: i64) -> (Grid, SizeMap) {
    let mut hm_data: Vec<i64> = vec![-20 * SCALE; heat * heat];
    hm_data[r * heat + c] = 20 * SCALE;
    let wh_data: Vec<i64> = vec![size; 2 * heat * heat];
    (
        Grid::from_vec(hm_data, heat, heat),
        SizeMap::from_vec(wh_data, heat, heat),
    )
}

#[test]
fn decode_scales_peak_and_size_to_input_resolution() {
    let cfg = config(4, 8, 1);
    // peak at row 1, column 2, predicted size 2 heatmap cells
    let (hm, wh) = outputs_with_peak(4, 1, 2, 2 * SCALE);
    let boxes = decode_heatmap(&hm, &wh, &cfg);
    assert_eq!(boxes.len(), 1);
    assert_eq!(
        boxes[0],
        BBox { x_min: 2, y_min: 0, x_max: 6, y_max: 4, score: SCALE }
    );
}

#[test]
fn decode_returns_min_of_limit_and_cells() {
    let cfg = config(4, 8, 0);
    let (hm, wh) = outputs_with_peak(4, 0, 0, SCALE);
    assert_eq!(decode_heatmap(&hm, &wh, &cfg).len(), 0);
    let cfg_all = config(4, 8, 100);
    let boxes = decode_heatmap(&hm, &wh, &cfg_all);
    assert_eq!(boxes.len(), 16);
    for i in 1..boxes.len() {
        assert!(boxes[i - 1].score >= boxes[i].score);
    }
}

#[test]
fn apply_metadata_scales_and_shifts() {
    let boxes = vec![BBox { x_min: 400, y_min: 400, x_max: 432, y_max: 432, score: 50000 }];
    let md = TileMetadata {
        start_x: 0,
        start_y: 0,
        width_scale_num: 1000,
        width_scale_den: 800,
        height_scale_num: 1000,
        height_scale_den: 800,
    };
    let out = apply_metadata(boxes, &md);
    assert_eq!(
        out[0],
        BBox { x_min: 500, y_min: 500, x_max: 540, y_max: 540, score: 50000 }
    );
}

#[test]
fn reprojection_round_trip_recovers_original_coordinates() {
    // a synthetic tile: the original square (500,500)-(540,540) lies in the
    // tile starting at the origin, whose 1000-pixel crop is resampled to a
    // 800-pixel input; the peak center in heatmap space (200 cells) is then
    // cell 104 with a predicted extent of 8 cells.
    let cfg = config(200, 800, 1);
    let (hm, wh) = outputs_with_peak(200, 104, 104, 8 * SCALE);
    let decoded = decode_heatmap(&hm, &wh, &cfg);
    let md = TileMetadata {
        start_x: 0,
        start_y: 0,
        width_scale_num: 1000,
        width_scale_den: 800,
        height_scale_num: 1000,
        height_scale_den: 800,
    };
    let out = apply_metadata(decoded, &md);
    assert_eq!(out.len(), 1);
    let b = &out[0];
    assert!((b.x_min - 500).abs() <= 1);
    assert!((b.y_min - 500).abs() <= 1);
    assert!((b.x_max - 540).abs() <= 1);
    assert!((b.y_max - 540).abs() <= 1);
}

#[test]
fn oversized_sizes_are_counted_not_dropped() {
    let cfg = config(4, 8, 100);
    let mut wh_data: Vec<i64> = vec![SCALE; 2 * 16];
    // two cells carry implausibly large predictions (>= 100 heatmap cells)
    wh_data[0] = 100 * SCALE;
    wh_data[2 * 5] = 200 * SCALE;
    let wh = SizeMap::from_vec(wh_data, 4, 4);
    assert_eq!(oversized_size_count(&wh), 2);
    // decoding still produces a box for every requested peak
    let mut hm_data: Vec<i64> = vec![-20 * SCALE; 16];
    hm_data[0] = 20 * SCALE;
    let hm = Grid::from_vec(hm_data, 4, 4);
    let boxes = decode_heatmap(&hm, &wh, &cfg);
    assert_eq!(boxes.len(), 16);
}
