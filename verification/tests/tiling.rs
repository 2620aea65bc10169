use swift_det_lib::image::{preprocess, resize_img, Image};
use swift_det_lib::tiling::{split_tiles, tile_edge};
use swift_det_lib::DetectConfig;

fn config(window: usize, input: usize, overlap: u8) -> DetectConfig {
    DetectConfig {
        mean: [0, 0, 0],
        stdev: [65536, 65536, 65536],
        window_size: (window, window),
        overlap,
        tile_max_num: 10,
        input_size: (input, input),
        batch_size: 1,
        heatmap_size: (200, 200),
        model_path: String::new(),
    }
}

#[test]
fn tile_edge_divides_axis() {
    assert_eq!(tile_edge(2000, 800), (2, 1000));
    assert_eq!(tile_edge(1600, 800), (2, 800));
    assert_eq!(tile_edge(801, 800), (1, 801));
}

#[test]
fn preprocess_standardizes_fixed_point() {
    let cfg = DetectConfig {
        mean: [32768, 0, 0],
        stdev: [65536, 65536, 32768],
        ..config(800, 800, 0)
    };
    // one pixel, three channels
    let raw: Vec<u8> = vec![255, 0, 51];
    let img = preprocess(&raw, 1, 1, &cfg);
    // channel 0: 255/255 = 1.0, minus mean 0.5, over stdev 1.0
    assert_eq!(img.data[0], 32768);
    // channel 1: 0.0 standardized by (0, 1.0)
    assert_eq!(img.data[1], 0);
    // channel 2: 51*65536/255 = 13107, over stdev 0.5 doubles it
    assert_eq!(img.data[2], 26214);
}

#[test]
fn resize_identity_keeps_pixels() {
    let data: Vec<i64> = (0..12).collect();
    let img = Image { data: data.clone(), height: 2, width: 2 };
    let out = resize_img(&img, 1, 1, 1, 1);
    assert_eq!(out.height, 2);
    assert_eq!(out.width, 2);
    assert_eq!(out.data, data);
}

#[test]
fn resize_upscale_is_nearest_neighbor() {
    // one channel is enough to check the mapping; the others are zero
    let mut data: Vec<i64> = vec![0; 12];
    data[0] = 10;
    data[1] = 20;
    data[2] = 30;
    data[3] = 40;
    let img = Image { data, height: 2, width: 2 };
    let out = resize_img(&img, 2, 1, 2, 1);
    assert_eq!(out.height, 4);
    assert_eq!(out.width, 4);
    // target (y, x) reads source (y/2, x/2)
    for y in 0..4usize {
        for x in 0..4usize {
            let want = match (y / 2, x / 2) {
                (0, 0) => 10,
                (0, 1) => 20,
                (1, 0) => 30,
                _ => 40,
            };
            assert_eq!(out.data[y * 4 + x], want);
        }
    }
}

#[test]
fn exact_double_image_gives_one_tile_per_cell_with_identity_scale() {
    let cfg = config(800, 800, 0);
    let raw: Vec<u8> = vec![128; 3 * 1600 * 1600];
    let img = preprocess(&raw, 1600, 1600, &cfg);
    let tiles = split_tiles(img, &cfg);
    assert_eq!(tiles.len(), 4);
    let starts: Vec<(usize, usize)> =
        tiles.iter().map(|t| (t.1.start_x, t.1.start_y)).collect();
    assert_eq!(starts, vec![(0, 0), (800, 0), (0, 800), (800, 800)]);
    for (img, md) in &tiles {
        assert_eq!(img.width, 800);
        assert_eq!(img.height, 800);
        // identity composition: window/input with no global rescale
        assert_eq!(md.width_scale_num, 800);
        assert_eq!(md.width_scale_den, 800);
        assert_eq!(md.height_scale_num, 800);
        assert_eq!(md.height_scale_den, 800);
    }
}

#[test]
fn small_images_are_rescaled_to_twice_the_window() {
    let cfg = config(800, 800, 0);
    let raw: Vec<u8> = vec![0; 3 * 700 * 700];
    let img = preprocess(&raw, 700, 700, &cfg);
    let tiles = split_tiles(img, &cfg);
    assert_eq!(tiles.len(), 4);
    let md = &tiles[0].1;
    // tile scale 800/800 composed with the inverse global scale 700/1600
    assert_eq!(md.width_scale_num, 800 * 700);
    assert_eq!(md.width_scale_den, 800 * 1600);
}

#[test]
fn interior_tiles_overlap_their_neighbors() {
    let cfg = config(100, 100, 16);
    // 400 x 400: four tiles per axis, the middle ones expand by 8 each side
    let raw: Vec<u8> = vec![0; 3 * 400 * 400];
    let img = preprocess(&raw, 400, 400, &cfg);
    let tiles = split_tiles(img, &cfg);
    assert_eq!(tiles.len(), 16);
    // first row: tiles at cells (0..4, 0)
    let md0 = &tiles[0].1;
    assert_eq!(md0.start_x, 0);
    assert_eq!(md0.width_scale_num, 100);
    let md1 = &tiles[1].1;
    assert_eq!(md1.start_x, 92);
    assert_eq!(md1.width_scale_num, 116);
    let md3 = &tiles[3].1;
    // the last tile would overrun on the right, so it is not widened
    assert_eq!(md3.start_x, 300);
    assert_eq!(md3.width_scale_num, 100);
}

#[test]
fn odd_overlap_skips_tiles_that_miss_the_input_resolution() {
    // an odd overlap widens interior tiles by one pixel less than the
    // resampling denominator expects, so those tiles cannot hit the input
    // resolution exactly and are skipped; edge tiles are unaffected
    let cfg = config(100, 100, 15);
    let raw: Vec<u8> = vec![0; 3 * 400 * 400];
    let img = preprocess(&raw, 400, 400, &cfg);
    let tiles = split_tiles(img, &cfg);
    let starts: Vec<(usize, usize)> =
        tiles.iter().map(|t| (t.1.start_x, t.1.start_y)).collect();
    assert_eq!(starts, vec![(0, 0), (300, 0), (0, 300), (300, 300)]);
}
