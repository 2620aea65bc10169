//! Verified core of a tiled object-detection pipeline for high-resolution
//! images: heatmap peak extraction, window tiling with overlap, bounding-box
//! decoding with reprojection, and soft non-maximum suppression.
//!
//! All detection scores and normalized pixel values are fixed-point numbers
//! with 16 fractional bits (see [`fixed`]); image and heatmap geometry is
//! exact integer and rational arithmetic throughout.

pub mod bbox;
pub mod config;
pub mod decode;
pub mod fixed;
pub mod forms;
pub mod grid;
pub mod heatmap;
pub mod image;
pub mod nms;
pub mod pipeline;
pub mod tiling;

use vstd::prelude::*;

verus! {

/// Immutable per-run detection configuration.
///
/// `mean` and `stdev` are the per-channel standardization constants as
/// fixed-point values (units of `1/fixed::SCALE`); `window_size`,
/// `input_size` and `heatmap_size` are `(width, height)` pairs; `overlap`
/// is the number of pixels added around non-edge tiles (split between the
/// two sides); `tile_max_num` caps the peaks decoded per tile; `batch_size`
/// is fixed at one tile per inference batch; `model_path` locates the model
/// artifact for the inference runtime.
pub struct DetectConfig {
    pub mean: [i64; 3],
    pub stdev: [i64; 3],
    pub window_size: (usize, usize),
    pub overlap: u8,
    pub tile_max_num: u16,
    pub input_size: (usize, usize),
    pub batch_size: u8,
    pub heatmap_size: (usize, usize),
    pub model_path: String,
}

impl DetectConfig {
    /// Dimensions are positive and small enough that all tiling, decoding
    /// and reprojection arithmetic stays within 64-bit integers; the
    /// standardization constants are bounded and the deviations positive.
    pub open spec fn wf(self) -> bool {
        &&& 1 <= self.window_size.0 <= 8192
        &&& 1 <= self.window_size.1 <= 8192
        &&& 1 <= self.input_size.0 <= 8192
        &&& 1 <= self.input_size.1 <= 8192
        &&& 1 <= self.heatmap_size.0 <= 8192
        &&& 1 <= self.heatmap_size.1 <= 8192
        &&& forall|i: int|
            0 <= i < 3 ==> -16 * (crate::fixed::SCALE as int) <= #[trigger] self.mean@[i]
                <= 16 * (crate::fixed::SCALE as int)
        &&& forall|i: int|
            0 <= i < 3 ==> 1 <= #[trigger] self.stdev@[i] <= 16 * (crate::fixed::SCALE as int)
    }
}

} // verus!
