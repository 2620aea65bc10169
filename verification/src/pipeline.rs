//! Per-tile orchestration of a detection run: decoding one tile's raw
//! outputs into reprojected boxes, and the final optional merge of all
//! accumulated boxes.
//!
//! Opening the image, driving the inference engine over the tile sequence
//! and reporting progress are the caller's side of the run; each of this
//! module's steps is a pure function of the values that loop hands over, so
//! two runs over identical inputs produce identical box lists.

use crate::bbox::BBox;
use crate::decode::{apply_metadata, decode_heatmap, decode_spec, reproject_box, SIZE_REG_LIMIT};
use crate::grid::{Grid, SizeMap};
use crate::nms::{soft_nms, soft_nms_spec};
use crate::tiling::TileMetadata;
use crate::DetectConfig;
use vstd::prelude::*;

verus! {

/// A run-fatal failure of a detection run: the image could not be opened
/// or decoded, or the inference engine rejected a tile's batch.  Per-tile
/// geometry problems are not run-fatal; such tiles are skipped during
/// tiling.
#[derive(Debug, Clone, PartialEq, Eq)]
pub enum DetectError {
    ImageOpenFailed(String),
    InferenceFailure(String),
}

/// Progress of one detection task as reported to its owner: a state label
/// and, while processing, the current tile and the tile total.
pub struct DetectionStatusResponse {
    pub status: String,
    pub current: Option<isize>,
    pub total: Option<isize>,
}

/// Decodes one tile's raw detector outputs and reprojects the boxes into
/// original-image coordinates using the tile's metadata.
pub fn process_tile(
    hm: &Grid,
    wh: &SizeMap,
    metadata: &TileMetadata,
    config: &DetectConfig,
) -> (boxes: Vec<BBox>)
    requires
        hm.wf(),
        wh.wf(),
        config.wf(),
        metadata.wf(),
        hm.width == config.heatmap_size.0,
        hm.height == config.heatmap_size.1,
        wh.width == config.heatmap_size.0,
        wh.height == config.heatmap_size.1,
        forall|r: int, c: int|
            0 <= r < wh.height && 0 <= c < wh.width ==> 0 <= #[trigger] wh.at(r, c, 0)
                <= SIZE_REG_LIMIT,
    ensures
        boxes@ == decode_spec(*hm, *wh, *config).map_values(
            |b: BBox| reproject_box(b, *metadata),
        ),
        boxes@.len() == if config.tile_max_num as int <= hm.height * hm.width {
            config.tile_max_num as int
        } else {
            hm.height * hm.width
        },
        forall|i: int| 0 <= i < boxes@.len() ==> (#[trigger] boxes@[i]).wf(),
{
    let decoded = decode_heatmap(hm, wh, config);
    apply_metadata(decoded, metadata)
}

/// The final step of a run over the accumulated boxes of all tiles: soft
/// non-maximum suppression when merging was requested, the raw accumulated
/// list otherwise.
pub fn finish_detections(boxes: Vec<BBox>, apply_merge: bool) -> (r: Vec<BBox>)
    requires
        forall|i: int| 0 <= i < boxes@.len() ==> (#[trigger] boxes@[i]).wf(),
    ensures
        apply_merge ==> r@ == soft_nms_spec(boxes@),
        !apply_merge ==> r@ == boxes@,
        r@.len() == boxes@.len(),
        forall|i: int| 0 <= i < r@.len() ==> (#[trigger] r@[i]).wf(),
{
    if apply_merge {
        proof {
            crate::nms::lemma_soft_nms_len(boxes@);
            crate::nms::lemma_soft_nms_sorted(boxes@);
        }
        soft_nms(boxes)
    } else {
        boxes
    }
}

} // verus!
