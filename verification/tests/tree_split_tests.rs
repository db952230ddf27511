//! Inferred split flags of the coding and transform trees, and the split
//! flag's context.

use heic_rs::hevc::decode::ctu::{split_cu_ctx_inc, split_cu_inferred};
use heic_rs::hevc::decode::tu::split_transform_inferred;

#[test]
fn transform_split_is_read_or_inferred() {
    // 16x16 with 32 maximum, 4 minimum, depth 0 of 2: read.
    assert_eq!(split_transform_inferred(4, 0, 5, 2, 2, false), None);
    // Larger than the maximum transform: forced split.
    assert_eq!(split_transform_inferred(6, 0, 5, 2, 2, false), Some(true));
    // First level of an NxN intra unit: forced split.
    assert_eq!(split_transform_inferred(3, 0, 5, 2, 2, true), Some(true));
    // At the minimum size, or at the maximum depth: no split.
    assert_eq!(split_transform_inferred(2, 1, 5, 2, 2, true), Some(false));
    assert_eq!(split_transform_inferred(4, 2, 5, 2, 2, false), Some(false));
}

#[test]
fn coding_split_is_read_or_inferred() {
    assert_eq!(split_cu_inferred(true, 5, 3), None);
    // A block crossing the picture edge is split while it can be.
    assert_eq!(split_cu_inferred(false, 5, 3), Some(true));
    assert_eq!(split_cu_inferred(false, 3, 3), Some(false));
    assert_eq!(split_cu_inferred(true, 3, 3), Some(false));
}

#[test]
fn split_context_counts_deeper_available_neighbours() {
    assert_eq!(split_cu_ctx_inc(true, 2, true, 3, 1), 2);
    assert_eq!(split_cu_ctx_inc(true, 1, true, 3, 1), 1);
    assert_eq!(split_cu_ctx_inc(false, 5, false, 5, 1), 0);
}
