//! Context variable layout and initialisation values for I slices.
//!
//! Only `initType == 0` is tabulated: this decoder rejects P and B slices, so
//! no other initialisation type can ever be selected.

pub mod off;

use vstd::prelude::*;

verus! {

/// Total number of context variables tracked.
pub const NUM_CTX: usize = 139;

/// `initValue` for every context, for `initType == 0` (I slices).
pub const INIT_VALUES: [u8; NUM_CTX] = [
    153,  // sao_merge
    200,  // sao_type_idx
    139, 141, 157,  // split_cu_flag
    154,  // cu_transquant_bypass_flag
    184,  // part_mode
    184,  // prev_intra_luma_pred_flag
    63,  // intra_chroma_pred_mode
    153, 138, 138,  // split_transform_flag
    111, 141,  // cbf_luma
    94, 138, 182, 154, 154,  // cbf_cb / cbf_cr
    154, 154,  // cu_qp_delta_abs
    139,  // transform_skip_flag, luma
    139,  // transform_skip_flag, chroma
    // last_sig_coeff_x_prefix
    110, 110, 124, 125, 140, 153, 125, 127, 140, 109, 111, 143, 127, 111, 79, 108, 123, 63,
    // last_sig_coeff_y_prefix
    110, 110, 124, 125, 140, 153, 125, 127, 140, 109, 111, 143, 127, 111, 79, 108, 123, 63,
    // coded_sub_block_flag
    91, 171, 134, 141,
    // sig_coeff_flag (42 core contexts then 2 for transform-skip contexts)
    111, 111, 125, 110, 110, 94, 124, 108, 124, 107, 125, 141, 179, 153, 125, 107, 125, 141, 179,
    153, 125, 107, 125, 141, 179, 153, 125, 140, 139, 182, 182, 152, 136, 152, 136, 153, 136, 139,
    111, 136, 139, 111, 141, 111,  // coeff_abs_level_greater1_flag
    140, 92, 137, 138, 140, 152, 138, 139, 153, 74, 149, 92, 139, 107, 122, 152, 140, 179, 166,
    182, 140, 227, 122, 197,  // coeff_abs_level_greater2_flag
    138, 153, 136, 167, 152, 152, 154,  // cu_chroma_qp_offset_flag
    154,  // cu_chroma_qp_offset_idx
];

} // verus!
