//! Offsets of each syntax element's context block in the flat context array.

use vstd::prelude::*;

verus! {

/// `sao_merge_left_flag` and `sao_merge_up_flag`.
pub const SAO_MERGE: usize = 0;
/// `sao_type_idx_luma` and `sao_type_idx_chroma`.
pub const SAO_TYPE: usize = 1;
/// `split_cu_flag`, three contexts.
pub const SPLIT_CU: usize = 2;
/// `cu_transquant_bypass_flag`.
pub const TQ_BYPASS: usize = 5;
/// `part_mode`; only the first context can occur in an I slice.
pub const PART_MODE: usize = 6;
/// `prev_intra_luma_pred_flag`.
pub const PREV_INTRA: usize = 7;
/// `intra_chroma_pred_mode`.
pub const INTRA_CHROMA: usize = 8;
/// `split_transform_flag`, three contexts.
pub const SPLIT_TRANSFORM: usize = 9;
/// `cbf_luma`, two contexts.
pub const CBF_LUMA: usize = 12;
/// `cbf_cb` and `cbf_cr`, five contexts.
pub const CBF_CHROMA: usize = 14;
/// `cu_qp_delta_abs`, two contexts.
pub const CU_QP_DELTA: usize = 19;
/// `transform_skip_flag` for luma.
pub const TS_LUMA: usize = 21;
/// `transform_skip_flag` for chroma.
pub const TS_CHROMA: usize = 22;
/// `last_sig_coeff_x_prefix`, eighteen contexts.
pub const LAST_X: usize = 23;
/// `last_sig_coeff_y_prefix`, eighteen contexts.
pub const LAST_Y: usize = 41;
/// `coded_sub_block_flag`, four contexts.
pub const CSBF: usize = 59;
/// `sig_coeff_flag`, forty-four contexts (two are range-extension only).
pub const SIG: usize = 63;
/// `coeff_abs_level_greater1_flag`, twenty-four contexts.
pub const GT1: usize = 107;
/// `coeff_abs_level_greater2_flag`, six contexts.
pub const GT2: usize = 131;
/// `cu_chroma_qp_offset_flag`.
pub const CHROMA_QP_FLAG: usize = 137;
/// `cu_chroma_qp_offset_idx`.
pub const CHROMA_QP_IDX: usize = 138;

} // verus!
