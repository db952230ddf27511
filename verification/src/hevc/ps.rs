//! The parameter-set fields picture addressing depends on.

use vstd::prelude::*;

verus! {

/// `ceil(v / 2^k)`.
pub open spec fn ceil_pow2(v: int, k: nat) -> int {
    (v + vstd::arithmetic::power2::pow2(k) - 1) / vstd::arithmetic::power2::pow2(k) as int
}

/// The sequence parameter set fields that fix a picture's size, block grid
/// and sample depths, the PCM sample depths, and the residual coding tools
/// it enables.
#[derive(Debug, Clone, Default)]
pub struct Sps {
    /// `pic_width_in_luma_samples`.
    pub width: usize,
    /// `pic_height_in_luma_samples`.
    pub height: usize,
    /// `SubWidthC`.
    pub sub_w: usize,
    /// `SubHeightC`.
    pub sub_h: usize,
    /// `BitDepthY`.
    pub bit_depth_y: u8,
    /// `BitDepthC`.
    pub bit_depth_c: u8,
    /// `CtbLog2SizeY`.
    pub log2_ctb: usize,
    /// `MinTbLog2SizeY`.
    pub log2_min_tb: usize,
    /// `transform_skip_context_enabled_flag`.
    pub transform_skip_context: bool,
    /// `persistent_rice_adaptation_enabled_flag`.
    pub persistent_rice: bool,
    /// `PcmBitDepthY`.
    pub pcm_bit_depth_y: u8,
    /// `PcmBitDepthC`.
    pub pcm_bit_depth_c: u8,
}

impl Sps {
    /// `PicWidthInCtbsY`: the width in coding tree blocks, rounded up.
    pub fn width_in_ctbs(&self) -> (r: usize)
        requires
            self.log2_ctb < usize::BITS,
        ensures
            r == ceil_pow2(self.width as int, self.log2_ctb as nat),
    {
        div_ceil_pow2(self.width, self.log2_ctb)
    }

    /// `PicHeightInCtbsY`: the height in coding tree blocks, rounded up.
    pub fn height_in_ctbs(&self) -> (r: usize)
        requires
            self.log2_ctb < usize::BITS,
        ensures
            r == ceil_pow2(self.height as int, self.log2_ctb as nat),
    {
        div_ceil_pow2(self.height, self.log2_ctb)
    }
}

/// `v.div_ceil(1 << k)`.
pub fn div_ceil_pow2(v: usize, k: usize) -> (r: usize)
    requires
        k < usize::BITS,
    ensures
        r == ceil_pow2(v as int, k as nat),
{
    proof {
        vstd::bits::lemma_usize_shr_is_div(v, k);
        vstd::arithmetic::power2::lemma_pow2_pos(k as nat);
        vstd::bits::lemma_usize_pow2_no_overflow(k as nat);
        vstd::bits::lemma_usize_shl_is_mul(1, k);
    }
    let d = 1usize << k;
    let q = v >> k;
    proof {
        vstd::arithmetic::div_mod::lemma_fundamental_div_mod(v as int, d as int);
        let r = v as int % d as int;
        assert(v == d * q + r);
        if r == 0 {
            assert(v + d - 1 == q * d + (d - 1)) by (nonlinear_arith)
                requires
                    v == d * q + r,
                    r == 0,
            ;
            vstd::arithmetic::div_mod::lemma_fundamental_div_mod_converse((v + d - 1) as int, d as int, q as int, d - 1);
        } else {
            assert(v + d - 1 == (q + 1) * d + (r - 1)) by (nonlinear_arith)
                requires
                    v == d * q + r,
            ;
            vstd::arithmetic::div_mod::lemma_fundamental_div_mod_converse((v + d - 1) as int, d as int, q + 1, r - 1);
            assert(q < v) by (nonlinear_arith)
                requires
                    v == d * q + r,
                    r > 0,
                    d >= 1,
            ;
        }
    }
    if v % d == 0 {
        q
    } else {
        q + 1
    }
}

/// The picture parameter set fields that fix the tile layout, the scale of
/// SAO offsets, the residual coding tools in use and the chroma QP offset
/// lists.
#[derive(Debug, Clone, Default)]
pub struct Pps {
    /// `tiles_enabled_flag`.
    pub tiles_enabled: bool,
    /// `num_tile_columns_minus1 + 1`.
    pub num_tile_cols: usize,
    /// `num_tile_rows_minus1 + 1`.
    pub num_tile_rows: usize,
    /// `uniform_spacing_flag`.
    pub uniform_spacing: bool,
    /// `column_width_minus1[i] + 1`, for all but the last column.
    pub column_widths: Vec<usize>,
    /// `row_height_minus1[i] + 1`, for all but the last row.
    pub row_heights: Vec<usize>,
    /// `log2_sao_offset_scale_luma`.
    pub sao_offset_scale_luma: u32,
    /// `log2_sao_offset_scale_chroma`.
    pub sao_offset_scale_chroma: u32,
    /// `transform_skip_enabled_flag`.
    pub transform_skip: bool,
    /// `Log2MaxTransformSkipSize`.
    pub log2_max_transform_skip: usize,
    /// `sign_data_hiding_enabled_flag`.
    pub sign_data_hiding: bool,
    /// `cb_qp_offset_list[]`.
    pub cb_qp_offset_list: Vec<i32>,
    /// `cr_qp_offset_list[]`.
    pub cr_qp_offset_list: Vec<i32>,
}

} // verus!
