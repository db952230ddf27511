//! In-loop filters: deblocking (clause 8.7.2) and SAO (clause 8.7.3).

pub mod deblock;
pub mod sao;

use vstd::prelude::*;


verus! {

/// Sample adaptive offset parameters for one component of one CTB.
#[derive(Clone, Copy, Debug, PartialEq, Eq)]
pub struct SaoCtb {
    /// `SaoTypeIdx`: 0 = not applied, 1 = band offset, 2 = edge offset.
    pub type_idx: u8,
    /// `SaoEoClass`, 0..=3; meaningful when `type_idx == 2`.
    pub eo_class: u8,
    /// `sao_band_position`; meaningful when `type_idx == 1`.
    pub band_position: u8,
    /// `SaoOffsetVal[1..=4]`, already signed and scaled.
    pub offsets: [i16; 4],
}

impl Default for SaoCtb {
    fn default() -> (r: SaoCtb)
        ensures
            r.type_idx == 0 && r.eo_class == 0 && r.band_position == 0,
            r.offsets@ == seq![0i16, 0, 0, 0],
    {
        SaoCtb { type_idx: 0, eo_class: 0, band_position: 0, offsets: [0i16; 4] }
    }
}

/// Loop-filter parameters that vary per coding tree block.
#[derive(Clone, Copy, Debug)]
pub struct CtbFilter {
    /// `slice_deblocking_filter_disabled_flag` for the covering slice.
    pub deblock_disabled: bool,
    /// `slice_beta_offset_div2`.
    pub beta_offset_div2: i8,
    /// `slice_tc_offset_div2`.
    pub tc_offset_div2: i8,
    /// `slice_loop_filter_across_slices_enabled_flag`.
    pub across_slices: bool,
    /// `pps_cb_qp_offset + slice_cb_qp_offset`.
    pub cb_qp_offset: i16,
    /// `pps_cr_qp_offset + slice_cr_qp_offset`.
    pub cr_qp_offset: i16,
    /// SAO parameters for Y, Cb and Cr.
    pub sao: [SaoCtb; 3],
}

impl Default for CtbFilter {
    /// Deblocking disabled, filtering across slices allowed, no offsets and
    /// no SAO.
    fn default() -> (r: CtbFilter)
        ensures
            r.deblock_disabled,
            r.beta_offset_div2 == 0,
            r.tc_offset_div2 == 0,
            r.across_slices,
            r.cb_qp_offset == 0,
            r.cr_qp_offset == 0,
            forall|c: int| 0 <= c < 3 ==> (#[trigger] r.sao@[c]).type_idx == 0,
    {
        let s = SaoCtb::default();
        CtbFilter {
            deblock_disabled: true,
            beta_offset_div2: 0,
            tc_offset_div2: 0,
            across_slices: true,
            cb_qp_offset: 0,
            cr_qp_offset: 0,
            sao: [s, s, s],
        }
    }
}

/// Everything the in-loop filters need that is not already in the picture.
#[derive(Debug)]
pub struct FilterInfo {
    /// `BitDepthY`.
    pub bit_depth_y: u8,
    /// `BitDepthC`.
    pub bit_depth_c: u8,
    /// `ChromaArrayType`, 0..=3.
    pub chroma_array_type: u8,
    /// `SubWidthC`, or 0 for monochrome.
    pub sub_w: usize,
    /// `SubHeightC`, or 0 for monochrome.
    pub sub_h: usize,
    /// `CtbLog2SizeY`.
    pub ctb_log2: usize,
    /// `PicWidthInCtbsY`.
    pub pic_w_ctbs: usize,
    /// `PicHeightInCtbsY`.
    pub pic_h_ctbs: usize,
    /// `pcm_loop_filter_disabled_flag`.
    pub pcm_loop_filter_disabled: bool,
    /// `loop_filter_across_tiles_enabled_flag`.
    pub across_tiles: bool,
    /// True when SAO is enabled for at least one component of the picture.
    pub sao_enabled: bool,
    /// Per-CTB parameters, indexed by CTB raster address.
    pub ctb: Vec<CtbFilter>,
    /// `TileId` per CTB raster address.
    pub tile_id: Vec<u16>,
    /// Address of the first CTB of the containing slice, per CTB raster address.
    pub slice_addr: Vec<u32>,
}

/// `2^k` as an integer.
pub open spec fn pow2(k: nat) -> nat {
    vstd::arithmetic::power2::pow2(k)
}

impl FilterInfo {
    /// Whether a filter may cross from CTB `a` into CTB `b`: always within
    /// one CTB; otherwise not into another tile unless filtering across tiles
    /// is enabled, and not into another slice unless `b`'s slice allows it.
    pub open spec fn crossing_allowed(&self, a: int, b: int) -> bool {
        a == b || ((self.tile_id@[a] == self.tile_id@[b] || self.across_tiles) && (
        self.slice_addr@[a] == self.slice_addr@[b] || self.ctb@[b].across_slices))
    }

    /// The CTB raster address covering luma position `(x, y)`.
    pub open spec fn ctb_at(&self, x: int, y: int) -> int {
        (y / pow2(self.ctb_log2 as nat) as int) * self.pic_w_ctbs + x / pow2(
            self.ctb_log2 as nat,
        ) as int
    }

    /// True when a filter may cross from CTB `a` into CTB `b` (raster addresses).
    ///
    /// `b` is the CTB containing the samples being modified.
    pub fn may_cross(&self, a: usize, b: usize) -> (r: bool)
        requires
            a < self.tile_id@.len(),
            b < self.tile_id@.len(),
            a < self.slice_addr@.len(),
            b < self.slice_addr@.len(),
            a != b ==> b < self.ctb@.len(),
        ensures
            r == self.crossing_allowed(a as int, b as int),
    {
        if a == b {
            return true;
        }
        if self.tile_id[a] != self.tile_id[b] && !self.across_tiles {
            return false;
        }
        if self.slice_addr[a] != self.slice_addr[b] && !self.ctb[b].across_slices {
            return false;
        }
        true
    }

    /// CTB raster address covering luma position `(x, y)`.
    pub fn ctb_of(&self, x: usize, y: usize) -> (r: usize)
        requires
            self.ctb_log2 < usize::BITS,
            self.ctb_at(x as int, y as int) <= usize::MAX,
        ensures
            r == self.ctb_at(x as int, y as int),
    {
        proof {
            vstd::bits::lemma_usize_shr_is_div(x, self.ctb_log2);
            vstd::bits::lemma_usize_shr_is_div(y, self.ctb_log2);
            vstd::arithmetic::power2::lemma_pow2_pos(self.ctb_log2 as nat);
            let q = y as int / pow2(self.ctb_log2 as nat) as int;
            let p = x as int / pow2(self.ctb_log2 as nat) as int;
            assert(q * self.pic_w_ctbs <= usize::MAX) by (nonlinear_arith)
                requires
                    q * self.pic_w_ctbs + p <= usize::MAX,
                    p >= 0,
            ;
        }
        (y >> self.ctb_log2) * self.pic_w_ctbs + (x >> self.ctb_log2)
    }
}

/// `QpC` of Table 8-10 for `qPi` in `30..=43`, when `ChromaArrayType` is 1.
pub open spec fn qpc_table() -> Seq<i32> {
    seq![29i32, 30, 31, 32, 33, 33, 34, 34, 35, 35, 36, 36, 37, 37]
}

/// `QpC` as a function of `qPi`, Table 8-10: identity below 30, the table
/// from 30 to 43, `qPi - 6` above; for any other `ChromaArrayType`,
/// `Min(qPi, 51)`.
pub open spec fn chroma_qp(qpi: int, chroma_array_type: u8) -> int {
    if chroma_array_type != 1 {
        if qpi < 51 {
            qpi
        } else {
            51
        }
    } else if qpi < 30 {
        qpi
    } else if qpi > 43 {
        qpi - 6
    } else {
        qpc_table()[qpi - 30] as int
    }
}

/// Maps a luma QP to a chroma QP, Table 8-10, for `ChromaArrayType == 1`.
pub fn chroma_qp_from_luma(qpi: i32, chroma_array_type: u8) -> (r: i32)
    requires
        chroma_array_type == 1 ==> qpi >= i32::MIN + 6,
    ensures
        r == chroma_qp(qpi as int, chroma_array_type),
{
    if chroma_array_type != 1 {
        return if qpi < 51 {
            qpi
        } else {
            51
        };
    }
    if qpi < 30 {
        qpi
    } else if qpi > 43 {
        qpi - 6
    } else {
        let t: [i32; 14] = [29, 30, 31, 32, 33, 33, 34, 34, 35, 35, 36, 36, 37, 37];
        proof {
            assert(t@ == qpc_table());
        }
        t[(qpi - 30) as usize]
    }
}

} // verus!
