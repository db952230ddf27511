//! The availability of neighbouring blocks (clause 6.4.1), which slice
//! decoding consults for prediction and context selection, and the
//! quantisation parameter derivation of clause 8.6.1.

use vstd::prelude::*;

use super::geom::Geometry;
use crate::hevc::filter::{chroma_qp, chroma_qp_from_luma};
use crate::hevc::picture::{Picture, in_fill};
use crate::hevc::ps::Sps;
use vstd::arithmetic::power2::pow2;

verus! {

/// Whether the block covering luma position `(xn, yn)` is available to the
/// block at `(xc, yc)` (clause 6.4.1): inside the picture, not later in
/// z-scan order, and in the same tile and the same slice.
pub open spec fn available_at(
    geo: &Geometry,
    slice_addr: Seq<u32>,
    width: int,
    height: int,
    xc: int,
    yc: int,
    xn: int,
    yn: int,
) -> bool {
    let (a, b) = (geo.ctb_rs_at(xn, yn), geo.ctb_rs_at(xc, yc));
    &&& 0 <= xn < width
    &&& 0 <= yn < height
    &&& geo.z_at(xn, yn) <= geo.z_at(xc, yc)
    &&& geo.tile_id@[a] == geo.tile_id@[b]
    &&& slice_addr[a] == slice_addr[b]
}

/// True when the block covering `(xn, yn)` is available for prediction
/// from the block at `(xc, yc)` (clause 6.4.1).
///
/// `slice_addr` holds the slice address of every coding tree block, and
/// `width` and `height` are the picture's size in luma samples.
pub fn available(
    geo: &Geometry,
    slice_addr: &[u32],
    width: usize,
    height: usize,
    xc: usize,
    yc: usize,
    xn: isize,
    yn: isize,
) -> (r: bool)
    requires
        geo.tables_ok(),
        geo.ctb_log2 < usize::BITS,
        geo.min_tb_log2 < usize::BITS,
        width <= geo.w_ctbs * pow2(geo.ctb_log2 as nat),
        height <= geo.h_ctbs * pow2(geo.ctb_log2 as nat),
        slice_addr@.len() == geo.size_ctbs,
        0 <= geo.ctb_rs_at(xc as int, yc as int) < geo.size_ctbs,
    ensures
        r == available_at(geo, slice_addr@, width as int, height as int, xc as int, yc as int, xn as int, yn as int),
{
    if xn < 0 || yn < 0 {
        return false;
    }
    let (xn, yn) = (xn as usize, yn as usize);
    if xn >= width || yn >= height {
        return false;
    }
    if geo.z(xn, yn) > geo.z(xc, yc) {
        return false;
    }
    proof {
        let p = pow2(geo.ctb_log2 as nat) as int;
        vstd::arithmetic::power2::lemma_pow2_pos(geo.ctb_log2 as nat);
        let (w, h) = (geo.w_ctbs as int, geo.h_ctbs as int);
        let (qx, qy) = (xn as int / p, yn as int / p);
        vstd::arithmetic::div_mod::lemma_fundamental_div_mod(xn as int, p);
        vstd::arithmetic::div_mod::lemma_fundamental_div_mod(yn as int, p);
        assert(qx < w && qy < h) by (nonlinear_arith)
            requires
                xn == p * qx + xn as int % p,
                yn == p * qy + yn as int % p,
                xn as int % p >= 0,
                yn as int % p >= 0,
                xn < w * p,
                yn < h * p,
                p > 0,
        ;
        vstd::arithmetic::div_mod::lemma_div_pos_is_pos(xn as int, p);
        vstd::arithmetic::div_mod::lemma_div_pos_is_pos(yn as int, p);
        assert(qy * w + qx < w * h) by (nonlinear_arith)
            requires
                0 <= qx < w,
                0 <= qy < h,
        ;
    }
    let a = geo.ctb_rs(xn, yn);
    let b = geo.ctb_rs(xc, yc);
    geo.tile_id[a] == geo.tile_id[b] && slice_addr[a] == slice_addr[b]
}

/// A position on the coding tree block grid has its block's raster address
/// inside the grid.
pub(crate) proof fn lemma_ctb_inside(geo: &Geometry, x: int, y: int)
    requires
        geo.tables_ok(),
        geo.ctb_log2 < usize::BITS,
        0 <= x < geo.w_ctbs * pow2(geo.ctb_log2 as nat),
        0 <= y < geo.h_ctbs * pow2(geo.ctb_log2 as nat),
    ensures
        0 <= geo.ctb_rs_at(x, y) < geo.size_ctbs,
{
    let p = pow2(geo.ctb_log2 as nat) as int;
    vstd::arithmetic::power2::lemma_pow2_pos(geo.ctb_log2 as nat);
    let (w, h) = (geo.w_ctbs as int, geo.h_ctbs as int);
    let (qx, qy) = (x / p, y / p);
    vstd::arithmetic::div_mod::lemma_fundamental_div_mod(x, p);
    vstd::arithmetic::div_mod::lemma_fundamental_div_mod(y, p);
    assert(qx < w && qy < h) by (nonlinear_arith)
        requires
            x == p * qx + x % p,
            y == p * qy + y % p,
            x % p >= 0,
            y % p >= 0,
            x < w * p,
            y < h * p,
            p > 0,
    ;
    vstd::arithmetic::div_mod::lemma_div_pos_is_pos(x, p);
    vstd::arithmetic::div_mod::lemma_div_pos_is_pos(y, p);
    assert(qy * w + qx < w * h) by (nonlinear_arith)
        requires
            0 <= qx < w,
            0 <= qy < h,
    ;
}

/// `QpY` for `CuQpDeltaVal` `delta` on the predicted `qPY_PRED`
/// (clause 8.6.1): wrapped into `-qp_bd_y ..= 51`.
pub open spec fn qp_y_of(qp_pred: int, delta: int, qp_bd_y: int) -> int {
    (qp_pred + delta + 52 + 2 * qp_bd_y) % (52 + qp_bd_y) - qp_bd_y
}

/// `QpY` always lies in `-QpBdOffsetY ..= 51`, equals the predicted QP
/// plus the delta when that sum is already in range, and differs from it
/// by a multiple of `52 + QpBdOffsetY` otherwise.
pub proof fn lemma_qp_wraps(qp_pred: int, delta: int, qp_bd_y: int)
    requires
        0 <= qp_bd_y,
    ensures
        -qp_bd_y <= qp_y_of(qp_pred, delta, qp_bd_y) <= 51,
        -qp_bd_y <= qp_pred + delta <= 51 ==> qp_y_of(qp_pred, delta, qp_bd_y) == qp_pred + delta,
        (qp_pred + delta - qp_y_of(qp_pred, delta, qp_bd_y)) % (52 + qp_bd_y) == 0,
{
    let m = 52 + qp_bd_y;
    let t = qp_pred + delta + 52 + 2 * qp_bd_y;
    vstd::arithmetic::div_mod::lemma_fundamental_div_mod(t, m);
    if -qp_bd_y <= qp_pred + delta <= 51 {
        vstd::arithmetic::div_mod::lemma_fundamental_div_mod_converse(t, m, 1, qp_pred + delta + qp_bd_y);
    }
    assert(qp_pred + delta - qp_y_of(qp_pred, delta, qp_bd_y) == m * (t / m) - m);
    assert(m * (t / m) - m == (t / m - 1) * m + 0) by (nonlinear_arith);
    vstd::arithmetic::div_mod::lemma_fundamental_div_mod_converse(m * (t / m) - m, m, t / m - 1, 0);
}

/// Applies `CuQpDeltaVal` to the predicted QP (clause 8.6.1), giving `QpY`.
///
/// `qp_bd_y` is `QpBdOffsetY`.
pub fn set_qp_delta(qp_pred: i32, delta: i32, qp_bd_y: i32) -> (r: i32)
    requires
        0 <= qp_bd_y,
        2 * qp_bd_y + 52 <= i32::MAX,
        i32::MIN <= qp_pred + delta,
        qp_pred + delta + 52 + 2 * qp_bd_y <= i32::MAX,
        i32::MIN <= qp_pred + delta + 52 + 2 * qp_bd_y,
        i32::MIN <= qp_pred + delta + 52 <= i32::MAX,
        qp_pred + delta <= i32::MAX,
    ensures
        r == qp_y_of(qp_pred as int, delta as int, qp_bd_y as int),
        -qp_bd_y <= r <= 51,
{
    let m = 52 + qp_bd_y;
    (qp_pred + delta + 52 + 2 * qp_bd_y).checked_rem_euclid(m).unwrap() - qp_bd_y
}

/// `Qp'Y`, the luma QP the scaling process uses.
pub fn qp_luma(qp_y: i32, qp_bd_y: i32) -> (r: i32)
    requires
        i32::MIN <= qp_y + qp_bd_y <= i32::MAX,
    ensures
        r == qp_y + qp_bd_y,
{
    qp_y + qp_bd_y
}

/// `v` clamped into `lo ..= hi`.
pub open spec fn clamp_to(v: int, lo: int, hi: int) -> int {
    if v < lo {
        lo
    } else if v > hi {
        hi
    } else {
        v
    }
}

/// `Qp'Cb` or `Qp'Cr` (clause 8.6.1): the luma QP plus the picture, slice
/// and coding unit offsets of the component, clamped to
/// `-qp_bd_c ..= 57`, mapped through the chroma table, plus `QpBdOffsetC`.
pub fn qp_chroma(qp_y: i32, pps_off: i32, slice_off: i32, cu_off: i32, qp_bd_c: i32, chroma_array_type: u8) -> (r: i32)
    requires
        i32::MIN <= qp_y + pps_off <= i32::MAX,
        i32::MIN <= qp_y + pps_off + slice_off <= i32::MAX,
        i32::MIN <= qp_y + pps_off + slice_off + cu_off <= i32::MAX,
        0 <= qp_bd_c <= i32::MAX - 57,
    ensures
        r == chroma_qp(
            clamp_to(qp_y + pps_off + slice_off + cu_off, -qp_bd_c as int, 57),
            chroma_array_type,
        ) + qp_bd_c,
{
    let v = qp_y + pps_off + slice_off + cu_off;
    let qpi = if v < -qp_bd_c {
        -qp_bd_c
    } else if v > 57 {
        57
    } else {
        v
    };
    chroma_qp_from_luma(qpi, chroma_array_type) + qp_bd_c
}

/// `qPY_A` or `qPY_B` of clause 8.6.1: the QP stored for the neighbour at
/// `(xn, yn)` of the quantisation group at `(x, y)` when it is available
/// and in the same coding tree block, `prev` otherwise.
pub open spec fn qp_neighbour(
    pic: &Picture,
    geo: &Geometry,
    slice_addr: Seq<u32>,
    sps: &Sps,
    x: int,
    y: int,
    xn: int,
    yn: int,
    prev: int,
) -> int {
    if available_at(geo, slice_addr, sps.width as int, sps.height as int, x, y, xn, yn) && geo.ctb_rs_at(xn, yn)
        == geo.ctb_rs_at(x, y) {
        pic.qp_y@[pic.idx4_of(xn, yn)] as int
    } else {
        prev
    }
}

/// The quantization state of the current quantization group.
#[derive(Debug, Clone, Copy)]
pub struct QpGroup {
    /// `qPY_PRED`.
    pub qp_pred: i32,
    /// `QpY` currently in force.
    pub qp_y: i32,
    /// True once `cu_qp_delta_abs` has been parsed in this group.
    pub qp_delta_coded: bool,
}

/// Starts the quantisation group at `(x, y)` (clause 8.6.1): no delta
/// coded yet, `qPY_PRED` the rounded-up mean of the left and upper
/// neighbours' QPs, each replaced by `qPY_PREV` (the slice QP for the
/// first group of a slice, tile or WPP row, else the QP of the coding unit
/// last decoded) when it is unavailable or in another coding tree block,
/// and `QpY` that prediction with a zero delta applied.
pub fn start_qg(
    pic: &Picture,
    geo: &Geometry,
    slice_addr: &[u32],
    sps: &Sps,
    x: usize,
    y: usize,
    first_in_group: bool,
    slice_qp: i32,
    qp_last: i32,
    qp_bd_y: i32,
    qg: &mut QpGroup,
)
    requires
        pic.wf(),
        pic.min4_w > 0,
        pic.min4_h > 0,
        geo.tables_ok(),
        geo.ctb_log2 < usize::BITS,
        geo.min_tb_log2 < usize::BITS,
        sps.width <= geo.w_ctbs * pow2(geo.ctb_log2 as nat),
        sps.height <= geo.h_ctbs * pow2(geo.ctb_log2 as nat),
        slice_addr@.len() == geo.size_ctbs,
        0 <= geo.ctb_rs_at(x as int, y as int) < geo.size_ctbs,
        x <= 0x1000_0000,
        y <= 0x1000_0000,
        -0x1000_0000 <= slice_qp <= 0x1000_0000,
        -0x1000_0000 <= qp_last <= 0x1000_0000,
        0 <= qp_bd_y <= 0x1000_0000,
    ensures
        ({
            let prev = if first_in_group { slice_qp as int } else { qp_last as int };
            let a = qp_neighbour(pic, geo, slice_addr@, sps, x as int, y as int, x - 1, y as int, prev);
            let b = qp_neighbour(pic, geo, slice_addr@, sps, x as int, y as int, x as int, y - 1, prev);
            &&& final(qg).qp_pred == (a + b + 1) / 2
            &&& final(qg).qp_y == qp_y_of((a + b + 1) / 2, 0, qp_bd_y as int)
            &&& !final(qg).qp_delta_coded
        }),
{
    let prev = if first_in_group {
        slice_qp
    } else {
        qp_last
    };
    let _ = pic.qp_y.len();
    let av_a = available(geo, slice_addr, sps.width, sps.height, x, y, x as isize - 1, y as isize);
    proof {
        if av_a {
            lemma_ctb_inside(geo, x - 1, y as int);
        }
    }
    let a = if av_a && geo.ctb_rs(x - 1, y) == geo.ctb_rs(x, y) {
        pic.qp_y[pic.idx4(x - 1, y)] as i32
    } else {
        prev
    };
    let av_b = available(geo, slice_addr, sps.width, sps.height, x, y, x as isize, y as isize - 1);
    proof {
        if av_b {
            lemma_ctb_inside(geo, x as int, y - 1);
        }
    }
    let b = if av_b && geo.ctb_rs(x, y - 1) == geo.ctb_rs(x, y) {
        pic.qp_y[pic.idx4(x, y - 1)] as i32
    } else {
        prev
    };
    let s = a + b + 1;
    proof {
        assert(s >> 1u32 == s / 2) by (bit_vector);
    }
    qg.qp_delta_coded = false;
    qg.qp_pred = s >> 1;
    qg.qp_y = set_qp_delta(qg.qp_pred, 0, qp_bd_y);
}

/// Records the final `QpY` of a coding unit `size` wide at `(x, y)` across
/// its 4x4 blocks, clamped to the `i8` range the picture stores.
pub fn store_qp(pic: &mut Picture, x: usize, y: usize, size: usize, qp_y: i32)
    requires
        size / 4 > 0 ==> (y / 4 + size / 4 - 1) * old(pic).min4_w + x / 4 + size / 4 - 1 <= usize::MAX,
    ensures
        final(pic).qp_y@.len() == old(pic).qp_y@.len(),
        forall|t: int|
            0 <= t < old(pic).qp_y@.len() ==> #[trigger] final(pic).qp_y@[t] == if in_fill(
                t,
                old(pic).min4_w as int,
                (x / 4) as int,
                (y / 4) as int,
                (size / 4) as int,
            ) {
                clamp_to(qp_y as int, -128, 127) as i8
            } else {
                old(pic).qp_y@[t]
            },
        final(pic).y == old(pic).y && final(pic).cb == old(pic).cb && final(pic).cr == old(pic).cr,
        final(pic).min4_w == old(pic).min4_w && final(pic).min4_h == old(pic).min4_h,
        final(pic).intra_mode == old(pic).intra_mode && final(pic).cu_flags == old(pic).cu_flags,
        final(pic).ct_depth == old(pic).ct_depth && final(pic).edges == old(pic).edges,
        final(pic).min8_w == old(pic).min8_w && final(pic).min8_h == old(pic).min8_h,
{
    let v = if qp_y < -128 {
        -128i8
    } else if qp_y > 127 {
        127i8
    } else {
        qp_y as i8
    };
    let w = pic.min4_w;
    Picture::fill4(pic.qp_y.as_mut_slice(), w, x, y, size, v);
}

} // verus!
