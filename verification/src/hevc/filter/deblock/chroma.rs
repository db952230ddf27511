//! The chroma half of the deblocking filter, clause 8.7.2.5.5.
//!
//! Chroma is only ever filtered with the short two-tap form — there is no
//! strong filter and no `dE` derivation — so it shares nothing with the luma
//! path but the tables and the edge walk, both of which stay in the parent
//! module.

use vstd::prelude::*;

use super::super::sao::{clip3, clip3_i32, fits_at, info_ok, locked, max_sample, or_keep, plane_fits};
use super::super::{CtbFilter, FilterInfo, chroma_qp, chroma_qp_from_luma, pow2};
use super::{
    BS, TC_TABLE, depth_factor, entry_pos, is_locked, lemma_shr, lemma_tables, pos, qp_avg, seg_coords,
    seg_pos, seg_sample, tc_of,
};
use crate::hevc::picture::{Picture, Plane, edge};

verus! {

/// Whether the picture has chroma the filter walks.
pub open spec fn chroma_on(info: FilterInfo) -> bool {
    info.chroma_array_type != 0 && info.sub_w != 0 && info.sub_h != 0
}

/// The luma position of the Q side of the chroma segment at edge `e`,
/// start `s`.
pub open spec fn chroma_q_luma(info: FilterInfo, ver: bool, e: int, s: int) -> (int, int) {
    if ver {
        (e * info.sub_w, s * info.sub_h)
    } else {
        (s * info.sub_w, e * info.sub_h)
    }
}

/// The luma position of the P side: one luma sample before the Q side,
/// across the edge.
pub open spec fn chroma_p_luma(info: FilterInfo, ver: bool, e: int, s: int) -> (int, int) {
    let (qx, qy) = chroma_q_luma(info, ver, e, s);
    if ver {
        (qx - 1, qy)
    } else {
        (qx, qy - 1)
    }
}

/// Whether the chroma segment at edge `e`, start `s` is filtered, and if
/// so the Q CTB's parameters, the average luma QP and which sides are
/// locked.
#[verifier::opaque]
pub open spec fn chroma_decision(pic: Picture, info: FilterInfo, ver: bool, e: int, s: int) -> Option<
    (CtbFilter, int, bool, bool),
> {
    let (px, py) = chroma_p_luma(info, ver, e, s);
    let (qx, qy) = chroma_q_luma(info, ver, e, s);
    let qc = info.ctb_at(qx, qy);
    let pc = info.ctb_at(px, py);
    let pl = locked(pic.cu_flags@[pic.idx4_of(px, py)], info.pcm_loop_filter_disabled);
    let ql = locked(pic.cu_flags@[pic.idx4_of(qx, qy)], info.pcm_loop_filter_disabled);
    if qc >= info.ctb@.len() || info.ctb@[qc].deblock_disabled || !info.crossing_allowed(pc, qc) || (pl
        && ql) {
        None
    } else {
        Some((info.ctb@[qc], qp_avg(pic, px, py, qx, qy), pl, ql))
    }
}

/// The chroma `tc` of component `comp` (0 for Cb, 1 for Cr): the luma QP
/// average plus the component's offset, mapped through Table 8-10.
pub open spec fn chroma_tc(info: FilterInfo, cf: CtbFilter, qpl: int, comp: int) -> int {
    let off = if comp == 0 {
        cf.cb_qp_offset
    } else {
        cf.cr_qp_offset
    };
    tc_of(cf.tc_offset_div2, chroma_qp(qpl + off, info.chroma_array_type), info.bit_depth_c)
}

/// What filtering line `i` of the chroma segment at edge `e`, start `s`
/// of plane `pl` writes at `(x, y)`: `p0` and `q0` move by the clipped
/// `Delta` of clause 8.7.2.5.5, each unless its side is locked.
pub open spec fn chroma_line_write(
    pl: Plane,
    ver: bool,
    e: int,
    s: int,
    i: int,
    tc: int,
    max: int,
    p_locked: bool,
    q_locked: bool,
    x: int,
    y: int,
) -> Option<u16> {
    let (li, j) = seg_coords(ver, e, s, x, y);
    let (p1, p0) = (seg_sample(pl, ver, e, s, i, 2) as int, seg_sample(pl, ver, e, s, i, 3) as int);
    let (q0, q1) = (seg_sample(pl, ver, e, s, i, 4) as int, seg_sample(pl, ver, e, s, i, 5) as int);
    let d = clip3(-tc, tc, (4 * (q0 - p0) + p1 - q1 + 4) / 8);
    if li != i {
        None
    } else if j == 3 && !p_locked {
        Some(clip3(0, max, p0 + d) as u16)
    } else if j == 4 && !q_locked {
        Some(clip3(0, max, q0 - d) as u16)
    } else {
        None
    }
}

/// The plane of chroma component `comp` (0 for Cb, 1 for Cr).
pub open spec fn chroma_plane(pic: Picture, comp: int) -> Plane {
    if comp == 0 {
        pic.cb
    } else {
        pic.cr
    }
}

/// What the chroma segment at edge `e`, start `s` writes at `(x, y)` of
/// component `comp`'s plane, if anything.
#[verifier::opaque]
pub open spec fn chroma_seg_write(pic: Picture, info: FilterInfo, ver: bool, e: int, s: int, comp: int, x: int, y: int) -> Option<u16> {
    let (i, j) = seg_coords(ver, e, s, x, y);
    if !(0 <= i < 4 && (j == 3 || j == 4)) {
        None
    } else {
        match chroma_decision(pic, info, ver, e, s) {
            None => None,
            Some((cf, qpl, pl, ql)) => chroma_line_write(
                chroma_plane(pic, comp),
                ver,
                e,
                s,
                i,
                chroma_tc(info, cf, qpl, comp),
                pow2(info.bit_depth_c as nat) - 1,
                pl,
                ql,
                x,
                y,
            ),
        }
    }
}

/// The chroma segment, `(e, s)`, whose filtering may write sample `(x, y)`.
pub open spec fn chroma_seg_of(ver: bool, x: int, y: int) -> (int, int) {
    if ver {
        (8 * ((x + 1) / 8), 4 * (y / 4))
    } else {
        (8 * ((y + 1) / 8), 4 * (x / 4))
    }
}

/// The chroma segment's lines and positions lie inside the plane.
pub open spec fn chroma_inside(pl: Plane, ver: bool, e: int, s: int) -> bool {
    let (elen, slen) = if ver {
        (pl.width as int, pl.height as int)
    } else {
        (pl.height as int, pl.width as int)
    };
    8 <= e && e + 1 < elen && 0 <= s && s + 3 < slen
}

/// Whether the chroma walk filters the segment at edge `e`, start `s`:
/// chroma is present, the segment is inside the plane, and the 8x8 luma
/// cell of its Q side carries an edge of this direction.
pub open spec fn chroma_seg_walked(pic: Picture, info: FilterInfo, ver: bool, e: int, s: int) -> bool {
    let (lx, ly) = chroma_q_luma(info, ver, e, s);
    let c = (ly / 8) * pic.min8_w + lx / 8;
    let kind = if ver {
        edge::VER
    } else {
        edge::HOR
    };
    &&& chroma_on(info)
    &&& e % 8 == 0
    &&& s % 4 == 0
    &&& chroma_inside(pic.cb, ver, e, s)
    &&& 0 <= c < pic.edges@.len()
    &&& pic.edges@[c] & kind != 0
}

/// What one direction's chroma pass writes at `(x, y)` of component
/// `comp`'s plane.
pub open spec fn chroma_dir_write(pic: Picture, info: FilterInfo, ver: bool, comp: int, x: int, y: int) -> Option<u16> {
    let (e, s) = chroma_seg_of(ver, x, y);
    if chroma_seg_walked(pic, info, ver, e, s) {
        chroma_seg_write(pic, info, ver, e, s, comp, x, y)
    } else {
        None
    }
}

/// Everything but the chroma samples is as it was.
pub open spec fn same_but_chroma(a: Picture, b: Picture) -> bool {
    &&& a.y == b.y
    &&& a.cb.width == b.cb.width
    &&& a.cb.height == b.cb.height
    &&& a.cb.stride == b.cb.stride
    &&& a.cb.data@.len() == b.cb.data@.len()
    &&& a.cr.width == b.cr.width
    &&& a.cr.height == b.cr.height
    &&& a.cr.stride == b.cr.stride
    &&& a.cr.data@.len() == b.cr.data@.len()
    &&& a.min4_w == b.min4_w
    &&& a.min4_h == b.min4_h
    &&& a.intra_mode == b.intra_mode
    &&& a.qp_y == b.qp_y
    &&& a.cu_flags == b.cu_flags
    &&& a.ct_depth == b.ct_depth
    &&& a.min8_w == b.min8_w
    &&& a.min8_h == b.min8_h
    &&& a.edges == b.edges
}

/// What the chroma deblocking filter needs: a well-formed picture whose
/// two chroma planes have one geometry, every chroma sample (and the luma
/// sample before it) lying in a CTB the parameters describe, and a bit
/// depth the arithmetic has room for.
pub open spec fn chroma_ready(pic: Picture, info: FilterInfo) -> bool {
    &&& pic.wf()
    &&& info_ok(info)
    &&& info.bit_depth_c <= 30
    &&& pic.cr.width == pic.cb.width
    &&& pic.cr.height == pic.cb.height
    &&& chroma_on(info) ==> pic.min4_w > 0 && pic.min4_h > 0
    &&& chroma_on(info) ==> plane_fits(
        info,
        pic.min4_w as int,
        pic.cb.width as int,
        pic.cb.height as int,
        info.sub_w as int,
        info.sub_h as int,
    )
}

/// A position's CTB address never grows as the position moves up or left.
proof fn lemma_ctb_monotone(info: FilterInfo, x: int, y: int, x2: int, y2: int)
    requires
        0 <= x2 <= x,
        0 <= y2 <= y,
        info.ctb_log2 < usize::BITS,
    ensures
        0 <= info.ctb_at(x2, y2) <= info.ctb_at(x, y),
{
    let side = pow2(info.ctb_log2 as nat) as int;
    vstd::arithmetic::power2::lemma_pow2_pos(info.ctb_log2 as nat);
    vstd::arithmetic::div_mod::lemma_div_is_ordered(x2, x, side);
    vstd::arithmetic::div_mod::lemma_div_is_ordered(y2, y, side);
    vstd::arithmetic::div_mod::lemma_div_pos_is_pos(x2, side);
    vstd::arithmetic::div_mod::lemma_div_pos_is_pos(y2, side);
    assert((y2 / side) * info.pic_w_ctbs <= (y / side) * info.pic_w_ctbs) by (nonlinear_arith)
        requires
            0 <= y2 / side <= y / side,
            info.pic_w_ctbs >= 0,
    ;
    assert(0 <= (y2 / side) * info.pic_w_ctbs) by (nonlinear_arith)
        requires
            0 <= y2 / side,
            info.pic_w_ctbs >= 0,
    ;
}

/// Decide whether the chroma segment at edge `e`, start `s` is filtered.
fn chroma_filterable(pic: &Picture, info: &FilterInfo, ver: bool, e: usize, s: usize) -> (r: Option<
    (CtbFilter, i32, bool, bool),
>)
    requires
        chroma_ready(*pic, *info),
        chroma_on(*info),
        chroma_inside(pic.cb, ver, e as int, s as int),
    ensures
        r matches Some((cf, qpl, pl, ql)) ==> chroma_decision(*pic, *info, ver, e as int, s as int) == Some(
            (cf, qpl as int, pl, ql),
        ) && -128 <= qpl <= 128,
        r is None ==> chroma_decision(*pic, *info, ver, e as int, s as int) is None,
{
    proof {
        reveal(chroma_decision);
    }
    let (sw, sh) = (info.sub_w, info.sub_h);
    let ghost (cx, cy) = if ver {
        (e as int, s as int)
    } else {
        (s as int, e as int)
    };
    proof {
        assert(fits_at(*info, pic.min4_w as int, cx, cy, sw as int, sh as int));
    }
    let (lqx, lqy) = if ver {
        (e * sw, s * sh)
    } else {
        (s * sw, e * sh)
    };
    proof {
        assert(e * sw >= 8) by (nonlinear_arith)
            requires
                e >= 8,
                sw >= 1,
        ;
        assert(e * sh >= 8) by (nonlinear_arith)
            requires
                e >= 8,
                sh >= 1,
        ;
    }
    let (lpx, lpy) = if ver {
        (lqx - 1, lqy)
    } else {
        (lqx, lqy - 1)
    };
    proof {
        lemma_ctb_monotone(*info, lqx as int, lqy as int, lpx as int, lpy as int);
    }
    let qc = info.ctb_of(lqx, lqy);
    if qc >= info.ctb.len() {
        return None;
    }
    let cf = info.ctb[qc];
    if cf.deblock_disabled || !info.may_cross(info.ctb_of(lpx, lpy), qc) {
        return None;
    }
    let n4 = pic.cu_flags.len();
    let (ip, iq) = (pic.idx4(lpx, lpy), pic.idx4(lqx, lqy));
    let pl = is_locked(pic.cu_flags[ip], info);
    let ql = is_locked(pic.cu_flags[iq], info);
    if pl && ql {
        return None;
    }
    let qsum = pic.qp_y[iq] as i32 + pic.qp_y[ip] as i32 + 1;
    proof {
        lemma_shr(qsum);
    }
    Some((cf, qsum >> 1, pl, ql))
}

/// The chroma `tc` of component `comp`.
fn chroma_tc_exec(info: &FilterInfo, cf: &CtbFilter, qpl: i32, comp: usize) -> (r: i32)
    requires
        info.bit_depth_c <= 30,
        -128 <= qpl <= 128,
    ensures
        r == chroma_tc(*info, *cf, qpl as int, comp as int),
        0 <= r <= 24 * 0x40_0000,
{
    proof {
        lemma_tables();
    }
    let off = if comp == 0 {
        cf.cb_qp_offset as i32
    } else {
        cf.cr_qp_offset as i32
    };
    let qpc = chroma_qp_from_luma(qpl + off, info.chroma_array_type);
    let scale = depth_factor(info.bit_depth_c);
    let ti = clip3_i32(0, 53, qpc + 2 * (BS - 1) + 2 * (cf.tc_offset_div2 as i32));
    let tt = TC_TABLE[ti as usize];
    proof {
        assert(0 <= tt <= 24);
        assert(0 <= tt * scale <= 24 * 0x40_0000) by (nonlinear_arith)
            requires
                0 <= tt <= 24,
                1 <= scale <= 0x40_0000,
        ;
    }
    tt * scale
}

/// Filter line `i` of the chroma segment at edge `e`, start `s` of one plane.
fn chroma_line(pl: &mut Plane, ver: bool, e: usize, s: usize, i: usize, tc: i32, max: i32, p_locked: bool, q_locked: bool)
    requires
        old(pl).wf(),
        chroma_inside(*old(pl), ver, e as int, s as int),
        i < 4,
        0 <= tc <= 24 * 0x40_0000,
        0 <= max,
    ensures
        final(pl).wf(),
        final(pl).width == old(pl).width,
        final(pl).height == old(pl).height,
        final(pl).stride == old(pl).stride,
        final(pl).data@.len() == old(pl).data@.len(),
        forall|k: int|
            0 <= k < old(pl).data@.len() ==> #[trigger] final(pl).data@[k] == or_keep(
                chroma_line_write(
                    *old(pl),
                    ver,
                    e as int,
                    s as int,
                    i as int,
                    tc as int,
                    max as int,
                    p_locked,
                    q_locked,
                    entry_pos(k, old(pl).stride as int).0,
                    entry_pos(k, old(pl).stride as int).1,
                ),
                old(pl).data@[k],
            ),
{
    let ghost p0 = *pl;
    let ghost st = pl.stride as int;
    proof {
        lemma_chroma_inside(*pl, ver, e as int, s as int, i as int, 2);
        lemma_chroma_inside(*pl, ver, e as int, s as int, i as int, 3);
        lemma_chroma_inside(*pl, ver, e as int, s as int, i as int, 4);
        lemma_chroma_inside(*pl, ver, e as int, s as int, i as int, 5);
    }
    let (x1, y1) = pos(ver, e, s, i, -2);
    let (x0, y0) = pos(ver, e, s, i, -1);
    let (xq, yq) = pos(ver, e, s, i, 0);
    let (xq1, yq1) = pos(ver, e, s, i, 1);
    let p1 = pl.at(x1, y1) as i32;
    let p0v = pl.at(x0, y0) as i32;
    let q0 = pl.at(xq, yq) as i32;
    let q1 = pl.at(xq1, yq1) as i32;
    let t = 4 * (q0 - p0v) + p1 - q1 + 4;
    proof {
        lemma_shr(t);
    }
    let d = clip3_i32(-tc, tc, t >> 3);
    let ghost before = pl.data@;
    if !p_locked {
        pl.put(x0, y0, clip3_i32(0, max, p0v + d) as u16);
    }
    let ghost mid = pl.data@;
    if !q_locked {
        pl.put(xq, yq, clip3_i32(0, max, q0 - d) as u16);
    }
    proof {
        super::super::sao::lemma_index_split(x0 as int, y0 as int, st);
        super::super::sao::lemma_index_split(xq as int, yq as int, st);
        assert forall|k: int| 0 <= k < p0.data@.len() implies #[trigger] pl.data@[k] == or_keep(
            chroma_line_write(p0, ver, e as int, s as int, i as int, tc as int, max as int, p_locked, q_locked, k % st, k / st),
            p0.data@[k],
        ) by {
            let (li, j) = seg_coords(ver, e as int, s as int, k % st, k / st);
            if li == i && (j == 3 || j == 4) {
                vstd::arithmetic::div_mod::lemma_fundamental_div_mod(k, st);
                assert(st * (k / st) == (k / st) * st) by (nonlinear_arith);
                if j == 3 {
                    assert(k % st == x0 && k / st == y0);
                    assert(k == y0 * st + x0);
                } else {
                    assert(k % st == xq && k / st == yq);
                    assert(k == yq * st + xq);
                }
            } else {
                let ki0 = y0 * st + x0;
                let kiq = yq * st + xq;
                if k == ki0 {
                    assert(seg_coords(ver, e as int, s as int, k % st, k / st) == (i as int, 3int));
                }
                if k == kiq {
                    assert(seg_coords(ver, e as int, s as int, k % st, k / st) == (i as int, 4int));
                }
            }
        }
    }
}

/// Every read and written sample of a chroma segment is inside the plane.
proof fn lemma_chroma_inside(pl: Plane, ver: bool, e: int, s: int, i: int, j: int)
    requires
        pl.wf(),
        chroma_inside(pl, ver, e, s),
        0 <= i < 4,
        2 <= j < 6,
    ensures
        ({
            let (x, y) = seg_pos(ver, e, s, i, j - 4);
            &&& 0 <= x < pl.width
            &&& 0 <= y < pl.height
            &&& 0 <= pl.index_of(x, y) < pl.data@.len()
            &&& seg_coords(ver, e, s, x, y) == (i, j)
            &&& pl.sample(x, y) as i32 == seg_sample(pl, ver, e, s, i, j)
        }),
{
    let (x, y) = seg_pos(ver, e, s, i, j - 4);
    super::super::sao::lemma_sample_in_plane(pl, x, y);
}

/// What filtering all four lines of a chroma segment of plane `pl` writes
/// at `(x, y)`.
pub open spec fn chroma_lines_write(
    pl: Plane,
    ver: bool,
    e: int,
    s: int,
    tc: int,
    max: int,
    p_locked: bool,
    q_locked: bool,
    x: int,
    y: int,
) -> Option<u16> {
    let (i, j) = seg_coords(ver, e, s, x, y);
    if 0 <= i < 4 {
        chroma_line_write(pl, ver, e, s, i, tc, max, p_locked, q_locked, x, y)
    } else {
        None
    }
}

/// Filter the four lines of a chroma segment of one plane.
fn chroma_lines(pl: &mut Plane, ver: bool, e: usize, s: usize, tc: i32, max: i32, p_locked: bool, q_locked: bool)
    requires
        old(pl).wf(),
        chroma_inside(*old(pl), ver, e as int, s as int),
        0 <= tc <= 24 * 0x40_0000,
        0 <= max,
    ensures
        final(pl).wf(),
        final(pl).width == old(pl).width,
        final(pl).height == old(pl).height,
        final(pl).stride == old(pl).stride,
        final(pl).data@.len() == old(pl).data@.len(),
        forall|k: int|
            0 <= k < old(pl).data@.len() ==> #[trigger] final(pl).data@[k] == or_keep(
                chroma_lines_write(
                    *old(pl),
                    ver,
                    e as int,
                    s as int,
                    tc as int,
                    max as int,
                    p_locked,
                    q_locked,
                    entry_pos(k, old(pl).stride as int).0,
                    entry_pos(k, old(pl).stride as int).1,
                ),
                old(pl).data@[k],
            ),
{
    let ghost p0 = *pl;
    let ghost st = pl.stride as int;
    let mut i: usize = 0;
    while i < 4
        invariant
            i <= 4,
            pl.wf(),
            pl.width == p0.width,
            pl.height == p0.height,
            pl.stride == p0.stride,
            st == p0.stride,
            pl.data@.len() == p0.data@.len(),
            p0.wf(),
            chroma_inside(p0, ver, e as int, s as int),
            0 <= tc <= 24 * 0x40_0000,
            0 <= max,
            forall|k: int|
                0 <= k < p0.data@.len() ==> #[trigger] pl.data@[k] == or_keep(
                    if seg_coords(ver, e as int, s as int, k % st, k / st).0 < i {
                        chroma_lines_write(p0, ver, e as int, s as int, tc as int, max as int, p_locked, q_locked, k % st, k / st)
                    } else {
                        None
                    },
                    p0.data@[k],
                ),
        decreases 4 - i,
    {
        let ghost cur = *pl;
        proof {
            assert forall|j: int| 2 <= j < 6 implies #[trigger] seg_sample(cur, ver, e as int, s as int, i as int, j)
                == seg_sample(p0, ver, e as int, s as int, i as int, j) by {
                lemma_chroma_inside(p0, ver, e as int, s as int, i as int, j);
                let (x, y) = seg_pos(ver, e as int, s as int, i as int, j - 4);
                super::super::sao::lemma_index_split(x, y, st);
            }
        }
        chroma_line(pl, ver, e, s, i, tc, max, p_locked, q_locked);
        proof {
            assert forall|k: int| 0 <= k < p0.data@.len() implies #[trigger] pl.data@[k] == or_keep(
                if seg_coords(ver, e as int, s as int, k % st, k / st).0 < i + 1 {
                    chroma_lines_write(p0, ver, e as int, s as int, tc as int, max as int, p_locked, q_locked, k % st, k / st)
                } else {
                    None
                },
                p0.data@[k],
            ) by {
                assert(chroma_line_write(cur, ver, e as int, s as int, i as int, tc as int, max as int, p_locked, q_locked, k % st, k / st)
                    == chroma_line_write(p0, ver, e as int, s as int, i as int, tc as int, max as int, p_locked, q_locked, k % st, k / st));
            }
        }
        i += 1;
    }
    proof {
        assert forall|k: int| 0 <= k < p0.data@.len() implies #[trigger] pl.data@[k] == or_keep(
            chroma_lines_write(p0, ver, e as int, s as int, tc as int, max as int, p_locked, q_locked, k % st, k / st),
            p0.data@[k],
        ) by {
            let (li, j) = seg_coords(ver, e as int, s as int, k % st, k / st);
            if li >= 4 {
                assert(chroma_lines_write(p0, ver, e as int, s as int, tc as int, max as int, p_locked, q_locked, k % st, k / st) is None);
            }
        }
    }
}

/// Filters one four-line chroma segment of both chroma planes.
fn chroma_segment(pic: &mut Picture, info: &FilterInfo, ver: bool, e: usize, s: usize)
    requires
        chroma_ready(*old(pic), *info),
        chroma_on(*info),
        chroma_inside(old(pic).cb, ver, e as int, s as int),
    ensures
        final(pic).wf(),
        same_but_chroma(*final(pic), *old(pic)),
        forall|comp: int, k: int|
            0 <= comp < 2 && 0 <= k < chroma_plane(*old(pic), comp).data@.len() ==> #[trigger] chroma_plane(
                *final(pic),
                comp,
            ).data@[k] == or_keep(
                chroma_seg_write(
                    *old(pic),
                    *info,
                    ver,
                    e as int,
                    s as int,
                    comp,
                    entry_pos(k, chroma_plane(*old(pic), comp).stride as int).0,
                    entry_pos(k, chroma_plane(*old(pic), comp).stride as int).1,
                ),
                chroma_plane(*old(pic), comp).data@[k],
            ),
{
    let ghost p0 = *pic;
    proof {
        reveal(chroma_seg_write);
    }
    let (cf, qpl, pl, ql) = match chroma_filterable(pic, info, ver, e, s) {
        Some(g) => g,
        None => {
            return;
        },
    };
    let max = max_sample(info.bit_depth_c);
    let tc0 = chroma_tc_exec(info, &cf, qpl, 0);
    let tc1 = chroma_tc_exec(info, &cf, qpl, 1);
    chroma_lines(&mut pic.cb, ver, e, s, tc0, max, pl, ql);
    chroma_lines(&mut pic.cr, ver, e, s, tc1, max, pl, ql);
    proof {
        assert forall|comp: int, k: int|
            0 <= comp < 2 && 0 <= k < chroma_plane(p0, comp).data@.len() implies #[trigger] chroma_plane(*pic, comp).data@[k]
            == or_keep(
            chroma_seg_write(
                p0,
                *info,
                ver,
                e as int,
                s as int,
                comp,
                entry_pos(k, chroma_plane(p0, comp).stride as int).0,
                entry_pos(k, chroma_plane(p0, comp).stride as int).1,
            ),
            chroma_plane(p0, comp).data@[k],
        ) by {
            let st = chroma_plane(p0, comp).stride as int;
            let (i, j) = seg_coords(ver, e as int, s as int, k % st, k / st);
            if !(j == 3 || j == 4) && 0 <= i < 4 {
                assert(chroma_line_write(chroma_plane(p0, comp), ver, e as int, s as int, i, if comp == 0 {
                    tc0 as int
                } else {
                    tc1 as int
                }, max as int, pl, ql, k % st, k / st) is None);
            }
        }
    }
}

/// A chroma segment writes only samples that belong to it.
proof fn lemma_chroma_owner(pic: Picture, info: FilterInfo, ver: bool, e: int, s: int, comp: int, x: int, y: int)
    requires
        e % 8 == 0,
        s % 4 == 0,
        chroma_seg_write(pic, info, ver, e, s, comp, x, y) is Some,
    ensures
        chroma_seg_of(ver, x, y) == (e, s),
{
    reveal(chroma_seg_write);
    let (a, b) = if ver {
        (x, y)
    } else {
        (y, x)
    };
    assert((a + 1) / 8 == e / 8) by (nonlinear_arith)
        requires
            e % 8 == 0,
            e <= a + 1 < e + 2,
    ;
    assert(b / 4 == s / 4) by (nonlinear_arith)
        requires
            s % 4 == 0,
            s <= b < s + 4,
    ;
}

/// Whether the chroma walk, now at segment `(e, s)`, has already visited
/// the segment sample `(x, y)` belongs to.
pub open spec fn chroma_before(ver: bool, x: int, y: int, e: int, s: int) -> bool {
    let (e2, s2) = chroma_seg_of(ver, x, y);
    e2 < e || (e2 == e && s2 < s)
}

/// Both chroma planes once the walk reaches segment `(e, s)`.
pub open spec fn chroma_walked_upto(pic: Picture, info: FilterInfo, ver: bool, e: int, s: int, cur: Picture) -> bool {
    forall|comp: int, k: int|
        0 <= comp < 2 && 0 <= k < chroma_plane(pic, comp).data@.len() ==> #[trigger] chroma_plane(cur, comp).data@[k]
            == or_keep(
            if chroma_before(
                ver,
                entry_pos(k, chroma_plane(pic, comp).stride as int).0,
                entry_pos(k, chroma_plane(pic, comp).stride as int).1,
                e,
                s,
            ) {
                chroma_dir_write(
                    pic,
                    info,
                    ver,
                    comp,
                    entry_pos(k, chroma_plane(pic, comp).stride as int).0,
                    entry_pos(k, chroma_plane(pic, comp).stride as int).1,
                )
            } else {
                None
            },
            chroma_plane(pic, comp).data@[k],
        )
}

/// Halfway through the walk, the segment about to be filtered writes what
/// it would have written first.
proof fn lemma_chroma_window(p0: Picture, cur: Picture, info: FilterInfo, ver: bool, e: int, s: int)
    requires
        chroma_ready(p0, info),
        same_but_chroma(cur, p0),
        e % 8 == 0,
        s % 4 == 0,
        chroma_inside(p0.cb, ver, e, s),
        chroma_walked_upto(p0, info, ver, e, s, cur),
    ensures
        forall|comp: int, x: int, y: int|
            0 <= comp < 2 ==> #[trigger] chroma_seg_write(cur, info, ver, e, s, comp, x, y) == chroma_seg_write(
                p0,
                info,
                ver,
                e,
                s,
                comp,
                x,
                y,
            ),
{
    reveal(chroma_seg_write);
    reveal(chroma_decision);
    assert forall|comp: int, x: int, y: int|
        0 <= comp < 2 implies #[trigger] chroma_seg_write(cur, info, ver, e, s, comp, x, y) == chroma_seg_write(
        p0,
        info,
        ver,
        e,
        s,
        comp,
        x,
        y,
    ) by {
        let pl0 = chroma_plane(p0, comp);
        let plc = chroma_plane(cur, comp);
        let st = pl0.stride as int;
        let (i, j) = seg_coords(ver, e, s, x, y);
        if 0 <= i < 4 {
            assert forall|jj: int| 2 <= jj < 6 implies #[trigger] seg_sample(plc, ver, e, s, i, jj) == seg_sample(
                pl0,
                ver,
                e,
                s,
                i,
                jj,
            ) by {
                lemma_chroma_inside(pl0, ver, e, s, i, jj);
                let (px, py) = seg_pos(ver, e, s, i, jj - 4);
                super::super::sao::lemma_index_split(px, py, st);
                let (a, b) = if ver {
                    (px, py)
                } else {
                    (py, px)
                };
                assert(b / 4 == s / 4) by (nonlinear_arith)
                    requires
                        s % 4 == 0,
                        s <= b < s + 4,
                ;
                if jj == 2 {
                    assert((a + 1) / 8 == e / 8 - 1) by (nonlinear_arith)
                        requires
                            e % 8 == 0,
                            a + 1 == e - 1,
                    ;
                    assert(seg_coords(ver, e - 8, s, px, py).1 == 10);
                } else {
                    assert((a + 1) / 8 == e / 8) by (nonlinear_arith)
                        requires
                            e % 8 == 0,
                            e <= a + 1 < e + 3,
                    ;
                }
            }
            assert(seg_sample(plc, ver, e, s, i, 2) == seg_sample(pl0, ver, e, s, i, 2));
            assert(seg_sample(plc, ver, e, s, i, 3) == seg_sample(pl0, ver, e, s, i, 3));
            assert(seg_sample(plc, ver, e, s, i, 4) == seg_sample(pl0, ver, e, s, i, 4));
            assert(seg_sample(plc, ver, e, s, i, 5) == seg_sample(pl0, ver, e, s, i, 5));
        }
    }
}

/// The luma cell index a chroma segment's Q side falls in fits in `usize`.
proof fn lemma_cell_fits(pic: Picture, info: FilterInfo, ver: bool, e: int, s: int)
    requires
        chroma_ready(pic, info),
        chroma_on(info),
        chroma_inside(pic.cb, ver, e, s),
    ensures
        ({
            let (lx, ly) = chroma_q_luma(info, ver, e, s);
            &&& 0 <= lx <= usize::MAX
            &&& 0 <= ly <= usize::MAX
            &&& (ly / 8) * pic.min8_w + lx / 8 <= usize::MAX
        }),
{
    let (cx, cy) = if ver {
        (e, s)
    } else {
        (s, e)
    };
    assert(fits_at(info, pic.min4_w as int, cx, cy, info.sub_w as int, info.sub_h as int));
    let (lx, ly) = chroma_q_luma(info, ver, e, s);
    assert(lx == cx * info.sub_w && ly == cy * info.sub_h);
    assert(0 <= lx && 0 <= ly) by (nonlinear_arith)
        requires
            lx == cx * info.sub_w,
            ly == cy * info.sub_h,
            cx >= 0,
            cy >= 0,
    ;
    assert(pic.min8_w <= pic.min4_w);
    assert((ly / 8) * pic.min8_w <= (ly / 4) * pic.min4_w) by (nonlinear_arith)
        requires
            0 <= ly,
            0 <= pic.min8_w <= pic.min4_w,
    ;
}

/// Filters every marked chroma edge of one direction over the whole picture.
pub(crate) fn chroma_dir(pic: &mut Picture, info: &FilterInfo, ver: bool)
    requires
        chroma_ready(*old(pic), *info),
    ensures
        final(pic).wf(),
        same_but_chroma(*final(pic), *old(pic)),
        forall|comp: int, k: int|
            0 <= comp < 2 && 0 <= k < chroma_plane(*old(pic), comp).data@.len() ==> #[trigger] chroma_plane(
                *final(pic),
                comp,
            ).data@[k] == or_keep(
                chroma_dir_write(
                    *old(pic),
                    *info,
                    ver,
                    comp,
                    entry_pos(k, chroma_plane(*old(pic), comp).stride as int).0,
                    entry_pos(k, chroma_plane(*old(pic), comp).stride as int).1,
                ),
                chroma_plane(*old(pic), comp).data@[k],
            ),
{
    let ghost p0 = *pic;
    if info.chroma_array_type == 0 || info.sub_w == 0 || info.sub_h == 0 {
        return;
    }
    let kind = if ver {
        edge::VER
    } else {
        edge::HOR
    };
    let (sw, sh) = (info.sub_w, info.sub_h);
    let (cw, ch) = (pic.cb.width, pic.cb.height);
    let (elen, slen) = if ver {
        (cw, ch)
    } else {
        (ch, cw)
    };
    let n8 = pic.edges.len();
    let mut e: usize = 8;
    proof {
        lemma_chroma_start(p0, *info, ver);
    }
    while e < elen && elen - e > 1
        invariant
            e >= 8,
            e % 8 == 0,
            chroma_on(*info),
            chroma_ready(*pic, *info),
            chroma_ready(p0, *info),
            same_but_chroma(*pic, p0),
            (sw, sh) == (info.sub_w, info.sub_h),
            (cw, ch) == (p0.cb.width, p0.cb.height),
            (elen, slen) == (if ver {
                (cw, ch)
            } else {
                (ch, cw)
            }),
            n8 == p0.edges@.len(),
            kind == (if ver {
                edge::VER
            } else {
                edge::HOR
            }),
            chroma_walked_upto(p0, *info, ver, e as int, 0, *pic),
            p0 == *old(pic),
        decreases elen - e,
    {
        let mut s: usize = 0;
        while s < slen && slen - s > 3
            invariant
                e >= 8,
                e % 8 == 0,
                s % 4 == 0,
                e + 1 < elen,
                chroma_on(*info),
                chroma_ready(*pic, *info),
                chroma_ready(p0, *info),
                same_but_chroma(*pic, p0),
                (sw, sh) == (info.sub_w, info.sub_h),
                (cw, ch) == (p0.cb.width, p0.cb.height),
                (elen, slen) == (if ver {
                    (cw, ch)
                } else {
                    (ch, cw)
                }),
                n8 == p0.edges@.len(),
                kind == (if ver {
                    edge::VER
                } else {
                    edge::HOR
                }),
                chroma_walked_upto(p0, *info, ver, e as int, s as int, *pic),
                p0 == *old(pic),
            decreases slen - s,
        {
            proof {
                lemma_cell_fits(p0, *info, ver, e as int, s as int);
            }
            let (lx, ly) = if ver {
                (e * sw, s * sh)
            } else {
                (s * sw, e * sh)
            };
            proof {
                vstd::bits::lemma_usize_shr_is_div(lx, 3);
                vstd::bits::lemma_usize_shr_is_div(ly, 3);
                vstd::arithmetic::power2::lemma2_to64();
            }
            let c = (ly >> 3) * pic.min8_w + (lx >> 3);
            let marked = c < n8 && pic.edges[c] & kind != 0;
            let ghost cur = *pic;
            if marked {
                proof {
                    lemma_chroma_window(p0, cur, *info, ver, e as int, s as int);
                }
                chroma_segment(pic, info, ver, e, s);
            }
            proof {
                let (qlx, qly) = chroma_q_luma(*info, ver, e as int, s as int);
                assert(lx == qlx && ly == qly);
                assert(marked == chroma_seg_walked(p0, *info, ver, e as int, s as int));
                lemma_chroma_step(p0, cur, *pic, *info, ver, e as int, s as int);
            }
            s += 4;
        }
        proof {
            lemma_chroma_row_end(p0, *pic, *info, ver, e as int, s as int);
        }
        if elen - e <= 9 {
            proof {
                lemma_chroma_done(p0, *pic, *info, ver, e as int + 8);
            }
            return;
        }
        e += 8;
    }
    proof {
        lemma_chroma_done(p0, *pic, *info, ver, e as int);
    }
}

/// At the start of the walk nothing is filtered yet: the samples of edge
/// zero are never filtered.
proof fn lemma_chroma_start(p0: Picture, info: FilterInfo, ver: bool)
    ensures
        chroma_walked_upto(p0, info, ver, 8, 0, p0),
{
    assert forall|comp: int, k: int|
        0 <= comp < 2 && 0 <= k < chroma_plane(p0, comp).data@.len() implies #[trigger] chroma_plane(p0, comp).data@[k]
        == or_keep(
        if chroma_before(
            ver,
            entry_pos(k, chroma_plane(p0, comp).stride as int).0,
            entry_pos(k, chroma_plane(p0, comp).stride as int).1,
            8,
            0,
        ) {
            chroma_dir_write(
                p0,
                info,
                ver,
                comp,
                entry_pos(k, chroma_plane(p0, comp).stride as int).0,
                entry_pos(k, chroma_plane(p0, comp).stride as int).1,
            )
        } else {
            None
        },
        chroma_plane(p0, comp).data@[k],
    ) by {
    }
}

/// Filtering (or skipping) segment `(e, s)` moves the walk on to `s + 4`.
proof fn lemma_chroma_step(p0: Picture, cur: Picture, next: Picture, info: FilterInfo, ver: bool, e: int, s: int)
    requires
        e % 8 == 0,
        s % 4 == 0,
        same_but_chroma(cur, p0),
        same_but_chroma(next, p0),
        chroma_walked_upto(p0, info, ver, e, s, cur),
        chroma_seg_walked(p0, info, ver, e, s) ==> forall|comp: int, x: int, y: int|
            0 <= comp < 2 ==> #[trigger] chroma_seg_write(cur, info, ver, e, s, comp, x, y) == chroma_seg_write(
                p0,
                info,
                ver,
                e,
                s,
                comp,
                x,
                y,
            ),
        chroma_seg_walked(p0, info, ver, e, s) ==> forall|comp: int, k: int|
            0 <= comp < 2 && 0 <= k < chroma_plane(cur, comp).data@.len() ==> #[trigger] chroma_plane(next, comp).data@[k]
                == or_keep(
                chroma_seg_write(
                    cur,
                    info,
                    ver,
                    e,
                    s,
                    comp,
                    entry_pos(k, chroma_plane(cur, comp).stride as int).0,
                    entry_pos(k, chroma_plane(cur, comp).stride as int).1,
                ),
                chroma_plane(cur, comp).data@[k],
            ),
        !chroma_seg_walked(p0, info, ver, e, s) ==> next == cur,
    ensures
        chroma_walked_upto(p0, info, ver, e, s + 4, next),
{
    assert forall|comp: int, k: int|
        0 <= comp < 2 && 0 <= k < chroma_plane(p0, comp).data@.len() implies #[trigger] chroma_plane(next, comp).data@[k]
        == or_keep(
        if chroma_before(
            ver,
            entry_pos(k, chroma_plane(p0, comp).stride as int).0,
            entry_pos(k, chroma_plane(p0, comp).stride as int).1,
            e,
            s + 4,
        ) {
            chroma_dir_write(
                p0,
                info,
                ver,
                comp,
                entry_pos(k, chroma_plane(p0, comp).stride as int).0,
                entry_pos(k, chroma_plane(p0, comp).stride as int).1,
            )
        } else {
            None
        },
        chroma_plane(p0, comp).data@[k],
    ) by {
        let st = chroma_plane(p0, comp).stride as int;
        let (x, y) = (k % st, k / st);
        let (e2, s2) = chroma_seg_of(ver, x, y);
        let q = if ver {
            (x + 1) / 8
        } else {
            (y + 1) / 8
        };
        assert(e2 == 8 * q);
        if e2 < e + 8 {
            assert(e2 <= e) by (nonlinear_arith)
                requires
                    e2 == 8 * q,
                    e % 8 == 0,
                    e2 < e + 8,
            ;
        }
        assert(chroma_plane(cur, comp).data@[k] == or_keep(
            if chroma_before(ver, x, y, e, s) {
                chroma_dir_write(p0, info, ver, comp, x, y)
            } else {
                None
            },
            chroma_plane(p0, comp).data@[k],
        ));
        if chroma_seg_walked(p0, info, ver, e, s) {
            if chroma_seg_write(p0, info, ver, e, s, comp, x, y) is Some {
                lemma_chroma_owner(p0, info, ver, e, s, comp, x, y);
            }
            assert(chroma_seg_write(cur, info, ver, e, s, comp, x, y) == chroma_seg_write(p0, info, ver, e, s, comp, x, y));
        }
    }
}

/// Past the last segment of an edge, the walk moves to the next edge.
proof fn lemma_chroma_row_end(p0: Picture, cur: Picture, info: FilterInfo, ver: bool, e: int, s: int)
    requires
        same_but_chroma(cur, p0),
        e % 8 == 0,
        s % 4 == 0,
        s >= 0,
        s + 3 >= (if ver {
            p0.cb.height as int
        } else {
            p0.cb.width as int
        }),
        chroma_walked_upto(p0, info, ver, e, s, cur),
    ensures
        chroma_walked_upto(p0, info, ver, e + 8, 0, cur),
{
    assert forall|comp: int, k: int|
        0 <= comp < 2 && 0 <= k < chroma_plane(p0, comp).data@.len() implies #[trigger] chroma_plane(cur, comp).data@[k]
        == or_keep(
        if chroma_before(
            ver,
            entry_pos(k, chroma_plane(p0, comp).stride as int).0,
            entry_pos(k, chroma_plane(p0, comp).stride as int).1,
            e + 8,
            0,
        ) {
            chroma_dir_write(
                p0,
                info,
                ver,
                comp,
                entry_pos(k, chroma_plane(p0, comp).stride as int).0,
                entry_pos(k, chroma_plane(p0, comp).stride as int).1,
            )
        } else {
            None
        },
        chroma_plane(p0, comp).data@[k],
    ) by {
        let st = chroma_plane(p0, comp).stride as int;
        let (x, y) = (k % st, k / st);
        assert(chroma_plane(cur, comp).data@[k] == or_keep(
            if chroma_before(ver, x, y, e, s) {
                chroma_dir_write(p0, info, ver, comp, x, y)
            } else {
                None
            },
            chroma_plane(p0, comp).data@[k],
        ));
    }
}

/// Past the last edge, every sample is as the pass says.
proof fn lemma_chroma_done(p0: Picture, cur: Picture, info: FilterInfo, ver: bool, e: int)
    requires
        same_but_chroma(cur, p0),
        e + 1 >= (if ver {
            p0.cb.width as int
        } else {
            p0.cb.height as int
        }),
        chroma_walked_upto(p0, info, ver, e, 0, cur),
    ensures
        forall|comp: int, k: int|
            0 <= comp < 2 && 0 <= k < chroma_plane(p0, comp).data@.len() ==> #[trigger] chroma_plane(cur, comp).data@[k]
                == or_keep(
                chroma_dir_write(
                    p0,
                    info,
                    ver,
                    comp,
                    entry_pos(k, chroma_plane(p0, comp).stride as int).0,
                    entry_pos(k, chroma_plane(p0, comp).stride as int).1,
                ),
                chroma_plane(p0, comp).data@[k],
            ),
{
    assert forall|comp: int, k: int|
        0 <= comp < 2 && 0 <= k < chroma_plane(p0, comp).data@.len() implies #[trigger] chroma_plane(cur, comp).data@[k]
        == or_keep(
        chroma_dir_write(
            p0,
            info,
            ver,
            comp,
            entry_pos(k, chroma_plane(p0, comp).stride as int).0,
            entry_pos(k, chroma_plane(p0, comp).stride as int).1,
        ),
        chroma_plane(p0, comp).data@[k],
    ) by {
        let st = chroma_plane(p0, comp).stride as int;
        let (x, y) = (k % st, k / st);
        assert(chroma_plane(cur, comp).data@[k] == or_keep(
            if chroma_before(ver, x, y, e, 0) {
                chroma_dir_write(p0, info, ver, comp, x, y)
            } else {
                None
            },
            chroma_plane(p0, comp).data@[k],
        ));
    }
}

} // verus!
