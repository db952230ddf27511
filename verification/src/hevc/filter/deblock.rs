//! Deblocking filter for intra-coded pictures, ITU-T H.265 clause 8.7.2.
//!
//! Every filtered edge of an intra-only picture has boundary strength 2, so the
//! derivation of clause 8.7.2.4 collapses to the constant [`BS`].

pub mod chroma;

use vstd::prelude::*;

use super::sao::{clip3, clip3_i32, comp_plane, fits_at, info_ok, locked, max_sample, or_keep, plane_fits};
use super::{FilterInfo, pow2};
use crate::hevc::picture::{Picture, Plane, cell, edge, flags};
use chroma::{chroma_dir, chroma_dir_write, chroma_plane, chroma_ready, same_but_chroma};

verus! {

/// `beta'` of Table 8-12, indexed by `Q` in `0..=51`.
pub const BETA_TABLE: [i32; 52] = [
    0, 0, 0, 0, 0, 0, 0, 0, 0, 0, 0, 0, 0, 0, 0, 0, 6, 7, 8, 9, 10, 11, 12, 13, 14, 15, 16, 17, 18,
    20, 22, 24, 26, 28, 30, 32, 34, 36, 38, 40, 42, 44, 46, 48, 50, 52, 54, 56, 58, 60, 62, 64,
];

/// `tc'` of Table 8-12, indexed by `Q` in `0..=53`.
pub const TC_TABLE: [i32; 54] = [
    0, 0, 0, 0, 0, 0, 0, 0, 0, 0, 0, 0, 0, 0, 0, 0, 0, 0, 1, 1, 1, 1, 1, 1, 1, 1, 1, 2, 2, 2, 2, 3,
    3, 3, 3, 4, 4, 4, 5, 5, 6, 6, 7, 8, 9, 10, 11, 13, 14, 16, 18, 20, 22, 24,
];

/// Boundary strength of every filtered edge of an intra-only picture.
pub const BS: i32 = 2;

/// `|v|`.
pub open spec fn abs(v: int) -> int {
    if v < 0 {
        -v
    } else {
        v
    }
}

/// The entries of a table never exceed 64, and never go below zero.
proof fn lemma_tables()
    ensures
        forall|q: int| 0 <= q < 52 ==> 0 <= #[trigger] BETA_TABLE@[q] <= 64,
        forall|q: int| 0 <= q < 54 ==> 0 <= #[trigger] TC_TABLE@[q] <= 24,
{
}

/// Arithmetic shifts right of an `i32` are floor divisions by powers of two.
proof fn lemma_shr(v: i32)
    ensures
        (v >> 1u32) == v as int / 2,
        (v >> 2u32) == v as int / 4,
        (v >> 3u32) == v as int / 8,
        (v >> 4u32) == v as int / 16,
{
    assert((v >> 1u32) as int == v as int / 2 && (v >> 2u32) as int == v as int / 4 && (v >> 3u32)
        as int == v as int / 8 && (v >> 4u32) as int == v as int / 16) by (bit_vector);
}

/// The strong filter's output for position `k` (1 to 6) of a line,
/// clause 8.7.2.5.7.
pub open spec fn strong_at(sm: Seq<i32>, tc: int, k: int) -> int {
    let (p3, p2, p1, p0) = (sm[0] as int, sm[1] as int, sm[2] as int, sm[3] as int);
    let (q0, q1, q2, q3) = (sm[4] as int, sm[5] as int, sm[6] as int, sm[7] as int);
    if k == 1 {
        clip3(p2 - 2 * tc, p2 + 2 * tc, (2 * p3 + 3 * p2 + p1 + p0 + q0 + 4) / 8)
    } else if k == 2 {
        clip3(p1 - 2 * tc, p1 + 2 * tc, (p2 + p1 + p0 + q0 + 2) / 4)
    } else if k == 3 {
        clip3(p0 - 2 * tc, p0 + 2 * tc, (p2 + 2 * p1 + 2 * p0 + 2 * q0 + q1 + 4) / 8)
    } else if k == 4 {
        clip3(q0 - 2 * tc, q0 + 2 * tc, (p1 + 2 * p0 + 2 * q0 + 2 * q1 + q2 + 4) / 8)
    } else if k == 5 {
        clip3(q1 - 2 * tc, q1 + 2 * tc, (p0 + q0 + q1 + q2 + 2) / 4)
    } else if k == 6 {
        clip3(q2 - 2 * tc, q2 + 2 * tc, (p0 + q0 + q1 + 3 * q2 + 2 * q3 + 4) / 8)
    } else {
        sm[k] as int
    }
}

/// The weak filter's `Delta` before clipping, clause 8.7.2.5.7.
pub open spec fn weak_raw(sm: Seq<i32>) -> int {
    (9 * (sm[4] - sm[3]) - 3 * (sm[5] - sm[2]) + 8) / 16
}

/// The weak filter's output for position `k` of a line, clause 8.7.2.5.7:
/// `p0` and `q0` move by the clipped `Delta`, `p1` and `q1` by half as much
/// where `dEp` and `dEq` allow, and nothing moves when `Delta` is ten times
/// `tc` or more.
pub open spec fn weak_at(sm: Seq<i32>, dep: bool, deq: bool, tc: int, max: int, k: int) -> int {
    let (p2, p1, p0) = (sm[1] as int, sm[2] as int, sm[3] as int);
    let (q0, q1, q2) = (sm[4] as int, sm[5] as int, sm[6] as int);
    let raw = weak_raw(sm);
    let d = clip3(-tc, tc, raw);
    if abs(raw) >= tc * 10 {
        sm[k] as int
    } else if k == 3 {
        clip3(0, max, p0 + d)
    } else if k == 4 {
        clip3(0, max, q0 - d)
    } else if k == 2 && dep {
        clip3(0, max, p1 + clip3(-(tc / 2), tc / 2, ((p2 + p0 + 1) / 2 - p1 + d) / 2))
    } else if k == 5 && deq {
        clip3(0, max, q1 + clip3(-(tc / 2), tc / 2, ((q2 + q0 + 1) / 2 - q1 - d) / 2))
    } else {
        sm[k] as int
    }
}

/// Position `k` of one luma line after filtering, clause 8.7.2.5.7: `sm`
/// is `p3,p2,p1,p0,q0,q1,q2,q3`; `de` 2 is the strong filter, 1 the weak
/// one, anything else no filter.
pub open spec fn line_out(sm: Seq<i32>, de: u8, dep: bool, deq: bool, tc: int, max: int, k: int) -> int {
    if de == 2 {
        strong_at(sm, tc, k)
    } else if de == 1 {
        weak_at(sm, dep, deq, tc, max, k)
    } else {
        sm[k] as int
    }
}

/// The strong filter of clause 8.7.2.5.7 applied to one line.
#[verifier::rlimit(40)]
fn strong_line(sm: &[i32; 8], tc: i32) -> (r: [i32; 8])
    requires
        forall|k: int| 0 <= k < 8 ==> 0 <= #[trigger] sm@[k] <= 0xffff,
        0 <= tc <= 0x0800_0000,
    ensures
        forall|k: int| 0 <= k < 8 ==> #[trigger] r@[k] as int == strong_at(sm@, tc as int, k),
{
    let mut o = *sm;
    let (p3, p2, p1, p0) = (sm[0], sm[1], sm[2], sm[3]);
    let (q0, q1, q2, q3) = (sm[4], sm[5], sm[6], sm[7]);
    let a3 = p2 + 2 * p1 + 2 * p0 + 2 * q0 + q1 + 4;
    let a2 = p2 + p1 + p0 + q0 + 2;
    let a1 = 2 * p3 + 3 * p2 + p1 + p0 + q0 + 4;
    let a4 = p1 + 2 * p0 + 2 * q0 + 2 * q1 + q2 + 4;
    let a5 = p0 + q0 + q1 + q2 + 2;
    let a6 = p0 + q0 + q1 + 3 * q2 + 2 * q3 + 4;
    proof {
        lemma_shr(a1);
        lemma_shr(a2);
        lemma_shr(a3);
        lemma_shr(a4);
        lemma_shr(a5);
        lemma_shr(a6);
    }
    o[3] = clip3_i32(p0 - 2 * tc, p0 + 2 * tc, a3 >> 3);
    o[2] = clip3_i32(p1 - 2 * tc, p1 + 2 * tc, a2 >> 2);
    o[1] = clip3_i32(p2 - 2 * tc, p2 + 2 * tc, a1 >> 3);
    o[4] = clip3_i32(q0 - 2 * tc, q0 + 2 * tc, a4 >> 3);
    o[5] = clip3_i32(q1 - 2 * tc, q1 + 2 * tc, a5 >> 2);
    o[6] = clip3_i32(q2 - 2 * tc, q2 + 2 * tc, a6 >> 3);
    o
}

/// The weak filter of clause 8.7.2.5.7 applied to one line.
fn weak_line(sm: &[i32; 8], dep: bool, deq: bool, tc: i32, max: i32) -> (r: [i32; 8])
    requires
        forall|k: int| 0 <= k < 8 ==> 0 <= #[trigger] sm@[k] <= 0xffff,
        0 <= tc <= 0x0800_0000,
        0 <= max,
    ensures
        forall|k: int| 0 <= k < 8 ==> #[trigger] r@[k] as int == weak_at(sm@, dep, deq, tc as int, max as int, k),
{
    let mut o = *sm;
    let (p2, p1, p0) = (sm[1], sm[2], sm[3]);
    let (q0, q1, q2) = (sm[4], sm[5], sm[6]);
    let t = 9 * (q0 - p0) - 3 * (q1 - p1) + 8;
    proof {
        lemma_shr(t);
        lemma_shr(tc);
    }
    let raw = t >> 4;
    let mag = if raw < 0 {
        -raw
    } else {
        raw
    };
    if mag < tc * 10 {
        let d = clip3_i32(-tc, tc, raw);
        o[3] = clip3_i32(0, max, p0 + d);
        o[4] = clip3_i32(0, max, q0 - d);
        if dep {
            let h = p2 + p0 + 1;
            proof {
                lemma_shr(h);
            }
            let u = (h >> 1) - p1 + d;
            proof {
                lemma_shr(u);
            }
            let dv = clip3_i32(-(tc >> 1), tc >> 1, u >> 1);
            o[2] = clip3_i32(0, max, p1 + dv);
        }
        if deq {
            let h = q2 + q0 + 1;
            proof {
                lemma_shr(h);
            }
            let u = (h >> 1) - q1 - d;
            proof {
                lemma_shr(u);
            }
            let dv = clip3_i32(-(tc >> 1), tc >> 1, u >> 1);
            o[5] = clip3_i32(0, max, q1 + dv);
        }
    }
    o
}

/// Filters one luma line, clause 8.7.2.5.7; `sm` is `p3,p2,p1,p0,q0,q1,q2,q3`.
fn filter_line(sm: &[i32; 8], de: u8, dep: bool, deq: bool, tc: i32, max: i32) -> (r: [i32; 8])
    requires
        forall|k: int| 0 <= k < 8 ==> 0 <= #[trigger] sm@[k] <= 0xffff,
        0 <= tc <= 0x0800_0000,
        0 <= max,
    ensures
        forall|k: int| 0 <= k < 8 ==> #[trigger] r@[k] as int == line_out(sm@, de, dep, deq, tc as int, max as int, k),
{
    if de == 2 {
        strong_line(sm, tc)
    } else if de == 1 {
        weak_line(sm, dep, deq, tc, max)
    } else {
        *sm
    }
}

/// Coordinates of sample `off` of line `i` of the segment at edge `e`,
/// start `s`: across a vertical edge `off` moves in x, across a horizontal
/// one in y.
pub open spec fn seg_pos(ver: bool, e: int, s: int, i: int, off: int) -> (int, int) {
    if ver {
        (e + off, s + i)
    } else {
        (s + i, e + off)
    }
}

/// Coordinates of sample `off` of line `i` of the segment at edge `e`, start `s`.
fn pos(ver: bool, e: usize, s: usize, i: usize, off: i8) -> (r: (usize, usize))
    requires
        -4 <= off < 4,
        0 <= e + off <= usize::MAX,
        s + i <= usize::MAX,
    ensures
        (r.0 as int, r.1 as int) == seg_pos(ver, e as int, s as int, i as int, off as int),
{
    let t = if off < 0 {
        e - ((-off) as usize)
    } else {
        e + (off as usize)
    };
    if ver {
        (t, s + i)
    } else {
        (s + i, t)
    }
}

/// True when loop filtering must leave the samples of this coding unit alone.
fn is_locked(f: u8, info: &FilterInfo) -> (r: bool)
    ensures
        r == locked(f, info.pcm_loop_filter_disabled),
{
    f & flags::TQ_BYPASS != 0 || (f & flags::PCM != 0 && info.pcm_loop_filter_disabled)
}

/// Sample `j` (0 to 7, `p3` to `q3`) of line `i` of a segment of plane `pl`.
pub open spec fn seg_sample(pl: Plane, ver: bool, e: int, s: int, i: int, j: int) -> i32 {
    let (x, y) = seg_pos(ver, e, s, i, j - 4);
    pl.sample(x, y) as i32
}

/// Line `i` of a segment: `p3,p2,p1,p0,q0,q1,q2,q3`.
pub open spec fn seg_line(pl: Plane, ver: bool, e: int, s: int, i: int) -> Seq<i32> {
    Seq::new(8, |j: int| seg_sample(pl, ver, e, s, i, j))
}

/// `dp` of a line: the second difference on the P side.
pub open spec fn dp_of(l: Seq<i32>) -> int {
    abs(l[1] - 2 * l[2] + l[3])
}

/// `dq` of a line: the second difference on the Q side.
pub open spec fn dq_of(l: Seq<i32>) -> int {
    abs(l[6] - 2 * l[5] + l[4])
}

/// `dSam` of clause 8.7.2.5.6 for a line with activity `dpq`.
pub open spec fn strong_ok(l: Seq<i32>, dpq: int, beta: int, tc: int) -> bool {
    &&& 2 * dpq < beta / 4
    &&& abs(l[0] - l[3]) + abs(l[4] - l[7]) < beta / 8
    &&& abs(l[3] - l[4]) < (5 * tc + 1) / 2
}

/// `2^(bd - 8)`, the factor tables for 8-bit samples are scaled by.
pub open spec fn depth_scale(bd: u8) -> int {
    pow2(if bd >= 8 {
        (bd - 8) as nat
    } else {
        0
    }) as int
}

/// The average luma QP across an edge, `(QpQ + QpP + 1) >> 1`.
pub open spec fn qp_avg(pic: Picture, px: int, py: int, qx: int, qy: int) -> int {
    (pic.qp_y@[pic.idx4_of(qx, qy)] + pic.qp_y@[pic.idx4_of(px, py)] + 1) / 2
}

/// The luma `beta` of clause 8.7.2.5.3 for average QP `qpl`.
pub open spec fn luma_beta(info: FilterInfo, beta_offset_div2: i8, qpl: int) -> int {
    BETA_TABLE@[clip3(0, 51, qpl + 2 * beta_offset_div2)] * depth_scale(info.bit_depth_y)
}

/// The `tc` of clause 8.7.2.5.3 for QP `qp`, offset and bit depth.
pub open spec fn tc_of(tc_offset_div2: i8, qp: int, bd: u8) -> int {
    TC_TABLE@[clip3(0, 53, qp + 2 * (BS - 1) + 2 * tc_offset_div2)] * depth_scale(bd)
}

/// Whether the luma segment at edge `e`, start `s` is filtered at all, and
/// if so with which `(dE, dEp, dEq, tc, P locked, Q locked)`: the Q CTB has
/// parameters with deblocking on, the edge may be crossed, one side at
/// least is not locked, and the activity is below `beta`.
#[verifier::opaque]
pub open spec fn luma_decision(pic: Picture, info: FilterInfo, ver: bool, e: int, s: int) -> Option<
    (u8, bool, bool, int, bool, bool),
> {
    let (px, py) = seg_pos(ver, e, s, 0, -1);
    let (qx, qy) = seg_pos(ver, e, s, 0, 0);
    let qc = info.ctb_at(qx, qy);
    let pc = info.ctb_at(px, py);
    let pl = locked(pic.cu_flags@[pic.idx4_of(px, py)], info.pcm_loop_filter_disabled);
    let ql = locked(pic.cu_flags@[pic.idx4_of(qx, qy)], info.pcm_loop_filter_disabled);
    let qpl = qp_avg(pic, px, py, qx, qy);
    let cf = info.ctb@[qc];
    let beta = luma_beta(info, cf.beta_offset_div2, qpl);
    let tc = tc_of(cf.tc_offset_div2, qpl, info.bit_depth_y);
    let (l0, l3) = (seg_line(pic.y, ver, e, s, 0), seg_line(pic.y, ver, e, s, 3));
    if qc >= info.ctb@.len() || cf.deblock_disabled || !info.crossing_allowed(pc, qc) || (pl && ql) {
        None
    } else {
        match activity(l0, l3, beta, tc) {
            None => None,
            Some((de, dep, deq)) => Some((de, dep, deq, tc, pl, ql)),
        }
    }
}

/// The decisions of clause 8.7.2.5.3 from lines 0 and 3 of a segment: no
/// filtering when the activity reaches `beta`, else `(dE, dEp, dEq)`.
pub open spec fn activity(l0: Seq<i32>, l3: Seq<i32>, beta: int, tc: int) -> Option<(u8, bool, bool)> {
    let (dp0, dq0, dp3, dq3) = (dp_of(l0), dq_of(l0), dp_of(l3), dq_of(l3));
    let (dpq0, dpq3) = (dp0 + dq0, dp3 + dq3);
    if dpq0 + dpq3 >= beta {
        None
    } else {
        let de: u8 = if strong_ok(l0, dpq0, beta, tc) && strong_ok(l3, dpq3, beta, tc) {
            2
        } else {
            1
        };
        let thr = (beta + beta / 2) / 8;
        Some((de, dp0 + dp3 < thr, dq0 + dq3 < thr))
    }
}

/// Which line `i` and position `j` (0 to 7) of the segment at edge `e`,
/// start `s` sample `(x, y)` is.
pub open spec fn seg_coords(ver: bool, e: int, s: int, x: int, y: int) -> (int, int) {
    if ver {
        (y - s, x - e + 4)
    } else {
        (x - s, y - e + 4)
    }
}

/// What filtering line `i` with output `o` writes at `(x, y)`: positions 1
/// to 6, and only on a side that is not locked.
pub open spec fn line_write(
    ver: bool,
    e: int,
    s: int,
    i: int,
    o: Seq<i32>,
    pl: bool,
    ql: bool,
    x: int,
    y: int,
) -> Option<u16> {
    let (li, j) = seg_coords(ver, e, s, x, y);
    if li == i && 1 <= j < 7 && !(j < 4 && pl) && !(j >= 4 && ql) {
        Some(o[j] as u16)
    } else {
        None
    }
}

/// What the luma segment at edge `e`, start `s` writes at `(x, y)`, if
/// anything.
#[verifier::opaque]
pub open spec fn luma_seg_write(pic: Picture, info: FilterInfo, ver: bool, e: int, s: int, x: int, y: int) -> Option<u16> {
    let (i, j) = seg_coords(ver, e, s, x, y);
    if !(0 <= i < 4 && 1 <= j < 7) {
        None
    } else {
        match luma_decision(pic, info, ver, e, s) {
            None => None,
            Some((de, dep, deq, tc, pl, ql)) => {
                let max = pow2(info.bit_depth_y as nat) - 1;
                if !(j < 4 && pl) && !(j >= 4 && ql) {
                    Some(line_out(seg_line(pic.y, ver, e, s, i), de, dep, deq, tc, max, j) as u16)
                } else {
                    None
                }
            },
        }
    }
}

/// Entry `k` of a plane `st` wide, as a sample position.
pub open spec fn entry_pos(k: int, st: int) -> (int, int) {
    (k % st, k / st)
}

/// The segment's lines and positions lie inside the plane: `e` at least
/// four samples in from the edge it runs along, and four lines from `s`.
pub open spec fn seg_inside(pl: Plane, ver: bool, e: int, s: int) -> bool {
    let (elen, slen) = if ver {
        (pl.width as int, pl.height as int)
    } else {
        (pl.height as int, pl.width as int)
    };
    4 <= e && e + 3 < elen && s + 3 < slen && 0 <= s
}

/// Every sample of the segment is inside the plane.
proof fn lemma_seg_inside(pl: Plane, ver: bool, e: int, s: int, i: int, j: int)
    requires
        pl.wf(),
        seg_inside(pl, ver, e, s),
        0 <= i < 4,
        0 <= j < 8,
    ensures
        ({
            let (x, y) = seg_pos(ver, e, s, i, j - 4);
            &&& 0 <= x < pl.width
            &&& 0 <= y < pl.height
            &&& 0 <= pl.index_of(x, y) < pl.data@.len()
            &&& seg_coords(ver, e, s, x, y) == (i, j)
        }),
{
    let (x, y) = seg_pos(ver, e, s, i, j - 4);
    super::sao::lemma_sample_in_plane(pl, x, y);
}

/// Read line `i` of a segment.
fn read_line(pl: &Plane, ver: bool, e: usize, s: usize, i: usize) -> (r: [i32; 8])
    requires
        pl.wf(),
        seg_inside(*pl, ver, e as int, s as int),
        i < 4,
    ensures
        r@ == seg_line(*pl, ver, e as int, s as int, i as int),
        forall|k: int| 0 <= k < 8 ==> 0 <= #[trigger] r@[k] <= 0xffff,
{
    let mut r = [0i32; 8];
    let mut j: usize = 0;
    while j < 8
        invariant
            j <= 8,
            i < 4,
            pl.wf(),
            seg_inside(*pl, ver, e as int, s as int),
            forall|k: int| 0 <= k < j ==> #[trigger] r@[k] == seg_sample(*pl, ver, e as int, s as int, i as int, k),
            forall|k: int| 0 <= k < 8 ==> 0 <= #[trigger] r@[k] <= 0xffff,
        decreases 8 - j,
    {
        proof {
            lemma_seg_inside(*pl, ver, e as int, s as int, i as int, j as int);
        }
        let (x, y) = pos(ver, e, s, i, j as i8 - 4);
        r[j] = pl.at(x, y) as i32;
        j += 1;
    }
    proof {
        assert(r@ =~= seg_line(*pl, ver, e as int, s as int, i as int));
    }
    r
}

/// Write positions 1 to 6 of filtered line `i`, skipping a locked side.
fn write_line(pl: &mut Plane, ver: bool, e: usize, s: usize, i: usize, o: &[i32; 8], p_locked: bool, q_locked: bool)
    requires
        old(pl).wf(),
        seg_inside(*old(pl), ver, e as int, s as int),
        i < 4,
    ensures
        final(pl).wf(),
        final(pl).width == old(pl).width,
        final(pl).height == old(pl).height,
        final(pl).stride == old(pl).stride,
        final(pl).data@.len() == old(pl).data@.len(),
        forall|k: int|
            0 <= k < old(pl).data@.len() ==> #[trigger] final(pl).data@[k] == or_keep(
                line_write(
                    ver,
                    e as int,
                    s as int,
                    i as int,
                    o@,
                    p_locked,
                    q_locked,
                    entry_pos(k, old(pl).stride as int).0,
                    entry_pos(k, old(pl).stride as int).1,
                ),
                old(pl).data@[k],
            ),
{
    let ghost d0 = pl.data@;
    let ghost st = pl.stride as int;
    let mut j: usize = 1;
    while j < 7
        invariant
            1 <= j <= 7,
            i < 4,
            pl.wf(),
            pl.width == old(pl).width,
            pl.height == old(pl).height,
            pl.stride == st,
            st == old(pl).stride,
            pl.data@.len() == d0.len(),
            seg_inside(*pl, ver, e as int, s as int),
            forall|k: int|
                0 <= k < d0.len() ==> #[trigger] pl.data@[k] == if seg_coords(ver, e as int, s as int, k % st, k / st).1 < j {
                    or_keep(
                        line_write(ver, e as int, s as int, i as int, o@, p_locked, q_locked, k % st, k / st),
                        d0[k],
                    )
                } else {
                    d0[k]
                },
        decreases 7 - j,
    {
        proof {
            lemma_seg_inside(*pl, ver, e as int, s as int, i as int, j as int);
        }
        let (x, y) = pos(ver, e, s, i, j as i8 - 4);
        let ghost before = pl.data@;
        let ghost idx = y * st + x;
        if !((j < 4 && p_locked) || (j >= 4 && q_locked)) {
            pl.put(x, y, o[j] as u16);
        }
        proof {
            super::sao::lemma_index_split(x as int, y as int, st);
            assert forall|k: int| 0 <= k < d0.len() implies #[trigger] pl.data@[k] == if seg_coords(ver, e as int, s as int, k % st, k / st).1 < j + 1 {
                or_keep(
                    line_write(ver, e as int, s as int, i as int, o@, p_locked, q_locked, k % st, k / st),
                    d0[k],
                )
            } else {
                d0[k]
            } by {
                if k != idx {
                    assert(pl.data@[k] == before[k]);
                    if seg_coords(ver, e as int, s as int, k % st, k / st).1 == j as int && line_write(ver, e as int, s as int, i as int, o@, p_locked, q_locked, k % st, k / st) is Some {
                        vstd::arithmetic::div_mod::lemma_fundamental_div_mod(k, st);
                        assert(k % st == x && k / st == y);
                        assert(st * (k / st) == (k / st) * st) by (nonlinear_arith);
                        assert(k == idx);
                    }
                }
            }
        }
        j += 1;
    }
    proof {
        assert forall|k: int| 0 <= k < d0.len() implies #[trigger] pl.data@[k] == or_keep(
            line_write(ver, e as int, s as int, i as int, o@, p_locked, q_locked, k % st, k / st),
            d0[k],
        ) by {
        }
    }
}

/// The decision thresholds scale with the bit depth as `2^(bd - 8)`: the
/// factor is 1 up to 8 bits (so `beta` and `tc` are the table entries
/// themselves), 4 at 10 bits and 16 at 12, and each further bit doubles it,
/// and with it `beta` and `tc`.
pub proof fn lemma_depth_scaling(bd: u8, i0: FilterInfo, i1: FilterInfo, off: i8, qp: int)
    ensures
        bd <= 8 ==> depth_scale(bd) == 1,
        depth_scale(10) == 4,
        depth_scale(12) == 16,
        8 <= bd < 255 ==> depth_scale((bd + 1) as u8) == 2 * depth_scale(bd),
        8 <= bd < 255 ==> tc_of(off, qp, (bd + 1) as u8) == 2 * tc_of(off, qp, bd),
        8 <= i0.bit_depth_y && i1.bit_depth_y == i0.bit_depth_y + 1 ==> luma_beta(i1, off, qp) == 2 * luma_beta(
            i0,
            off,
            qp,
        ),
        i0.bit_depth_y == 8 ==> luma_beta(i0, off, qp) == BETA_TABLE@[clip3(0, 51, qp + 2 * off)],
        tc_of(off, qp, 8) == TC_TABLE@[clip3(0, 53, qp + 2 * (BS - 1) + 2 * off)],
{
    vstd::arithmetic::power2::lemma2_to64();
    if 8 <= bd < 255 {
        vstd::arithmetic::power2::lemma_pow2_unfold((bd + 1 - 8) as nat);
        let t = TC_TABLE@[clip3(0, 53, qp + 2 * (BS - 1) + 2 * off)] as int;
        let p = pow2((bd - 8) as nat) as int;
        assert(t * (2 * p) == 2 * (t * p)) by (nonlinear_arith);
    }
    if 8 <= i0.bit_depth_y && i1.bit_depth_y == i0.bit_depth_y + 1 {
        vstd::arithmetic::power2::lemma_pow2_unfold((i1.bit_depth_y - 8) as nat);
        let b = BETA_TABLE@[clip3(0, 51, qp + 2 * off)] as int;
        let p = pow2((i0.bit_depth_y - 8) as nat) as int;
        assert(b * (2 * p) == 2 * (b * p)) by (nonlinear_arith);
    }
}

/// The shape of Tables 8-12: `beta'` is zero up to `Q = 15`, then rises by
/// one per step from 6 at `Q = 16` to 18 at `Q = 28`, then by two per step
/// to 64 at `Q = 51`; `tc'` is zero up to `Q = 17`, one from 18, never
/// falls, rises by at most two per step, and ends at 24 at `Q = 53`.
pub proof fn lemma_threshold_tables()
    ensures
        forall|q: int|
            0 <= q < 52 ==> #[trigger] BETA_TABLE@[q] == if q < 16 {
                0
            } else if q <= 28 {
                q - 10
            } else {
                2 * q - 38
            },
        forall|q: int| 0 <= q < 18 ==> #[trigger] TC_TABLE@[q] == 0,
        TC_TABLE@[18] == 1,
        TC_TABLE@[53] == 24,
        forall|q: int| 0 <= q < 53 ==> 0 <= #[trigger] TC_TABLE@[q + 1] - TC_TABLE@[q] <= 2,
{
}

/// A line of eight samples read from the other side of the edge:
/// `q3,q2,q1,q0,p0,p1,p2,p3`.
pub open spec fn mirrored(sm: Seq<i32>) -> Seq<i32> {
    Seq::new(8, |i: int| sm[7 - i])
}

/// The line filters of clause 8.7.2.5.7 leave a flat line as it is; the
/// strong filter changes only `p2..q2`, each by at most `2 tc`, and treats
/// the `p` and `q` sides alike (filtering the mirrored line gives the
/// mirrored result); the weak filter changes only `p1..q1`, `p0` and `q0`
/// by at most `tc` and `p1` and `q1` by at most `tc / 2`.
pub proof fn lemma_line_filters(sm: Seq<i32>, dep: bool, deq: bool, tc: int, max: int, v: int)
    requires
        sm.len() == 8,
        tc >= 0,
        forall|k: int| 0 <= k < 8 ==> 0 <= #[trigger] sm[k] <= max,
    ensures
        (forall|k: int| 0 <= k < 8 ==> #[trigger] sm[k] == v) ==> forall|k: int|
            0 <= k < 8 ==> #[trigger] strong_at(sm, tc, k) == v && weak_at(sm, dep, deq, tc, max, k) == v,
        forall|k: int| 0 <= k < 8 ==> #[trigger] strong_at(mirrored(sm), tc, k) == strong_at(
            sm,
            tc,
            7 - k,
        ),
        forall|k: int| 1 <= k <= 6 ==> #[trigger] abs(strong_at(sm, tc, k) - sm[k]) <= 2 * tc,
        strong_at(sm, tc, 0) == sm[0] && strong_at(sm, tc, 7) == sm[7],
        abs(weak_at(sm, dep, deq, tc, max, 3) - sm[3]) <= tc,
        abs(weak_at(sm, dep, deq, tc, max, 4) - sm[4]) <= tc,
        abs(weak_at(sm, dep, deq, tc, max, 2) - sm[2]) <= tc / 2,
        abs(weak_at(sm, dep, deq, tc, max, 5) - sm[5]) <= tc / 2,
        forall|k: int|
            0 <= k < 8 && (k < 2 || k > 5) ==> #[trigger] weak_at(sm, dep, deq, tc, max, k) == sm[k],
{
    let m = mirrored(sm);
    assert forall|k: int| 0 <= k < 8 implies #[trigger] strong_at(m, tc, k) == strong_at(sm, tc, 7 - k) by {
        assert(m[0] == sm[7] && m[1] == sm[6] && m[2] == sm[5] && m[3] == sm[4]);
        assert(m[4] == sm[3] && m[5] == sm[2] && m[6] == sm[1] && m[7] == sm[0]);
    }
    if forall|k: int| 0 <= k < 8 ==> #[trigger] sm[k] == v {
        assert(sm[0] == v && sm[1] == v && sm[2] == v && sm[3] == v);
        assert(sm[4] == v && sm[5] == v && sm[6] == v && sm[7] == v);
        assert(weak_raw(sm) == 0);
    }
}

/// `2^(bd - 8)` for a bit depth of at most 30.
fn depth_factor(bd: u8) -> (r: i32)
    requires
        bd <= 30,
    ensures
        r == depth_scale(bd),
        1 <= r <= 0x40_0000,
{
    let sh: u32 = if bd >= 8 {
        (bd - 8) as u32
    } else {
        0
    };
    proof {
        vstd::arithmetic::power2::lemma2_to64();
        vstd::arithmetic::power2::lemma_pow2_pos(sh as nat);
        if sh < 22 {
            vstd::arithmetic::power2::lemma_pow2_strictly_increases(sh as nat, 22);
        }
        vstd::bits::lemma_u32_shl_is_mul(1, sh);
    }
    (1u32 << sh) as i32
}

/// `|v|` for a value well inside the `i32` range.
fn abs_i32(v: i32) -> (r: i32)
    requires
        v > i32::MIN,
    ensures
        r == abs(v as int),
{
    if v < 0 {
        -v
    } else {
        v
    }
}

/// Everything but the luma samples is as it was.
pub open spec fn same_but_luma(a: Picture, b: Picture) -> bool {
    &&& a.y.width == b.y.width
    &&& a.y.height == b.y.height
    &&& a.y.stride == b.y.stride
    &&& a.y.data@.len() == b.y.data@.len()
    &&& a.cb == b.cb
    &&& a.cr == b.cr
    &&& a.min4_w == b.min4_w
    &&& a.min4_h == b.min4_h
    &&& a.intra_mode == b.intra_mode
    &&& a.qp_y == b.qp_y
    &&& a.cu_flags == b.cu_flags
    &&& a.ct_depth == b.ct_depth
    &&& a.min8_w == b.min8_w
    &&& a.min8_h == b.min8_h
    &&& a.edges == b.edges
}

/// What the luma deblocking filter needs of the picture and its parameters:
/// a well-formed picture whose every luma sample lies in a CTB the
/// parameters describe, and a bit depth the arithmetic has room for.
pub open spec fn luma_ready(pic: Picture, info: FilterInfo) -> bool {
    &&& pic.wf()
    &&& info_ok(info)
    &&& plane_fits(info, pic.min4_w as int, pic.y.width as int, pic.y.height as int, 1, 1)
    &&& info.bit_depth_y <= 30
}

/// Whether a luma segment is filtered: its Q CTB has parameters with deblocking on,
/// the edge may be crossed, and one side at least is not locked. Gives the
/// Q CTB's parameters, the average QP and which sides are locked.
fn luma_filterable(pic: &Picture, info: &FilterInfo, ver: bool, e: usize, s: usize) -> (r: Option<
    (super::CtbFilter, i32, bool, bool),
>)
    requires
        luma_ready(*pic, *info),
        seg_inside(pic.y, ver, e as int, s as int),
    ensures
        ({
            let (px, py) = seg_pos(ver, e as int, s as int, 0, -1);
            let (qx, qy) = seg_pos(ver, e as int, s as int, 0, 0);
            let qc = info.ctb_at(qx, qy);
            let pc = info.ctb_at(px, py);
            let pl = locked(pic.cu_flags@[pic.idx4_of(px, py)], info.pcm_loop_filter_disabled);
            let ql = locked(pic.cu_flags@[pic.idx4_of(qx, qy)], info.pcm_loop_filter_disabled);
            let open = qc < info.ctb@.len() && !info.ctb@[qc].deblock_disabled && info.crossing_allowed(pc, qc)
                && !(pl && ql);
            &&& r is Some <==> open
            &&& r matches Some((cf, qpl, rpl, rql)) ==> cf == info.ctb@[qc] && qpl == qp_avg(*pic, px, py, qx, qy) && rpl == pl && rql == ql
            &&& r matches Some((cf, qpl, rpl, rql)) ==> -128 <= qpl <= 128
        }),
{
    proof {
        lemma_seg_inside(pic.y, ver, e as int, s as int, 0, 3);
        lemma_seg_inside(pic.y, ver, e as int, s as int, 0, 4);
    }
    let (px, py) = pos(ver, e, s, 0, -1);
    let (qx, qy) = pos(ver, e, s, 0, 0);
    proof {
        assert(fits_at(*info, pic.min4_w as int, qx as int, qy as int, 1, 1));
        assert(fits_at(*info, pic.min4_w as int, px as int, py as int, 1, 1));
    }
    let qc = info.ctb_of(qx, qy);
    if qc >= info.ctb.len() {
        return None;
    }
    let cf = info.ctb[qc];
    if cf.deblock_disabled || !info.may_cross(info.ctb_of(px, py), qc) {
        return None;
    }
    let n4 = pic.cu_flags.len();
    let (ip, iq) = (pic.idx4(px, py), pic.idx4(qx, qy));
    let pl = is_locked(pic.cu_flags[ip], info);
    let ql = is_locked(pic.cu_flags[iq], info);
    if pl && ql {
        return None;
    }
    let qsum = pic.qp_y[iq] as i32 + pic.qp_y[ip] as i32 + 1;
    proof {
        lemma_shr(qsum);
    }
    Some((cf, qsum >> 1, pl, ql))
}

/// `beta` and `tc` for a luma edge with average QP `qpl` under CTB
/// parameters `cf`.
fn luma_thresholds(info: &FilterInfo, cf: &super::CtbFilter, qpl: i32) -> (r: (i32, i32))
    requires
        info.bit_depth_y <= 30,
        -128 <= qpl <= 128,
    ensures
        r.0 == luma_beta(*info, cf.beta_offset_div2, qpl as int),
        r.1 == tc_of(cf.tc_offset_div2, qpl as int, info.bit_depth_y),
        0 <= r.0 <= 64 * 0x40_0000,
        0 <= r.1 <= 24 * 0x40_0000,
{
    proof {
        lemma_tables();
    }
    let scale = depth_factor(info.bit_depth_y);
    let bi = clip3_i32(0, 51, qpl + 2 * (cf.beta_offset_div2 as i32));
    let ti = clip3_i32(0, 53, qpl + 2 * (BS - 1) + 2 * (cf.tc_offset_div2 as i32));
    let (bt, tt) = (BETA_TABLE[bi as usize], TC_TABLE[ti as usize]);
    proof {
        assert(0 <= bt <= 64 && 0 <= tt <= 24);
        assert(0 <= bt * scale <= 64 * 0x40_0000) by (nonlinear_arith)
            requires
                0 <= bt <= 64,
                1 <= scale <= 0x40_0000,
        ;
        assert(0 <= tt * scale <= 24 * 0x40_0000) by (nonlinear_arith)
            requires
                0 <= tt <= 24,
                1 <= scale <= 0x40_0000,
        ;
    }
    (bt * scale, tt * scale)
}

/// `dSam` for one line with activity `dpq`.
fn line_strong_ok(l: &[i32; 8], dpq: i32, beta: i32, tc: i32) -> (r: bool)
    requires
        forall|k: int| 0 <= k < 8 ==> 0 <= #[trigger] l@[k] <= 0xffff,
        0 <= dpq <= 0x10_0000,
        0 <= beta <= 64 * 0x40_0000,
        0 <= tc <= 24 * 0x40_0000,
    ensures
        r == strong_ok(l@, dpq as int, beta as int, tc as int),
{
    let t5 = 5 * tc + 1;
    proof {
        lemma_shr(beta);
        lemma_shr(t5);
    }
    2 * dpq < (beta >> 2) && abs_i32(l[0] - l[3]) + abs_i32(l[4] - l[7]) < (beta >> 3) && abs_i32(
        l[3] - l[4],
    ) < (t5 >> 1)
}

/// The decisions of clause 8.7.2.5.3 from lines 0 and 3.
fn line_activity(l0: &[i32; 8], l3: &[i32; 8], beta: i32, tc: i32) -> (r: Option<(u8, bool, bool)>)
    requires
        forall|k: int| 0 <= k < 8 ==> 0 <= #[trigger] l0@[k] <= 0xffff,
        forall|k: int| 0 <= k < 8 ==> 0 <= #[trigger] l3@[k] <= 0xffff,
        0 <= beta <= 64 * 0x40_0000,
        0 <= tc <= 24 * 0x40_0000,
    ensures
        r == activity(l0@, l3@, beta as int, tc as int),
{
    let dp0 = abs_i32(l0[1] - 2 * l0[2] + l0[3]);
    let dq0 = abs_i32(l0[6] - 2 * l0[5] + l0[4]);
    let dp3 = abs_i32(l3[1] - 2 * l3[2] + l3[3]);
    let dq3 = abs_i32(l3[6] - 2 * l3[5] + l3[4]);
    let (dpq0, dpq3) = (dp0 + dq0, dp3 + dq3);
    if dpq0 + dpq3 >= beta {
        return None;
    }
    let de: u8 = if line_strong_ok(l0, dpq0, beta, tc) && line_strong_ok(l3, dpq3, beta, tc) {
        2
    } else {
        1
    };
    proof {
        lemma_shr(beta);
    }
    let b3 = beta + (beta >> 1);
    proof {
        lemma_shr(b3);
    }
    let thr = b3 >> 3;
    Some((de, dp0 + dp3 < thr, dq0 + dq3 < thr))
}

/// Decide how the luma segment at edge `e`, start `s` is filtered, reading
/// its lines 0 and 3.
fn luma_decide(pic: &Picture, info: &FilterInfo, ver: bool, e: usize, s: usize) -> (r: Option<
    (u8, bool, bool, i32, bool, bool),
>)
    requires
        luma_ready(*pic, *info),
        seg_inside(pic.y, ver, e as int, s as int),
    ensures
        r matches Some((de, dep, deq, tc, pl, ql)) ==> luma_decision(*pic, *info, ver, e as int, s as int)
            == Some((de, dep, deq, tc as int, pl, ql)) && 0 <= tc <= 0x0800_0000,
        r is None ==> luma_decision(*pic, *info, ver, e as int, s as int) is None,
{
    proof {
        reveal(luma_decision);
    }
    let (cf, qpl, pl, ql) = match luma_filterable(pic, info, ver, e, s) {
        Some(g) => g,
        None => {
            return None;
        },
    };
    let (beta, tc) = luma_thresholds(info, &cf, qpl);
    let l0 = read_line(&pic.y, ver, e, s, 0);
    let l3 = read_line(&pic.y, ver, e, s, 3);
    match line_activity(&l0, &l3, beta, tc) {
        None => None,
        Some((de, dep, deq)) => Some((de, dep, deq, tc, pl, ql)),
    }
}

/// Filters one four-line luma segment of the edge at `e` starting at `s`.
fn luma_segment(pic: &mut Picture, info: &FilterInfo, ver: bool, e: usize, s: usize)
    requires
        luma_ready(*old(pic), *info),
        seg_inside(old(pic).y, ver, e as int, s as int),
    ensures
        final(pic).wf(),
        same_but_luma(*final(pic), *old(pic)),
        forall|k: int|
            0 <= k < old(pic).y.data@.len() ==> #[trigger] final(pic).y.data@[k] == or_keep(
                luma_seg_write(
                    *old(pic),
                    *info,
                    ver,
                    e as int,
                    s as int,
                    entry_pos(k, old(pic).y.stride as int).0,
                    entry_pos(k, old(pic).y.stride as int).1,
                ),
                old(pic).y.data@[k],
            ),
{
    let ghost p0 = *pic;
    let ghost st = pic.y.stride as int;
    proof {
        reveal(luma_seg_write);
    }
    let (de, dep, deq, tc, pl, ql) = match luma_decide(pic, info, ver, e, s) {
        Some(d) => d,
        None => {
            return;
        },
    };
    let max = max_sample(info.bit_depth_y);
    let l0 = read_line(&pic.y, ver, e, s, 0);
    let l1 = read_line(&pic.y, ver, e, s, 1);
    let l2 = read_line(&pic.y, ver, e, s, 2);
    let l3 = read_line(&pic.y, ver, e, s, 3);
    let o0 = filter_line(&l0, de, dep, deq, tc, max);
    let o1 = filter_line(&l1, de, dep, deq, tc, max);
    let o2 = filter_line(&l2, de, dep, deq, tc, max);
    let o3 = filter_line(&l3, de, dep, deq, tc, max);
    let ghost d0 = pic.y.data@;
    write_line(&mut pic.y, ver, e, s, 0, &o0, pl, ql);
    write_line(&mut pic.y, ver, e, s, 1, &o1, pl, ql);
    write_line(&mut pic.y, ver, e, s, 2, &o2, pl, ql);
    write_line(&mut pic.y, ver, e, s, 3, &o3, pl, ql);
    proof {
        assert forall|k: int| 0 <= k < d0.len() implies #[trigger] pic.y.data@[k] == or_keep(
            luma_seg_write(p0, *info, ver, e as int, s as int, k % st, k / st),
            d0[k],
        ) by {
            let (i, j) = seg_coords(ver, e as int, s as int, k % st, k / st);
            let mx = pow2(info.bit_depth_y as nat) - 1;
            if 0 <= i < 4 && 1 <= j < 7 && !(j < 4 && pl) && !(j >= 4 && ql) {
                if i == 0 {
                    assert(o0@[j] as int == line_out(l0@, de, dep, deq, tc as int, mx, j));
                } else if i == 1 {
                    assert(o1@[j] as int == line_out(l1@, de, dep, deq, tc as int, mx, j));
                } else if i == 2 {
                    assert(o2@[j] as int == line_out(l2@, de, dep, deq, tc as int, mx, j));
                } else {
                    assert(o3@[j] as int == line_out(l3@, de, dep, deq, tc as int, mx, j));
                }
            }
        }
    }
}

/// The luma segment, `(e, s)`, whose filtering may write sample `(x, y)`:
/// the nearest edge on the 8-sample grid within three samples before or
/// two after, and the four lines from the multiple of four at or before.
pub open spec fn luma_seg_of(ver: bool, x: int, y: int) -> (int, int) {
    if ver {
        (8 * ((x + 3) / 8), 4 * (y / 4))
    } else {
        (8 * ((y + 3) / 8), 4 * (x / 4))
    }
}

/// The 8x8 cell `(bx, by)` an edge `e` and start `s` belong to.
pub open spec fn seg_cell(ver: bool, e: int, s: int) -> (int, int) {
    if ver {
        (e / 8, s / 8)
    } else {
        (s / 8, e / 8)
    }
}

/// Whether the luma walk filters the segment at edge `e`, start `s`: its
/// cell carries an edge of this direction, and the edge is neither the
/// picture's own border nor too close to the far side.
pub open spec fn luma_seg_walked(pic: Picture, ver: bool, e: int, s: int) -> bool {
    let (bx, by) = seg_cell(ver, e, s);
    let kind = if ver {
        edge::VER
    } else {
        edge::HOR
    };
    &&& 0 <= bx < pic.min8_w
    &&& 0 <= by < pic.min8_h
    &&& cell(pic.edges@, pic.min8_w as int, bx, by) & kind != 0
    &&& e != 0
    &&& seg_inside(pic.y, ver, e, s)
}

/// What one direction's luma pass writes at `(x, y)`: the write of the one
/// segment that may change it, if the walk filters that segment.
pub open spec fn luma_dir_write(pic: Picture, info: FilterInfo, ver: bool, x: int, y: int) -> Option<u16> {
    let (e, s) = luma_seg_of(ver, x, y);
    if luma_seg_walked(pic, ver, e, s) {
        luma_seg_write(pic, info, ver, e, s, x, y)
    } else {
        None
    }
}

/// A sample at positions 1 to 6 of a line of the segment at `(e, s)`
/// belongs to that segment.
proof fn lemma_owner(ver: bool, e: int, s: int, x: int, y: int)
    requires
        e % 8 == 0,
        s % 4 == 0,
        0 <= seg_coords(ver, e, s, x, y).0 < 4,
        1 <= seg_coords(ver, e, s, x, y).1 < 7,
    ensures
        luma_seg_of(ver, x, y) == (e, s),
{
    let (a, b) = if ver {
        (x, y)
    } else {
        (y, x)
    };
    assert((a + 3) / 8 == e / 8) by (nonlinear_arith)
        requires
            e % 8 == 0,
            e <= a + 3 < e + 6,
    ;
    assert(b / 4 == s / 4) by (nonlinear_arith)
        requires
            s % 4 == 0,
            s <= b < s + 4,
    ;
}

/// A segment writes only at positions 1 to 6 of its four lines.
proof fn lemma_write_range(pic: Picture, info: FilterInfo, ver: bool, e: int, s: int, x: int, y: int)
    requires
        luma_seg_write(pic, info, ver, e, s, x, y) is Some,
    ensures
        0 <= seg_coords(ver, e, s, x, y).0 < 4,
        1 <= seg_coords(ver, e, s, x, y).1 < 7,
{
    reveal(luma_seg_write);
}

/// A sample of the window of the segment at `(e, s)` either belongs to it
/// or is the line's `p3`, which belongs to the segment eight before and is
/// never written by it.
proof fn lemma_window_owner(pic: Picture, info: FilterInfo, ver: bool, e: int, s: int, i: int, j: int)
    requires
        e % 8 == 0,
        s % 4 == 0,
        0 <= i < 4,
        0 <= j < 8,
    ensures
        ({
            let (x, y) = seg_pos(ver, e, s, i, j - 4);
            luma_seg_of(ver, x, y) == (e, s) || luma_dir_write(pic, info, ver, x, y) is None
        }),
{
    let (x, y) = seg_pos(ver, e, s, i, j - 4);
    let (a, b) = if ver {
        (x, y)
    } else {
        (y, x)
    };
    assert(b / 4 == s / 4) by (nonlinear_arith)
        requires
            s % 4 == 0,
            s <= b < s + 4,
    ;
    if j == 0 {
        assert((a + 3) / 8 == e / 8 - 1) by (nonlinear_arith)
            requires
                e % 8 == 0,
                a + 3 == e - 1,
        ;
        assert(seg_coords(ver, e - 8, s, x, y).1 == 8);
        reveal(luma_seg_write);
    } else {
        assert((a + 3) / 8 == e / 8) by (nonlinear_arith)
            requires
                e % 8 == 0,
                e <= a + 3 < e + 7,
        ;
    }
}

/// Two pictures that agree on a segment's window and side information
/// write the same there.
proof fn lemma_same_window(a: Picture, b: Picture, info: FilterInfo, ver: bool, e: int, s: int)
    requires
        a.cu_flags == b.cu_flags,
        a.qp_y == b.qp_y,
        a.min4_w == b.min4_w,
        a.min4_h == b.min4_h,
        a.y.width == b.y.width,
        a.y.height == b.y.height,
        a.y.stride == b.y.stride,
        forall|i: int, j: int|
            0 <= i < 4 && 0 <= j < 8 ==> #[trigger] seg_sample(a.y, ver, e, s, i, j) == seg_sample(
                b.y,
                ver,
                e,
                s,
                i,
                j,
            ),
    ensures
        forall|x: int, y: int| #[trigger] luma_seg_write(a, info, ver, e, s, x, y) == luma_seg_write(b, info, ver, e, s, x, y),
{
    reveal(luma_seg_write);
    reveal(luma_decision);
    assert forall|i: int| 0 <= i < 4 implies #[trigger] seg_line(a.y, ver, e, s, i) == seg_line(b.y, ver, e, s, i) by {
        assert(seg_line(a.y, ver, e, s, i) =~= seg_line(b.y, ver, e, s, i));
    }
    assert(seg_line(a.y, ver, e, s, 0) == seg_line(b.y, ver, e, s, 0));
    assert(seg_line(a.y, ver, e, s, 3) == seg_line(b.y, ver, e, s, 3));
    assert(luma_decision(a, info, ver, e, s) == luma_decision(b, info, ver, e, s));
    assert forall|x: int, y: int| #[trigger] luma_seg_write(a, info, ver, e, s, x, y) == luma_seg_write(b, info, ver, e, s, x, y) by {
        let (i, j) = seg_coords(ver, e, s, x, y);
        if 0 <= i < 4 {
            assert(seg_line(a.y, ver, e, s, i) == seg_line(b.y, ver, e, s, i));
        }
    }
}

/// What filtering the luma segments of cell `(bx, by)` writes at `(x, y)`.
pub open spec fn luma_cell_write(pic: Picture, info: FilterInfo, ver: bool, bx: int, by: int, x: int, y: int) -> Option<u16> {
    let (e, s) = luma_seg_of(ver, x, y);
    if seg_cell(ver, e, s) == (bx, by) && luma_seg_walked(pic, ver, e, s) {
        luma_seg_write(pic, info, ver, e, s, x, y)
    } else {
        None
    }
}

/// What the segment at edge `e`, start `s` writes at `(x, y)` when it lies
/// inside the plane, and nothing otherwise.
pub open spec fn inside_write(pic: Picture, info: FilterInfo, ver: bool, e: int, s: int, x: int, y: int) -> Option<u16> {
    if seg_inside(pic.y, ver, e, s) {
        luma_seg_write(pic, info, ver, e, s, x, y)
    } else {
        None
    }
}

/// Filter the segment at edge `e` (not the picture's border), start `s`
/// when its four lines fit in the plane.
fn luma_segment_inside(pic: &mut Picture, info: &FilterInfo, ver: bool, e: usize, s: usize)
    requires
        luma_ready(*old(pic), *info),
        e >= 8,
        ver ==> e + 3 < old(pic).y.width,
        !ver ==> e + 3 < old(pic).y.height,
    ensures
        final(pic).wf(),
        same_but_luma(*final(pic), *old(pic)),
        forall|k: int|
            0 <= k < old(pic).y.data@.len() ==> #[trigger] final(pic).y.data@[k] == or_keep(
                inside_write(
                    *old(pic),
                    *info,
                    ver,
                    e as int,
                    s as int,
                    entry_pos(k, old(pic).y.stride as int).0,
                    entry_pos(k, old(pic).y.stride as int).1,
                ),
                old(pic).y.data@[k],
            ),
{
    let slen = if ver {
        pic.y.height
    } else {
        pic.y.width
    };
    if s < slen && slen - s > 3 {
        luma_segment(pic, info, ver, e, s);
    }
}

/// Filter the luma segments of cell `(bx, by)` of the 8x8 grid.
#[verifier::spinoff_prover]
#[verifier::rlimit(50)]
fn luma_cell(pic: &mut Picture, info: &FilterInfo, ver: bool, bx: usize, by: usize)
    requires
        luma_ready(*old(pic), *info),
        bx < old(pic).min8_w,
        by < old(pic).min8_h,
    ensures
        final(pic).wf(),
        same_but_luma(*final(pic), *old(pic)),
        forall|k: int|
            0 <= k < old(pic).y.data@.len() ==> #[trigger] final(pic).y.data@[k] == or_keep(
                luma_cell_write(
                    *old(pic),
                    *info,
                    ver,
                    bx as int,
                    by as int,
                    entry_pos(k, old(pic).y.stride as int).0,
                    entry_pos(k, old(pic).y.stride as int).1,
                ),
                old(pic).y.data@[k],
            ),
{
    let ghost p0 = *pic;
    let ghost st = pic.y.stride as int;
    let kind = if ver {
        edge::VER
    } else {
        edge::HOR
    };
    proof {
        assert(by * pic.min8_w + bx < pic.min8_w * pic.min8_h) by (nonlinear_arith)
            requires
                bx < pic.min8_w,
                by < pic.min8_h,
        ;
    }
    let n8 = pic.edges.len();
    let marked = pic.edges[by * pic.min8_w + bx] & kind != 0;
    let elen = if ver {
        pic.y.width
    } else {
        pic.y.height
    };
    let (e, s0) = if ver {
        (bx * 8, by * 8)
    } else {
        (by * 8, bx * 8)
    };
    if !marked || e == 0 || e >= elen || elen - e <= 3 {
        proof {
            lemma_cell_unwalked(p0, *info, ver, bx as int, by as int);
        }
        return;
    }
    luma_segment_inside(pic, info, ver, e, s0);
    let ghost pb = *pic;
    let s1 = s0 + 4;
    proof {
        lemma_second_window(p0, pb, *info, ver, e as int, s0 as int);
    }
    luma_segment_inside(pic, info, ver, e, s1);
    proof {
        lemma_cell_combine(p0, pb, *pic, *info, ver, bx as int, by as int, e as int, s0 as int);
    }
}

/// The two segments of a cell, filtered one after the other, write what the
/// cell's writes say.
#[verifier::spinoff_prover]
#[verifier::rlimit(50)]
proof fn lemma_cell_combine(
    p0: Picture,
    pb: Picture,
    pc: Picture,
    info: FilterInfo,
    ver: bool,
    bx: int,
    by: int,
    e: int,
    s0: int,
)
    requires
        p0.y.wf(),
        0 <= bx < p0.min8_w,
        0 <= by < p0.min8_h,
        (e, s0) == (if ver {
            (bx * 8, by * 8)
        } else {
            (by * 8, bx * 8)
        }),
        e != 0,
        cell(p0.edges@, p0.min8_w as int, bx, by) & (if ver {
            edge::VER
        } else {
            edge::HOR
        }) != 0,
        pb.y.data@.len() == p0.y.data@.len(),
        pc.y.data@.len() == p0.y.data@.len(),
        pb.y.width == p0.y.width,
        pb.y.height == p0.y.height,
        forall|k: int|
            0 <= k < p0.y.data@.len() ==> #[trigger] pb.y.data@[k] == or_keep(
                inside_write(p0, info, ver, e, s0, entry_pos(k, p0.y.stride as int).0, entry_pos(k, p0.y.stride as int).1),
                p0.y.data@[k],
            ),
        forall|k: int|
            0 <= k < p0.y.data@.len() ==> #[trigger] pc.y.data@[k] == or_keep(
                inside_write(pb, info, ver, e, s0 + 4, entry_pos(k, p0.y.stride as int).0, entry_pos(k, p0.y.stride as int).1),
                pb.y.data@[k],
            ),
        seg_inside(pb.y, ver, e, s0 + 4) ==> forall|x: int, y: int| #[trigger] luma_seg_write(pb, info, ver, e, s0 + 4, x, y)
            == luma_seg_write(p0, info, ver, e, s0 + 4, x, y),
    ensures
        forall|k: int|
            0 <= k < p0.y.data@.len() ==> #[trigger] pc.y.data@[k] == or_keep(
                luma_cell_write(p0, info, ver, bx, by, entry_pos(k, p0.y.stride as int).0, entry_pos(k, p0.y.stride as int).1),
                p0.y.data@[k],
            ),
{
    let st = p0.y.stride as int;
    let s1 = s0 + 4;
    assert(seg_cell(ver, e, s0) == (bx, by));
    assert(seg_cell(ver, e, s1) == (bx, by));
    assert forall|k: int| 0 <= k < p0.y.data@.len() implies #[trigger] pc.y.data@[k] == or_keep(
        luma_cell_write(p0, info, ver, bx, by, k % st, k / st),
        p0.y.data@[k],
    ) by {
        let (x, y) = (k % st, k / st);
        let (ee, ss) = luma_seg_of(ver, x, y);
        if inside_write(p0, info, ver, e, s0, x, y) is Some {
            lemma_write_range(p0, info, ver, e, s0, x, y);
            lemma_owner(ver, e, s0, x, y);
        }
        if inside_write(pb, info, ver, e, s1, x, y) is Some {
            lemma_write_range(p0, info, ver, e, s1, x, y);
            lemma_owner(ver, e, s1, x, y);
        }
        if seg_cell(ver, ee, ss) == (bx, by) {
            assert(ee == e);
            assert(ss == s0 || ss == s1);
        }
    }
}

/// A cell whose edge is unmarked, is the picture's border or lies too close
/// to the far side writes nothing.
proof fn lemma_cell_unwalked(p0: Picture, info: FilterInfo, ver: bool, bx: int, by: int)
    requires
        0 <= bx,
        0 <= by,
        ({
            let (e, s0) = if ver {
                (bx * 8, by * 8)
            } else {
                (by * 8, bx * 8)
            };
            let elen = if ver {
                p0.y.width as int
            } else {
                p0.y.height as int
            };
            let kind = if ver {
                edge::VER
            } else {
                edge::HOR
            };
            cell(p0.edges@, p0.min8_w as int, bx, by) & kind == 0 || e == 0 || e + 3 >= elen
        }),
    ensures
        forall|x: int, y: int| #[trigger] luma_cell_write(p0, info, ver, bx, by, x, y) is None,
{
    assert forall|x: int, y: int| #[trigger] luma_cell_write(p0, info, ver, bx, by, x, y) is None by {
        let (ee, ss) = luma_seg_of(ver, x, y);
        if seg_cell(ver, ee, ss) == (bx, by) {
            assert(ee == if ver {
                bx * 8
            } else {
                by * 8
            });
        }
    }
}

/// After the first segment of a cell, the second segment's window still
/// reads as before, so it writes what it would have written first.
proof fn lemma_second_window(p0: Picture, pb: Picture, info: FilterInfo, ver: bool, e: int, s0: int)
    requires
        p0.y.wf(),
        e % 8 == 0,
        s0 % 8 == 0,
        pb.cu_flags == p0.cu_flags,
        pb.qp_y == p0.qp_y,
        pb.min4_w == p0.min4_w,
        pb.min4_h == p0.min4_h,
        pb.y.width == p0.y.width,
        pb.y.height == p0.y.height,
        pb.y.stride == p0.y.stride,
        pb.y.data@.len() == p0.y.data@.len(),
        forall|k: int|
            0 <= k < p0.y.data@.len() ==> #[trigger] pb.y.data@[k] == or_keep(
                inside_write(p0, info, ver, e, s0, entry_pos(k, p0.y.stride as int).0, entry_pos(k, p0.y.stride as int).1),
                p0.y.data@[k],
            ),
    ensures
        seg_inside(pb.y, ver, e, s0 + 4) ==> forall|x: int, y: int| #[trigger] luma_seg_write(pb, info, ver, e, s0 + 4, x, y)
            == luma_seg_write(p0, info, ver, e, s0 + 4, x, y),
{
    let s1 = s0 + 4;
    if seg_inside(pb.y, ver, e, s1) {
        let st = p0.y.stride as int;
        assert forall|i: int, j: int| 0 <= i < 4 && 0 <= j < 8 implies #[trigger] seg_sample(pb.y, ver, e, s1, i, j)
            == seg_sample(p0.y, ver, e, s1, i, j) by {
            lemma_seg_inside(p0.y, ver, e, s1, i, j);
            let (x, y) = seg_pos(ver, e, s1, i, j - 4);
            super::sao::lemma_index_split(x, y, st);
            if inside_write(p0, info, ver, e, s0, x, y) is Some {
                lemma_write_range(p0, info, ver, e, s0, x, y);
                lemma_owner(ver, e, s0, x, y);
                lemma_owner(ver, e, s1, x, y);
            }
        }
        lemma_same_window(pb, p0, info, ver, e, s1);
    }
}

/// Whether the luma walk, now at cell `(bx, by)`, has already visited the
/// cell of the segment sample `(x, y)` belongs to.
pub open spec fn cell_before(ver: bool, x: int, y: int, bx: int, by: int) -> bool {
    let (e, s) = luma_seg_of(ver, x, y);
    let (cbx, cby) = seg_cell(ver, e, s);
    cby < by || (cby == by && cbx < bx)
}

/// The luma plane once the walk reaches cell `(bx, by)`: samples of the
/// cells already visited are filtered, the rest are as they were.
pub open spec fn walked_upto(pic: Picture, info: FilterInfo, ver: bool, bx: int, by: int, cur: Seq<u16>) -> bool {
    let st = pic.y.stride as int;
    &&& cur.len() == pic.y.data@.len()
    &&& forall|k: int|
        0 <= k < cur.len() ==> #[trigger] cur[k] == or_keep(
            if cell_before(ver, k % st, k / st, bx, by) {
                luma_dir_write(pic, info, ver, k % st, k / st)
            } else {
                None
            },
            pic.y.data@[k],
        )
}

/// Halfway through the walk, the cell about to be filtered writes what it
/// would have written first.
proof fn lemma_cell_window(p0: Picture, cur: Picture, info: FilterInfo, ver: bool, bx: int, by: int)
    requires
        p0.y.wf(),
        0 <= bx,
        0 <= by,
        cur.cu_flags == p0.cu_flags,
        cur.qp_y == p0.qp_y,
        cur.min4_w == p0.min4_w,
        cur.min4_h == p0.min4_h,
        cur.min8_w == p0.min8_w,
        cur.min8_h == p0.min8_h,
        cur.edges == p0.edges,
        cur.y.width == p0.y.width,
        cur.y.height == p0.y.height,
        cur.y.stride == p0.y.stride,
        walked_upto(p0, info, ver, bx, by, cur.y.data@),
    ensures
        forall|x: int, y: int| #[trigger] luma_cell_write(cur, info, ver, bx, by, x, y) == luma_cell_write(
            p0,
            info,
            ver,
            bx,
            by,
            x,
            y,
        ),
{
    let st = p0.y.stride as int;
    let (e, s0) = if ver {
        (bx * 8, by * 8)
    } else {
        (by * 8, bx * 8)
    };
    assert forall|x: int, y: int| #[trigger] luma_cell_write(cur, info, ver, bx, by, x, y) == luma_cell_write(
        p0,
        info,
        ver,
        bx,
        by,
        x,
        y,
    ) by {
        let (ee, ss) = luma_seg_of(ver, x, y);
        if seg_cell(ver, ee, ss) == (bx, by) && luma_seg_walked(p0, ver, ee, ss) {
            assert(ee % 8 == 0 && ss % 4 == 0);
            assert forall|i: int, j: int| 0 <= i < 4 && 0 <= j < 8 implies #[trigger] seg_sample(cur.y, ver, ee, ss, i, j)
                == seg_sample(p0.y, ver, ee, ss, i, j) by {
                lemma_seg_inside(p0.y, ver, ee, ss, i, j);
                let (px, py) = seg_pos(ver, ee, ss, i, j - 4);
                super::sao::lemma_index_split(px, py, st);
                lemma_window_owner(p0, info, ver, ee, ss, i, j);
            }
            lemma_same_window(cur, p0, info, ver, ee, ss);
        }
    }
}

/// Filters every marked luma edge of one direction over the whole picture.
fn luma_dir(pic: &mut Picture, info: &FilterInfo, ver: bool)
    requires
        luma_ready(*old(pic), *info),
    ensures
        final(pic).wf(),
        same_but_luma(*final(pic), *old(pic)),
        forall|k: int|
            0 <= k < old(pic).y.data@.len() ==> #[trigger] final(pic).y.data@[k] == or_keep(
                luma_dir_write(
                    *old(pic),
                    *info,
                    ver,
                    entry_pos(k, old(pic).y.stride as int).0,
                    entry_pos(k, old(pic).y.stride as int).1,
                ),
                old(pic).y.data@[k],
            ),
{
    let ghost p0 = *pic;
    let ghost st = pic.y.stride as int;
    let (w8, h8) = (pic.min8_w, pic.min8_h);
    let mut by: usize = 0;
    while by < h8
        invariant
            by <= h8,
            w8 == p0.min8_w,
            h8 == p0.min8_h,
            luma_ready(*pic, *info),
            luma_ready(p0, *info),
            same_but_luma(*pic, p0),
            walked_upto(p0, *info, ver, 0, by as int, pic.y.data@),
        decreases h8 - by,
    {
        let mut bx: usize = 0;
        while bx < w8
            invariant
                bx <= w8,
                by < h8,
                w8 == p0.min8_w,
                h8 == p0.min8_h,
                luma_ready(*pic, *info),
                luma_ready(p0, *info),
                same_but_luma(*pic, p0),
                walked_upto(p0, *info, ver, bx as int, by as int, pic.y.data@),
            decreases w8 - bx,
        {
            let ghost cur = *pic;
            proof {
                lemma_cell_window(p0, cur, *info, ver, bx as int, by as int);
            }
            luma_cell(pic, info, ver, bx, by);
            proof {
                lemma_walk_step(p0, cur, *pic, *info, ver, bx as int, by as int);
            }
            bx += 1;
        }
        proof {
            lemma_walk_row(p0, pic.y.data@, *info, ver, by as int);
        }
        by += 1;
    }
    proof {
        lemma_walk_done(p0, pic.y.data@, *info, ver);
    }
}

/// Filtering cell `(bx, by)` moves the walk on to the next cell.
proof fn lemma_walk_step(p0: Picture, cur: Picture, next: Picture, info: FilterInfo, ver: bool, bx: int, by: int)
    requires
        0 <= bx,
        0 <= by,
        cur.y.stride == p0.y.stride,
        walked_upto(p0, info, ver, bx, by, cur.y.data@),
        forall|x: int, y: int| #[trigger] luma_cell_write(cur, info, ver, bx, by, x, y) == luma_cell_write(
            p0,
            info,
            ver,
            bx,
            by,
            x,
            y,
        ),
        next.y.data@.len() == cur.y.data@.len(),
        forall|k: int|
            0 <= k < cur.y.data@.len() ==> #[trigger] next.y.data@[k] == or_keep(
                luma_cell_write(cur, info, ver, bx, by, entry_pos(k, cur.y.stride as int).0, entry_pos(k, cur.y.stride as int).1),
                cur.y.data@[k],
            ),
    ensures
        walked_upto(p0, info, ver, bx + 1, by, next.y.data@),
{
    let st = p0.y.stride as int;
    assert forall|k: int| 0 <= k < next.y.data@.len() implies #[trigger] next.y.data@[k] == or_keep(
        if cell_before(ver, k % st, k / st, bx + 1, by) {
            luma_dir_write(p0, info, ver, k % st, k / st)
        } else {
            None
        },
        p0.y.data@[k],
    ) by {
        assert(cur.y.data@[k] == or_keep(
            if cell_before(ver, k % st, k / st, bx, by) {
                luma_dir_write(p0, info, ver, k % st, k / st)
            } else {
                None
            },
            p0.y.data@[k],
        ));
        assert(luma_cell_write(cur, info, ver, bx, by, k % st, k / st) == luma_cell_write(p0, info, ver, bx, by, k % st, k / st));
    }
}

/// At the end of a row of cells, the walk moves to the next row.
proof fn lemma_walk_row(p0: Picture, cur: Seq<u16>, info: FilterInfo, ver: bool, by: int)
    requires
        0 <= by,
        walked_upto(p0, info, ver, p0.min8_w as int, by, cur),
    ensures
        walked_upto(p0, info, ver, 0, by + 1, cur),
{
    let st = p0.y.stride as int;
    assert forall|k: int| 0 <= k < cur.len() implies #[trigger] cur[k] == or_keep(
        if cell_before(ver, k % st, k / st, 0, by + 1) {
            luma_dir_write(p0, info, ver, k % st, k / st)
        } else {
            None
        },
        p0.y.data@[k],
    ) by {
        assert(cur[k] == or_keep(
            if cell_before(ver, k % st, k / st, p0.min8_w as int, by) {
                luma_dir_write(p0, info, ver, k % st, k / st)
            } else {
                None
            },
            p0.y.data@[k],
        ));
    }
}

/// Once every row is walked, every sample is as the pass says.
proof fn lemma_walk_done(p0: Picture, cur: Seq<u16>, info: FilterInfo, ver: bool)
    requires
        walked_upto(p0, info, ver, 0, p0.min8_h as int, cur),
    ensures
        forall|k: int|
            0 <= k < p0.y.data@.len() ==> #[trigger] cur[k] == or_keep(
                luma_dir_write(p0, info, ver, entry_pos(k, p0.y.stride as int).0, entry_pos(k, p0.y.stride as int).1),
                p0.y.data@[k],
            ),
{
    let st = p0.y.stride as int;
    assert forall|k: int| 0 <= k < p0.y.data@.len() implies #[trigger] cur[k] == or_keep(
        luma_dir_write(p0, info, ver, k % st, k / st),
        p0.y.data@[k],
    ) by {
        assert(cur[k] == or_keep(
            if cell_before(ver, k % st, k / st, 0, p0.min8_h as int) {
                luma_dir_write(p0, info, ver, k % st, k / st)
            } else {
                None
            },
            p0.y.data@[k],
        ));
    }
}

/// `b` is `a` after one direction's luma pass.
pub open spec fn luma_pass(a: Picture, b: Picture, info: FilterInfo, ver: bool) -> bool {
    &&& b.wf()
    &&& same_but_luma(b, a)
    &&& forall|k: int|
        0 <= k < a.y.data@.len() ==> #[trigger] b.y.data@[k] == or_keep(
            luma_dir_write(a, info, ver, entry_pos(k, a.y.stride as int).0, entry_pos(k, a.y.stride as int).1),
            a.y.data@[k],
        )
}

/// `b` is `a` after one direction's chroma pass.
pub open spec fn chroma_pass(a: Picture, b: Picture, info: FilterInfo, ver: bool) -> bool {
    &&& b.wf()
    &&& same_but_chroma(b, a)
    &&& forall|comp: int, k: int|
        0 <= comp < 2 && 0 <= k < chroma_plane(a, comp).data@.len() ==> #[trigger] chroma_plane(b, comp).data@[k]
            == or_keep(
            chroma_dir_write(
                a,
                info,
                ver,
                comp,
                entry_pos(k, chroma_plane(a, comp).stride as int).0,
                entry_pos(k, chroma_plane(a, comp).stride as int).1,
            ),
            chroma_plane(a, comp).data@[k],
        )
}

/// `b` is `a` deblocked: the vertical luma and chroma passes, then the
/// horizontal ones, each working on what the one before left.
pub open spec fn deblocked(a: Picture, b: Picture, info: FilterInfo) -> bool {
    exists|p1: Picture, p2: Picture, p3: Picture|
        luma_pass(a, p1, info, true) && chroma_pass(p1, p2, info, true) && luma_pass(p2, p3, info, false)
            && chroma_pass(p3, b, info, false)
}

/// Applies the in-loop deblocking filter of clause 8.7.2 to `pic` in place.
///
/// All vertical edges of the picture are filtered before any horizontal edge,
/// so the horizontal pass reads samples the vertical pass already modified.
pub fn deblock(pic: &mut Picture, info: &FilterInfo)
    requires
        luma_ready(*old(pic), *info),
        chroma_ready(*old(pic), *info),
    ensures
        deblocked(*old(pic), *final(pic), *info),
{
    let ghost p0 = *pic;
    luma_dir(pic, info, true);
    let ghost p1 = *pic;
    chroma_dir(pic, info, true);
    let ghost p2 = *pic;
    luma_dir(pic, info, false);
    let ghost p3 = *pic;
    chroma_dir(pic, info, false);
    proof {
        assert(luma_pass(p0, p1, *info, true));
        assert(chroma_pass(p1, p2, *info, true));
        assert(luma_pass(p2, p3, *info, false));
        assert(chroma_pass(p3, *pic, *info, false));
    }
}


/// `b` with parameters `ib` is `a` with parameters `ia` transposed, as far
/// as the luma filter reads them: the planes, the per-block flags and QPs,
/// the CTB parameters and which CTB boundaries may be crossed are mirrored
/// about the diagonal, and `b`'s horizontal edges are `a`'s vertical ones.
pub open spec fn luma_transposed(a: Picture, ia: FilterInfo, b: Picture, ib: FilterInfo) -> bool {
    &&& b.y.width == a.y.height
    &&& b.y.height == a.y.width
    &&& b.min8_w == a.min8_h
    &&& b.min8_h == a.min8_w
    &&& ib.bit_depth_y == ia.bit_depth_y
    &&& ib.pcm_loop_filter_disabled == ia.pcm_loop_filter_disabled
    &&& forall|x: int, y: int|
        0 <= x < b.y.width && 0 <= y < b.y.height ==> #[trigger] b.y.sample(x, y) == a.y.sample(y, x)
    &&& forall|x: int, y: int|
        0 <= x < b.y.width && 0 <= y < b.y.height ==> b.cu_flags@[#[trigger] b.idx4_of(x, y)] == a.cu_flags@[a.idx4_of(
            y,
            x,
        )] && b.qp_y@[b.idx4_of(x, y)] == a.qp_y@[a.idx4_of(y, x)]
    &&& forall|x: int, y: int|
        0 <= x < b.y.width && 0 <= y < b.y.height ==> (#[trigger] ib.ctb_at(x, y) < ib.ctb@.len() <==> ia.ctb_at(y, x)
            < ia.ctb@.len()) && (ia.ctb_at(y, x) < ia.ctb@.len() ==> ib.ctb@[ib.ctb_at(x, y)] == ia.ctb@[ia.ctb_at(
            y,
            x,
        )])
    &&& forall|x1: int, y1: int, x2: int, y2: int|
        0 <= x1 < b.y.width && 0 <= y1 < b.y.height && 0 <= x2 < b.y.width && 0 <= y2 < b.y.height
            ==> #[trigger] ib.crossing_allowed(ib.ctb_at(x1, y1), ib.ctb_at(x2, y2)) == ia.crossing_allowed(
            ia.ctb_at(y1, x1),
            ia.ctb_at(y2, x2),
        )
    &&& forall|bx: int, by: int|
        0 <= bx < b.min8_w && 0 <= by < b.min8_h ==> (#[trigger] cell(b.edges@, b.min8_w as int, bx, by) & edge::HOR
            != 0) == (cell(a.edges@, a.min8_w as int, by, bx) & edge::VER != 0)
}

/// A segment across a horizontal edge of the transposed picture is decided
/// and filtered as the same segment across the vertical edge of the
/// original.
proof fn lemma_seg_transposed(a: Picture, ia: FilterInfo, b: Picture, ib: FilterInfo, e: int, s: int, x: int, y: int)
    requires
        luma_transposed(a, ia, b, ib),
        seg_inside(a.y, true, e, s),
    ensures
        luma_decision(b, ib, false, e, s) == luma_decision(a, ia, true, e, s),
        luma_seg_write(b, ib, false, e, s, x, y) == luma_seg_write(a, ia, true, e, s, y, x),
{
    reveal(luma_decision);
    reveal(luma_seg_write);
    assert forall|i: int| 0 <= i < 4 implies #[trigger] seg_line(b.y, false, e, s, i) == seg_line(a.y, true, e, s, i) by {
        assert forall|j: int| 0 <= j < 8 implies seg_line(b.y, false, e, s, i)[j] == seg_line(a.y, true, e, s, i)[j] by {
            assert(b.y.sample(s + i, e + j - 4) == a.y.sample(e + j - 4, s + i));
        }
        assert(seg_line(b.y, false, e, s, i) =~= seg_line(a.y, true, e, s, i));
    }
    assert(seg_line(b.y, false, e, s, 0) == seg_line(a.y, true, e, s, 0));
    assert(seg_line(b.y, false, e, s, 3) == seg_line(a.y, true, e, s, 3));
    assert(b.idx4_of(s, e - 1) == b.idx4_of(s, e - 1));
    assert(b.idx4_of(s, e) == b.idx4_of(s, e));
    assert(ib.ctb_at(s, e) == ib.ctb_at(s, e));
    assert(ib.crossing_allowed(ib.ctb_at(s, e - 1), ib.ctb_at(s, e)) == ia.crossing_allowed(ia.ctb_at(e - 1, s), ia.ctb_at(e, s)));
    let (i, j) = seg_coords(false, e, s, x, y);
    if 0 <= i < 4 && 1 <= j < 7 {
        assert(seg_line(b.y, false, e, s, i) == seg_line(a.y, true, e, s, i));
    }
}

/// One direction's luma pass commutes with transposition: what the pass
/// across horizontal edges writes at `(x, y)` of the transposed picture is
/// what the pass across vertical edges writes at `(y, x)` of the original.
pub proof fn lemma_luma_dir_transposed(a: Picture, ia: FilterInfo, b: Picture, ib: FilterInfo, x: int, y: int)
    requires
        luma_transposed(a, ia, b, ib),
    ensures
        luma_dir_write(b, ib, false, x, y) == luma_dir_write(a, ia, true, y, x),
{
    let (e, s) = luma_seg_of(false, x, y);
    assert(luma_seg_of(true, y, x) == (e, s));
    if seg_inside(a.y, true, e, s) && 0 <= s / 8 < b.min8_w && 0 <= e / 8 < b.min8_h {
        assert((cell(b.edges@, b.min8_w as int, s / 8, e / 8) & edge::HOR != 0) == (cell(
            a.edges@,
            a.min8_w as int,
            e / 8,
            s / 8,
        ) & edge::VER != 0));
        lemma_seg_transposed(a, ia, b, ib, e, s, x, y);
    }
    assert(luma_seg_walked(b, false, e, s) == luma_seg_walked(a, true, e, s));
}

/// Deblocking a horizontal edge is deblocking the transposed vertical one:
/// after the luma pass across horizontal edges of the transposed picture
/// and the luma pass across vertical edges of the original, every luma
/// sample of the one is the mirrored sample of the other.
pub proof fn lemma_luma_pass_transposed(a: Picture, a2: Picture, ia: FilterInfo, b: Picture, b2: Picture, ib: FilterInfo)
    requires
        a.wf(),
        b.wf(),
        luma_transposed(a, ia, b, ib),
        luma_pass(a, a2, ia, true),
        luma_pass(b, b2, ib, false),
    ensures
        b2.y.width == a2.y.height,
        b2.y.height == a2.y.width,
        forall|x: int, y: int|
            0 <= x < b2.y.width && 0 <= y < b2.y.height ==> #[trigger] b2.y.sample(x, y) == a2.y.sample(y, x),
{
    assert forall|x: int, y: int| 0 <= x < b2.y.width && 0 <= y < b2.y.height implies #[trigger] b2.y.sample(x, y)
        == a2.y.sample(y, x) by {
        let (bs, as_) = (b.y.stride as int, a.y.stride as int);
        let kb = y * bs + x;
        let ka = x * as_ + y;
        assert(kb < b.y.data@.len() && ka < a.y.data@.len() && 0 <= kb && 0 <= ka) by (nonlinear_arith)
            requires
                kb == y * bs + x,
                ka == x * as_ + y,
                0 <= x < b.y.width <= bs,
                0 <= y < b.y.height,
                b.y.width == a.y.height,
                b.y.height == a.y.width,
                a.y.width <= as_,
                bs * b.y.height <= b.y.data@.len(),
                as_ * a.y.height <= a.y.data@.len(),
        ;
        vstd::arithmetic::div_mod::lemma_fundamental_div_mod_converse(kb, bs, y, x);
        vstd::arithmetic::div_mod::lemma_fundamental_div_mod_converse(ka, as_, x, y);
        assert(b2.y.data@[kb] == or_keep(luma_dir_write(b, ib, false, x, y), b.y.data@[kb]));
        assert(a2.y.data@[ka] == or_keep(luma_dir_write(a, ia, true, y, x), a.y.data@[ka]));
        lemma_luma_dir_transposed(a, ia, b, ib, x, y);
        assert(b.y.sample(x, y) == a.y.sample(y, x));
    }
}


/// No 8x8 cell of `pic` carries an edge of kind `kind`.
pub open spec fn no_edges(pic: Picture, kind: u8) -> bool {
    forall|bx: int, by: int|
        0 <= bx < pic.min8_w && 0 <= by < pic.min8_h ==> #[trigger] cell(pic.edges@, pic.min8_w as int, bx, by) & kind
            == 0
}

/// A luma pass in a direction with no edges leaves the luma samples alone.
proof fn lemma_pass_without_edges(a: Picture, b: Picture, info: FilterInfo, ver: bool)
    requires
        luma_pass(a, b, info, ver),
        no_edges(a, if ver { edge::VER } else { edge::HOR }),
    ensures
        b.y.data@ == a.y.data@,
{
    assert forall|k: int| 0 <= k < a.y.data@.len() implies #[trigger] b.y.data@[k] == a.y.data@[k] by {
        let (x, y) = entry_pos(k, a.y.stride as int);
        let (e, s) = luma_seg_of(ver, x, y);
        let (bx, by) = seg_cell(ver, e, s);
        if 0 <= bx < a.min8_w && 0 <= by < a.min8_h {
            assert(cell(a.edges@, a.min8_w as int, bx, by) & (if ver { edge::VER } else { edge::HOR }) == 0);
        }
        assert(!luma_seg_walked(a, ver, e, s));
        assert(luma_dir_write(a, info, ver, x, y) is None);
    }
    assert(b.y.data@ =~= a.y.data@);
}

/// Deblocking a picture whose only edges are vertical is, in luma,
/// deblocking its transpose, whose only edges are horizontal: every luma
/// sample of the one deblocked picture is the mirrored sample of the other.
/// (With edges of both kinds the vertical pass runs first on each picture,
/// so the two results differ in general.)
pub proof fn lemma_deblock_transposed(a: Picture, a2: Picture, ia: FilterInfo, b: Picture, b2: Picture, ib: FilterInfo)
    requires
        a.wf(),
        b.wf(),
        luma_transposed(a, ia, b, ib),
        no_edges(a, edge::HOR),
        no_edges(b, edge::VER),
        deblocked(a, a2, ia),
        deblocked(b, b2, ib),
    ensures
        b2.y.width == a2.y.height,
        b2.y.height == a2.y.width,
        forall|x: int, y: int|
            0 <= x < b2.y.width && 0 <= y < b2.y.height ==> #[trigger] b2.y.sample(x, y) == a2.y.sample(y, x),
{
    let (p1, p2, p3) = choose|p1: Picture, p2: Picture, p3: Picture|
        luma_pass(a, p1, ia, true) && chroma_pass(p1, p2, ia, true) && luma_pass(p2, p3, ia, false)
            && chroma_pass(p3, a2, ia, false);
    let (q1, q2, q3) = choose|q1: Picture, q2: Picture, q3: Picture|
        luma_pass(b, q1, ib, true) && chroma_pass(q1, q2, ib, true) && luma_pass(q2, q3, ib, false)
            && chroma_pass(q3, b2, ib, false);
    // The original's horizontal pass changes nothing.
    assert(p2.edges == a.edges && p2.min8_w == a.min8_w && p2.min8_h == a.min8_h);
    lemma_pass_without_edges(p2, p3, ia, false);
    // The transpose's vertical pass changes nothing.
    lemma_pass_without_edges(b, q1, ib, true);
    assert(q2.y == q1.y);
    assert(luma_transposed(a, ia, q2, ib)) by {
        assert forall|x: int, y: int| 0 <= x < q2.y.width && 0 <= y < q2.y.height implies #[trigger] q2.y.sample(x, y)
            == a.y.sample(y, x) by {
            assert(q2.y.sample(x, y) == b.y.sample(x, y));
        }
        assert forall|x: int, y: int| 0 <= x < q2.y.width && 0 <= y < q2.y.height implies q2.cu_flags@[#[trigger] q2.idx4_of(x, y)]
            == a.cu_flags@[a.idx4_of(y, x)] && q2.qp_y@[q2.idx4_of(x, y)] == a.qp_y@[a.idx4_of(y, x)] by {
            assert(q2.idx4_of(x, y) == b.idx4_of(x, y));
        }
        assert forall|bx: int, by: int| 0 <= bx < q2.min8_w && 0 <= by < q2.min8_h implies (#[trigger] cell(q2.edges@, q2.min8_w as int, bx, by)
            & edge::HOR != 0) == (cell(a.edges@, a.min8_w as int, by, bx) & edge::VER != 0) by {
            assert(cell(q2.edges@, q2.min8_w as int, bx, by) == cell(b.edges@, b.min8_w as int, bx, by));
        }
    }
    lemma_luma_pass_transposed(a, p1, ia, q2, q3, ib);
    assert forall|x: int, y: int| 0 <= x < b2.y.width && 0 <= y < b2.y.height implies #[trigger] b2.y.sample(x, y)
        == a2.y.sample(y, x) by {
        assert(b2.y.sample(x, y) == q3.y.sample(x, y));
        assert(a2.y.sample(y, x) == p3.y.sample(y, x));
        assert(p3.y.sample(y, x) == p2.y.sample(y, x));
        assert(p2.y.sample(y, x) == p1.y.sample(y, x));
    }
}

} // verus!
