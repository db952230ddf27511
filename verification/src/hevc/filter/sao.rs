//! Sample adaptive offset, ITU-T H.265 clause 8.7.3.
//!
//! SAO reads the deblocked picture and writes a second picture, so the filter
//! works from a snapshot of every plane taken before the first sample changes.

use vstd::prelude::*;

use super::{FilterInfo, SaoCtb, pow2};
use crate::hevc::picture::{Picture, Plane, flags};

verus! {

/// `SaoTypeIdx` selecting band offset.
pub const BAND: u8 = 1;

/// `SaoTypeIdx` selecting edge offset.
pub const EDGE: u8 = 2;

/// `Clip3(lo, hi, v)` of clause 5.8.
pub open spec fn clip3(lo: int, hi: int, v: int) -> int {
    if v < lo {
        lo
    } else if v > hi {
        hi
    } else {
        v
    }
}

/// `Sign(v)` of clause 5.8.
pub open spec fn sign(v: int) -> int {
    if v > 0 {
        1
    } else if v < 0 {
        -1
    } else {
        0
    }
}

/// Offset of neighbour `k` (0 or 1) of each `SaoEoClass`, clause 8.7.3.2:
/// horizontal, vertical, and the two diagonals.
pub open spec fn eo_delta(class: u8, k: int) -> (int, int) {
    let c = class % 4;
    if c == 0 {
        if k == 0 {
            (-1, 0)
        } else {
            (1, 0)
        }
    } else if c == 1 {
        if k == 0 {
            (0, -1)
        } else {
            (0, 1)
        }
    } else if c == 2 {
        if k == 0 {
            (-1, -1)
        } else {
            (1, 1)
        }
    } else {
        if k == 0 {
            (1, -1)
        } else {
            (-1, 1)
        }
    }
}

/// The `sw` by `sh` subsampling of a component: luma is not subsampled, and
/// a zero chroma factor counts as one.
pub open spec fn scale_of(c: int, sub: usize) -> usize {
    if c == 0 || sub == 0 {
        1
    } else {
        sub
    }
}

/// The samples `[x0, x1)` by `[y0, y1)` of a `w` by `h` plane that CTB
/// `addr` covers, for subsampling `sw` by `sh`.
pub open spec fn ctb_bounds(info: FilterInfo, addr: int, sw: int, sh: int, w: int, h: int) -> (
    int,
    int,
    int,
    int,
) {
    let side = pow2(info.ctb_log2 as nat) as int;
    let cx = addr % (info.pic_w_ctbs as int);
    let cy = addr / (info.pic_w_ctbs as int);
    let x1 = (cx + 1) * side / sw;
    let y1 = (cy + 1) * side / sh;
    (cx * side / sw, cy * side / sh, if x1 < w {
        x1
    } else {
        w
    }, if y1 < h {
        y1
    } else {
        h
    })
}

/// Whether sample `(px, py)` is in CTB `addr`'s part of a `w` by `h` plane.
pub open spec fn in_ctb(
    info: FilterInfo,
    addr: int,
    sw: int,
    sh: int,
    w: int,
    h: int,
    px: int,
    py: int,
) -> bool {
    let (x0, y0, x1, y1) = ctb_bounds(info, addr, sw, sh, w, h);
    x0 <= px < x1 && y0 <= py < y1
}

/// The coding-unit flags covering luma position `(lx, ly)`, or none when
/// the position is past the end of the array.
pub open spec fn cu_flag_at(cu_flags: Seq<u8>, min4_w: int, lx: int, ly: int) -> u8 {
    let i = (ly / 4) * min4_w + lx / 4;
    if 0 <= i < cu_flags.len() {
        cu_flags[i]
    } else {
        0
    }
}

/// Whether loop filtering must leave a coding unit with flags `f` alone:
/// lossless coding units always, PCM ones when PCM loop filtering is off.
pub open spec fn locked(f: u8, pcm_loop_filter_disabled: bool) -> bool {
    f & flags::TQ_BYPASS != 0 || (f & flags::PCM != 0 && pcm_loop_filter_disabled)
}

/// Neighbour `k` of sample `(px, py)` for `s`'s edge class, if it lies in
/// the plane.
pub open spec fn neighbour(src: Plane, s: SaoCtb, px: int, py: int, k: int) -> Option<(int, int)> {
    let (dx, dy) = eo_delta(s.eo_class, k);
    let (nx, ny) = (px + dx, py + dy);
    if nx < 0 || ny < 0 || nx >= src.width || ny >= src.height {
        None
    } else {
        Some((nx, ny))
    }
}

/// `(x, y)` when it lies in the plane, else nothing.
pub open spec fn inside_at(src: Plane, x: int, y: int) -> Option<(int, int)> {
    if 0 <= x < src.width && 0 <= y < src.height {
        Some((x, y))
    } else {
        None
    }
}

/// The two neighbours each edge class compares a sample with (clause
/// 8.7.3.2, `hPos` and `vPos`): class 0 left and right, class 1 above and
/// below, class 2 the 135 degree pair up-left and down-right, class 3 the
/// 45 degree pair up-right and down-left; a neighbour outside the plane is
/// none.
pub proof fn lemma_eo_neighbours(src: Plane, s: SaoCtb, px: int, py: int)
    requires
        s.eo_class < 4,
    ensures
        s.eo_class == 0 ==> neighbour(src, s, px, py, 0) == inside_at(src, px - 1, py) && neighbour(src, s, px, py, 1)
            == inside_at(src, px + 1, py),
        s.eo_class == 1 ==> neighbour(src, s, px, py, 0) == inside_at(src, px, py - 1) && neighbour(src, s, px, py, 1)
            == inside_at(src, px, py + 1),
        s.eo_class == 2 ==> neighbour(src, s, px, py, 0) == inside_at(src, px - 1, py - 1) && neighbour(src, s, px, py, 1)
            == inside_at(src, px + 1, py + 1),
        s.eo_class == 3 ==> neighbour(src, s, px, py, 0) == inside_at(src, px + 1, py - 1) && neighbour(src, s, px, py, 1)
            == inside_at(src, px - 1, py + 1),
{
}

/// The edge categories of clause 8.7.3.2, by how a sample compares with its
/// two neighbours: a local minimum (below both) gets the first offset, a
/// sample below one and level with the other the second, one above one and
/// level with the other the third, a local maximum the fourth; a sample
/// level with both, or between them, gets nothing added. Without both
/// neighbours there is no edge offset at all.
pub proof fn lemma_edge_categories(
    src: Plane,
    info: FilterInfo,
    s: SaoCtb,
    addr: int,
    px: int,
    py: int,
    sw: int,
    sh: int,
)
    ensures
        !neighbour_usable(src, info, s, addr, px, py, sw, sh, 0) ==> edge_value(src, info, s, addr, px, py, sw, sh)
            is None,
        !neighbour_usable(src, info, s, addr, px, py, sw, sh, 1) ==> edge_value(src, info, s, addr, px, py, sw, sh)
            is None,
        neighbour_usable(src, info, s, addr, px, py, sw, sh, 0) && neighbour_usable(
            src,
            info,
            s,
            addr,
            px,
            py,
            sw,
            sh,
            1,
        ) ==> ({
            let (ax, ay) = neighbour(src, s, px, py, 0).unwrap();
            let (bx, by) = neighbour(src, s, px, py, 1).unwrap();
            let (rec, a, b) = (src.sample(px, py) as int, src.sample(ax, ay) as int, src.sample(bx, by) as int);
            let e = edge_value(src, info, s, addr, px, py, sw, sh);
            &&& rec < a && rec < b ==> e == Some(s.offsets@[0] as int)
            &&& (rec < a && rec == b) || (rec == a && rec < b) ==> e == Some(s.offsets@[1] as int)
            &&& (rec > a && rec == b) || (rec == a && rec > b) ==> e == Some(s.offsets@[2] as int)
            &&& rec > a && rec > b ==> e == Some(s.offsets@[3] as int)
            &&& (rec == a && rec == b) || (rec < a && rec > b) || (rec > a && rec < b) ==> e == Some(0int)
        }),
{
}

/// Which samples SAO leaves alone (clause 8.7.3): those of a coding unit
/// coded with `cu_transquant_bypass_flag` (bit 0 of the per-block flags)
/// always, those of a PCM coding unit (bit 1) exactly when
/// `pcm_loop_filter_disabled_flag` is set, and no others.
pub proof fn lemma_locked_samples(f: u8, pcm_loop_filter_disabled: bool)
    ensures
        f & 1u8 != 0 ==> locked(f, pcm_loop_filter_disabled),
        f & 1u8 == 0 && f & 2u8 != 0 ==> (locked(f, pcm_loop_filter_disabled) <==> pcm_loop_filter_disabled),
        f & 3u8 == 0 ==> !locked(f, pcm_loop_filter_disabled),
{
    assert(f & 3u8 == 0 ==> f & 1u8 == 0 && f & 2u8 == 0) by (bit_vector);
}

/// The bands of clause 8.7.3.3: the sample range is cut into 32 bands of
/// `2^(bitDepth - 5)` values each, and the four consecutive bands from
/// `sao_band_position` on get the four offsets in order; a sample in any
/// other band gets nothing added.
pub proof fn lemma_band_offsets(s: SaoCtb, rec: int, bd: u8, j: int)
    requires
        bd >= 5,
        rec >= 0,
    ensures
        ({
            let w = pow2((bd - 5) as nat) as int;
            &&& 0 <= j < 4 && (s.band_position + j) * w <= rec < (s.band_position + j + 1) * w ==> band_value(
                s,
                rec,
                bd,
            ) == Some(s.offsets@[j] as int)
            &&& rec < s.band_position * w || rec >= (s.band_position + 4) * w ==> band_value(s, rec, bd) is None
        }),
{
    let w = pow2((bd - 5) as nat) as int;
    vstd::arithmetic::power2::lemma_pow2_pos((bd - 5) as nat);
    let q = rec / w;
    vstd::arithmetic::div_mod::lemma_fundamental_div_mod(rec, w);
    let r = rec % w;
    assert(0 <= r < w);
    assert(rec == w * q + r);
    if 0 <= j < 4 && (s.band_position + j) * w <= rec < (s.band_position + j + 1) * w {
        let t = s.band_position + j;
        assert(q == t) by (nonlinear_arith)
            requires
                rec == w * q + r,
                0 <= r < w,
                t * w <= rec < (t + 1) * w,
                w > 0,
        ;
    }
    if rec < s.band_position * w {
        assert(q < s.band_position) by (nonlinear_arith)
            requires
                rec == w * q + r,
                0 <= r < w,
                rec < s.band_position * w,
                w > 0,
        ;
    }
    if rec >= (s.band_position + 4) * w {
        assert(q >= s.band_position + 4) by (nonlinear_arith)
            requires
                rec == w * q + r,
                0 <= r < w,
                rec >= (s.band_position + 4) * w,
                w > 0,
        ;
    }
}

/// Whether neighbour `k` of `(px, py)` exists and may be read across the
/// CTB boundary into CTB `addr`.
pub open spec fn neighbour_usable(
    src: Plane,
    info: FilterInfo,
    s: SaoCtb,
    addr: int,
    px: int,
    py: int,
    sw: int,
    sh: int,
    k: int,
) -> bool {
    match neighbour(src, s, px, py, k) {
        None => false,
        Some((nx, ny)) => info.crossing_allowed(info.ctb_at(nx * sw, ny * sh), addr),
    }
}

/// `edgeIdx` before the remapping of clause 8.7.3.2: two plus the signs of
/// the differences to both neighbours.
pub open spec fn edge_idx(src: Plane, s: SaoCtb, px: int, py: int) -> int {
    let rec = src.sample(px, py) as int;
    let (n0x, n0y) = neighbour(src, s, px, py, 0).unwrap();
    let (n1x, n1y) = neighbour(src, s, px, py, 1).unwrap();
    2 + sign(rec - src.sample(n0x, n0y) as int) + sign(rec - src.sample(n1x, n1y) as int)
}

/// The edge offset clause 8.7.3.2 adds to `(px, py)`, or `None` when a
/// neighbour is missing or may not be read.
pub open spec fn edge_value(
    src: Plane,
    info: FilterInfo,
    s: SaoCtb,
    addr: int,
    px: int,
    py: int,
    sw: int,
    sh: int,
) -> Option<int> {
    if !neighbour_usable(src, info, s, addr, px, py, sw, sh, 0) || !neighbour_usable(
        src,
        info,
        s,
        addr,
        px,
        py,
        sw,
        sh,
        1,
    ) {
        None
    } else {
        let e = edge_idx(src, s, px, py);
        let m = if e == 2 {
            0
        } else if e == 0 {
            1
        } else if e == 1 {
            2
        } else {
            e
        };
        if m == 0 {
            Some(0)
        } else {
            Some(s.offsets@[m - 1] as int)
        }
    }
}

/// The band offset clause 8.7.3.3 adds to a sample `rec`, or `None` when
/// its band is not one of the four signalled.
pub open spec fn band_value(s: SaoCtb, rec: int, bd: u8) -> Option<int> {
    let shift = if bd >= 5 {
        bd - 5
    } else {
        0
    };
    let k = rec / pow2(shift as nat) as int - s.band_position;
    if 0 <= k < 4 {
        Some(s.offsets@[k] as int)
    } else {
        None
    }
}

/// What SAO makes of sample `(px, py)` of CTB `addr`, or `None` when the
/// sample keeps its value.
pub open spec fn sao_sample(
    src: Plane,
    cu_flags: Seq<u8>,
    min4_w: int,
    info: FilterInfo,
    s: SaoCtb,
    addr: int,
    sw: int,
    sh: int,
    bd: u8,
    px: int,
    py: int,
) -> Option<u16> {
    let f = cu_flag_at(cu_flags, min4_w, px * sw, py * sh);
    let rec = src.sample(px, py) as int;
    let delta = if s.type_idx == BAND {
        band_value(s, rec, bd)
    } else {
        edge_value(src, info, s, addr, px, py, sw, sh)
    };
    if locked(f, info.pcm_loop_filter_disabled) {
        None
    } else {
        match delta {
            None => None,
            Some(d) => Some(clip3(0, pow2(bd as nat) - 1, rec + d) as u16),
        }
    }
}

/// The geometry SAO relies on: CTB addresses and luma sizes fit in `usize`,
/// and the per-CTB arrays cover every CTB of the picture.
pub open spec fn info_ok(info: FilterInfo) -> bool {
    &&& info.ctb_log2 < usize::BITS
    &&& info.pic_w_ctbs * pow2(info.ctb_log2 as nat) <= usize::MAX
    &&& info.pic_h_ctbs * pow2(info.ctb_log2 as nat) <= usize::MAX
    &&& info.pic_w_ctbs * info.pic_h_ctbs <= usize::MAX
    &&& info.tile_id@.len() == info.pic_w_ctbs * info.pic_h_ctbs
    &&& info.slice_addr@.len() == info.pic_w_ctbs * info.pic_h_ctbs
}

/// Sample `(px, py)`, scaled back to luma by `sw` by `sh`, lands in a CTB
/// of the picture, and its coding-unit flag index fits in `usize`.
pub open spec fn fits_at(info: FilterInfo, min4_w: int, px: int, py: int, sw: int, sh: int) -> bool {
    &&& px * sw <= usize::MAX
    &&& py * sh <= usize::MAX
    &&& (py * sh / 4) * min4_w + px * sw / 4 <= usize::MAX
    &&& 0 <= info.ctb_at(px * sw, py * sh) < info.pic_w_ctbs * info.pic_h_ctbs
}

/// Every sample of a `w` by `h` plane fits, in the sense of [`fits_at`].
pub open spec fn plane_fits(info: FilterInfo, min4_w: int, w: int, h: int, sw: int, sh: int) -> bool {
    forall|px: int, py: int|
        0 <= px < w && 0 <= py < h ==> #[trigger] fits_at(info, min4_w, px, py, sw, sh)
}

/// `Clip3(lo, hi, v)` of clause 5.8, with no panicking path.
pub fn clip3_i32(lo: i32, hi: i32, v: i32) -> (r: i32)
    requires
        lo <= hi,
    ensures
        r == clip3(lo as int, hi as int, v as int),
{
    if v < lo {
        lo
    } else if v > hi {
        hi
    } else {
        v
    }
}

/// The sign of `v`.
fn signum(v: i32) -> (r: i32)
    ensures
        r == sign(v as int),
{
    if v > 0 {
        1
    } else if v < 0 {
        -1
    } else {
        0
    }
}

/// Neighbour `k` of `(px, py)` for edge class `class`, if it lies in a
/// `w` by `h` plane.
fn step(class: u8, k: usize, px: usize, py: usize, w: usize, h: usize) -> (r: Option<(usize, usize)>)
    requires
        k < 2,
    ensures
        ({
            let (dx, dy) = eo_delta(class, k as int);
            let (nx, ny) = (px + dx, py + dy);
            if nx < 0 || ny < 0 || nx >= w || ny >= h {
                r is None
            } else {
                r == Some((nx as usize, ny as usize))
            }
        }),
{
    let c = class % 4;
    let (dx, dy): (i8, i8) = if c == 0 {
        if k == 0 {
            (-1, 0)
        } else {
            (1, 0)
        }
    } else if c == 1 {
        if k == 0 {
            (0, -1)
        } else {
            (0, 1)
        }
    } else if c == 2 {
        if k == 0 {
            (-1, -1)
        } else {
            (1, 1)
        }
    } else {
        if k == 0 {
            (1, -1)
        } else {
            (-1, 1)
        }
    };
    let nx = if dx < 0 {
        if px == 0 {
            return None;
        }
        px - 1
    } else if dx > 0 {
        if px >= w || w - px <= 1 {
            return None;
        }
        px + 1
    } else {
        px
    };
    let ny = if dy < 0 {
        if py == 0 {
            return None;
        }
        py - 1
    } else if dy > 0 {
        if py >= h || h - py <= 1 {
            return None;
        }
        py + 1
    } else {
        py
    };
    if nx >= w || ny >= h {
        return None;
    }
    Some((nx, ny))
}

/// Offset to add to the sample at `(px, py)`, or `None` to leave it alone.
///
/// `sw` and `sh` scale component coordinates back to luma coordinates so that
/// the CTB of a neighbour can be found; `addr` is the CTB being filtered.
fn edge_offset(
    src: &Plane,
    info: &FilterInfo,
    s: &SaoCtb,
    addr: usize,
    px: usize,
    py: usize,
    sw: usize,
    sh: usize,
) -> (r: Option<i32>)
    requires
        src.wf(),
        px < src.width,
        py < src.height,
        info_ok(*info),
        addr < info.pic_w_ctbs * info.pic_h_ctbs,
        addr < info.ctb@.len(),
        plane_fits(*info, 0, src.width as int, src.height as int, sw as int, sh as int),
    ensures
        r matches Some(v) ==> edge_value(*src, *info, *s, addr as int, px as int, py as int, sw as int, sh as int)
            == Some(v as int),
        r is None ==> edge_value(*src, *info, *s, addr as int, px as int, py as int, sw as int, sh as int)
            is None,
{
    proof {
        lemma_sample_in_plane(*src, px as int, py as int);
    }
    let rec = src.at(px, py) as i32;
    let mut idx = 2i32;
    let mut k: usize = 0;
    while k < 2
        invariant
            k <= 2,
            src.wf(),
            px < src.width,
            py < src.height,
            info_ok(*info),
            addr < info.pic_w_ctbs * info.pic_h_ctbs,
            addr < info.ctb@.len(),
            plane_fits(*info, 0, src.width as int, src.height as int, sw as int, sh as int),
            rec == src.sample(px as int, py as int),
            forall|j: int|
                0 <= j < k ==> #[trigger] neighbour_usable(
                    *src,
                    *info,
                    *s,
                    addr as int,
                    px as int,
                    py as int,
                    sw as int,
                    sh as int,
                    j,
                ),
            idx == 2 + (if k >= 1 {
                sign(rec - src.sample(neighbour(*src, *s, px as int, py as int, 0).unwrap().0, neighbour(
                    *src,
                    *s,
                    px as int,
                    py as int,
                    0,
                ).unwrap().1) as int)
            } else {
                0
            }) + (if k >= 2 {
                sign(rec - src.sample(neighbour(*src, *s, px as int, py as int, 1).unwrap().0, neighbour(
                    *src,
                    *s,
                    px as int,
                    py as int,
                    1,
                ).unwrap().1) as int)
            } else {
                0
            }),
        decreases 2 - k,
    {
        let (nx, ny) = match step(s.eo_class, k, px, py, src.width, src.height) {
            Some(p) => p,
            None => {
                assert(!neighbour_usable(
                    *src,
                    *info,
                    *s,
                    addr as int,
                    px as int,
                    py as int,
                    sw as int,
                    sh as int,
                    k as int,
                ));
                return None;
            },
        };
        proof {
            assert(fits_at(*info, 0, nx as int, ny as int, sw as int, sh as int));
        }
        let a = info.ctb_of(nx * sw, ny * sh);
        if !info.may_cross(a, addr) {
            return None;
        }
        proof {
            lemma_sample_in_plane(*src, nx as int, ny as int);
        }
        let v = src.at(nx, ny) as i32;
        idx = idx + signum(rec - v);
        k += 1;
    }
    let m = if idx == 2 {
        0
    } else if idx == 0 {
        1
    } else if idx == 1 {
        2
    } else {
        idx
    };
    if m == 0 {
        return Some(0);
    }
    Some(s.offsets[(m - 1) as usize] as i32)
}

/// What SAO for CTB `addr` makes of entry `i` of a plane `stride` samples
/// wide: the value of [`sao_sample`] for the sample at that entry, or
/// `None` when the entry is outside the CTB or keeps its value.
pub open spec fn sao_at(
    src: Plane,
    cu_flags: Seq<u8>,
    min4_w: int,
    info: FilterInfo,
    s: SaoCtb,
    addr: int,
    sw: int,
    sh: int,
    bd: u8,
    stride: int,
    i: int,
) -> Option<u16> {
    if stride > 0 && in_ctb(info, addr, sw, sh, src.width as int, src.height as int, i % stride, i / stride) {
        sao_sample(src, cu_flags, min4_w, info, s, addr, sw, sh, bd, i % stride, i / stride)
    } else {
        None
    }
}

/// `Some(v)` gives `v`, `None` keeps `old`.
pub open spec fn or_keep(v: Option<u16>, old: u16) -> u16 {
    match v {
        Some(x) => x,
        None => old,
    }
}

/// `2^bd - 1` for a bit depth of at most 30.
pub(crate) fn max_sample(bd: u8) -> (r: i32)
    requires
        bd <= 30,
    ensures
        r == pow2(bd as nat) - 1,
        r >= 0,
{
    proof {
        vstd::arithmetic::power2::lemma2_to64();
        vstd::arithmetic::power2::lemma_pow2_pos(bd as nat);
        if bd < 30 {
            vstd::arithmetic::power2::lemma_pow2_strictly_increases(bd as nat, 30);
        }
        vstd::bits::lemma_u32_shl_is_mul(1, bd as u32);
    }
    ((1u32 << (bd as u32)) - 1) as i32
}

/// Applies sample adaptive offset to one component of one coding tree block.
fn sao_ctb(
    dst: &mut Plane,
    src: &Plane,
    cu_flags: &[u8],
    min4_w: usize,
    info: &FilterInfo,
    s: SaoCtb,
    addr: usize,
    sw: usize,
    sh: usize,
    bd: u8,
)
    requires
        old(dst).wf(),
        src.wf(),
        src.width == old(dst).width,
        src.height == old(dst).height,
        info_ok(*info),
        info.pic_w_ctbs > 0,
        addr < info.pic_w_ctbs * info.pic_h_ctbs,
        addr < info.ctb@.len(),
        sw >= 1,
        sh >= 1,
        bd <= 30,
        plane_fits(*info, min4_w as int, src.width as int, src.height as int, sw as int, sh as int),
    ensures
        final(dst).width == old(dst).width,
        final(dst).height == old(dst).height,
        final(dst).stride == old(dst).stride,
        final(dst).data@.len() == old(dst).data@.len(),
        forall|i: int|
            0 <= i < old(dst).data@.len() ==> #[trigger] final(dst).data@[i] == or_keep(
                sao_at(
                    *src,
                    cu_flags@,
                    min4_w as int,
                    *info,
                    s,
                    addr as int,
                    sw as int,
                    sh as int,
                    bd,
                    old(dst).stride as int,
                    i,
                ),
                old(dst).data@[i],
            ),
{
    let ghost d0 = dst.data@;
    let ghost st = dst.stride as int;
    let ghost bounds = ctb_bounds(*info, addr as int, sw as int, sh as int, src.width as int, src.height as int);
    let (x0, y0, x1, y1) = ctb_region(info, addr, sw, sh, dst.width, dst.height);
    let max = max_sample(bd);
    let cu_len = cu_flags.len();
    let mut py = y0;
    while py < y1
        invariant
            dst.wf(),
            dst.width == src.width,
            dst.height == src.height,
            dst.stride == st,
            dst.data@.len() == d0.len(),
            cu_len == cu_flags@.len(),
            (x0 as int, y0 as int, x1 as int, y1 as int) == bounds,
            bounds == ctb_bounds(*info, addr as int, sw as int, sh as int, src.width as int, src.height as int),
            x1 <= src.width,
            y1 <= src.height,
            y0 <= py,
            py <= y1 || py == y0,
            max == pow2(bd as nat) - 1,
            max >= 0,
            src.wf(),
            info_ok(*info),
            addr < info.pic_w_ctbs * info.pic_h_ctbs,
            addr < info.ctb@.len(),
            sw >= 1,
            sh >= 1,
            bd <= 30,
            plane_fits(*info, min4_w as int, src.width as int, src.height as int, sw as int, sh as int),
            forall|i: int|
                0 <= i < d0.len() ==> #[trigger] dst.data@[i] == if i / st < py {
                    or_keep(
                        sao_at(*src, cu_flags@, min4_w as int, *info, s, addr as int, sw as int, sh as int, bd, st, i),
                        d0[i],
                    )
                } else {
                    d0[i]
                },
        decreases y1 - py,
    {
        let mut px = x0;
        while px < x1
            invariant
                dst.wf(),
                dst.width == src.width,
                dst.height == src.height,
                dst.stride == st,
                dst.data@.len() == d0.len(),
                cu_len == cu_flags@.len(),
                (x0 as int, y0 as int, x1 as int, y1 as int) == bounds,
                bounds == ctb_bounds(*info, addr as int, sw as int, sh as int, src.width as int, src.height as int),
                x1 <= src.width,
                y1 <= src.height,
                y0 <= py < y1,
                x0 <= px,
                px <= x1 || px == x0,
                max == pow2(bd as nat) - 1,
                max >= 0,
                src.wf(),
                info_ok(*info),
                addr < info.pic_w_ctbs * info.pic_h_ctbs,
                addr < info.ctb@.len(),
                sw >= 1,
                sh >= 1,
                bd <= 30,
                plane_fits(*info, min4_w as int, src.width as int, src.height as int, sw as int, sh as int),
                forall|i: int|
                    0 <= i < d0.len() ==> #[trigger] dst.data@[i] == if i / st < py || (i / st == py && i
                        % st < px) {
                        or_keep(
                            sao_at(*src, cu_flags@, min4_w as int, *info, s, addr as int, sw as int, sh as int, bd, st, i),
                            d0[i],
                        )
                    } else {
                        d0[i]
                    },
            decreases x1 - px,
        {
            proof {
                assert(fits_at(*info, min4_w as int, px as int, py as int, sw as int, sh as int));
                lemma_sample_in_plane(*src, px as int, py as int);
                lemma_sample_in_plane(*dst, px as int, py as int);
            }
            let (lx, ly) = (px * sw, py * sh);
            let fi = (ly / 4) * min4_w + lx / 4;
            let f = if fi < cu_len {
                cu_flags[fi]
            } else {
                0u8
            };
            let lock = f & flags::TQ_BYPASS != 0 || (f & flags::PCM != 0 && info.pcm_loop_filter_disabled);
            let rec = src.at(px, py) as i32;
            proof {
                lemma_fits_without_flags(*info, min4_w as int, src.width as int, src.height as int, sw as int, sh as int);
            }
            let delta = if s.type_idx == BAND {
                band_offset(&s, src.at(px, py), bd)
            } else {
                edge_offset(src, info, &s, addr, px, py, sw, sh)
            };
            let ghost before = dst.data@;
            let ghost idx = py * st + px;
            proof {
                lemma_index_split(px as int, py as int, st);
            }
            if !lock {
                if let Some(d) = delta {
                    let v = clip3_i32(0, max, rec + d);
                    dst.put(px, py, v as u16);
                }
            }
            proof {
                assert forall|i: int|
                    0 <= i < d0.len() implies #[trigger] dst.data@[i] == if i / st < py || (i / st == py
                        && i % st < px + 1) {
                        or_keep(
                            sao_at(*src, cu_flags@, min4_w as int, *info, s, addr as int, sw as int, sh as int, bd, st, i),
                            d0[i],
                        )
                    } else {
                        d0[i]
                    } by {
                    if i == idx {
                        assert(in_ctb(*info, addr as int, sw as int, sh as int, src.width as int, src.height as int, px as int, py as int));
                        assert(before[i] == d0[i]);
                        assert(sao_at(*src, cu_flags@, min4_w as int, *info, s, addr as int, sw as int, sh as int, bd, st, i)
                            == sao_sample(*src, cu_flags@, min4_w as int, *info, s, addr as int, sw as int, sh as int, bd, px as int, py as int));
                        assert(f == cu_flag_at(cu_flags@, min4_w as int, px * sw, py * sh));
                        assert(lock == locked(f, info.pcm_loop_filter_disabled));
                    } else {
                        assert(dst.data@[i] == before[i]);
                        if i / st == py && i % st == px {
                            vstd::arithmetic::div_mod::lemma_fundamental_div_mod(i, st);
                            assert(st * (i / st) == py * st) by (nonlinear_arith)
                                requires
                                    i / st == py,
                            ;
                            assert(i == idx);
                            assert(false);
                        }
                    }
                }
            }
            px += 1;
        }
        proof {
            assert forall|i: int|
                0 <= i < d0.len() implies #[trigger] dst.data@[i] == if i / st < py + 1 {
                    or_keep(
                        sao_at(*src, cu_flags@, min4_w as int, *info, s, addr as int, sw as int, sh as int, bd, st, i),
                        d0[i],
                    )
                } else {
                    d0[i]
                } by {
                if i / st == py && !(i % st < x1) {
                    assert(!in_ctb(*info, addr as int, sw as int, sh as int, src.width as int, src.height as int, i % st, i / st));
                }
            }
        }
        py += 1;
    }
    proof {
        assert forall|i: int| 0 <= i < d0.len() implies #[trigger] dst.data@[i] == or_keep(
            sao_at(*src, cu_flags@, min4_w as int, *info, s, addr as int, sw as int, sh as int, bd, st, i),
            d0[i],
        ) by {
            if !(i / st < py) && st > 0 {
                assert(!in_ctb(*info, addr as int, sw as int, sh as int, src.width as int, src.height as int, i % st, i / st));
            }
        }
    }
}

/// The band offset for a sample `rec`, as [`band_value`] says.
fn band_offset(s: &SaoCtb, rec: u16, bd: u8) -> (r: Option<i32>)
    ensures
        r matches Some(v) ==> band_value(*s, rec as int, bd) == Some(v as int),
        r is None ==> band_value(*s, rec as int, bd) is None,
{
    let shift: u32 = if bd >= 5 {
        (bd - 5) as u32
    } else {
        0
    };
    proof {
        vstd::arithmetic::power2::lemma_pow2_pos(shift as nat);
    }
    let shifted: u32 = if shift < 32 {
        proof {
            vstd::bits::lemma_u32_shr_is_div(rec as u32, shift);
            assert((rec as int) / (pow2(shift as nat) as int) <= rec) by (nonlinear_arith)
                requires
                    pow2(shift as nat) >= 1,
                    rec >= 0,
            ;
        }
        (rec as u32) >> shift
    } else {
        proof {
            vstd::arithmetic::power2::lemma2_to64();
            vstd::arithmetic::power2::lemma_pow2_strictly_increases(16, shift as nat);
            assert((rec as int) / (pow2(shift as nat) as int) == 0) by (nonlinear_arith)
                requires
                    pow2(shift as nat) > rec,
                    rec >= 0,
            ;
        }
        0
    };
    let k = shifted as i32 - s.band_position as i32;
    if 0 <= k && k < 4 {
        Some(s.offsets[k as usize] as i32)
    } else {
        None
    }
}

/// `[x0, x1)` by `[y0, y1)`: the part of a `w` by `h` plane CTB `addr`
/// covers, for subsampling `sw` by `sh`.
fn ctb_region(info: &FilterInfo, addr: usize, sw: usize, sh: usize, w: usize, h: usize) -> (r: (
    usize,
    usize,
    usize,
    usize,
))
    requires
        info_ok(*info),
        info.pic_w_ctbs > 0,
        addr < info.pic_w_ctbs * info.pic_h_ctbs,
        sw >= 1,
        sh >= 1,
    ensures
        (r.0 as int, r.1 as int, r.2 as int, r.3 as int) == ctb_bounds(*info, addr as int, sw as int, sh as int, w as int, h as int),
        r.2 <= w,
        r.3 <= h,
{
    let l = info.ctb_log2;
    let (cx, cy) = (addr % info.pic_w_ctbs, addr / info.pic_w_ctbs);
    proof {
        let side = pow2(l as nat) as int;
        vstd::arithmetic::power2::lemma_pow2_pos(l as nat);
        assert(cy < info.pic_h_ctbs) by (nonlinear_arith)
            requires
                addr < info.pic_w_ctbs * info.pic_h_ctbs,
                cy == addr / info.pic_w_ctbs,
                info.pic_w_ctbs > 0,
        ;
        assert((cx + 1) * side <= info.pic_w_ctbs * side) by (nonlinear_arith)
            requires
                cx < info.pic_w_ctbs,
                side > 0,
        ;
        assert((cy + 1) * side <= info.pic_h_ctbs * side) by (nonlinear_arith)
            requires
                cy < info.pic_h_ctbs,
                side > 0,
        ;
        assert(cx * side <= (cx + 1) * side && cy * side <= (cy + 1) * side) by (nonlinear_arith)
            requires
                side > 0,
                cx >= 0,
                cy >= 0,
        ;
        vstd::bits::lemma_usize_shl_is_mul(cx, l);
        vstd::bits::lemma_usize_shl_is_mul(cy, l);
        vstd::bits::lemma_usize_shl_is_mul((cx + 1) as usize, l);
        vstd::bits::lemma_usize_shl_is_mul((cy + 1) as usize, l);
    }
    let x0 = (cx << l) / sw;
    let y0 = (cy << l) / sh;
    let x1 = ((cx + 1) << l) / sw;
    let y1 = ((cy + 1) << l) / sh;
    (x0, y0, if x1 < w {
        x1
    } else {
        w
    }, if y1 < h {
        y1
    } else {
        h
    })
}

/// Entry `y * stride + x` of a plane is sample `(x, y)` when `x < stride`.
pub(crate) proof fn lemma_index_split(x: int, y: int, stride: int)
    requires
        0 <= x < stride,
        0 <= y,
    ensures
        (y * stride + x) % stride == x,
        (y * stride + x) / stride == y,
{
    vstd::arithmetic::div_mod::lemma_fundamental_div_mod_converse(y * stride + x, stride, y, x);
}

/// Fitting with a coding-unit flag array implies fitting without one.
proof fn lemma_fits_without_flags(info: FilterInfo, min4_w: int, w: int, h: int, sw: int, sh: int)
    requires
        plane_fits(info, min4_w, w, h, sw, sh),
    ensures
        plane_fits(info, 0, w, h, sw, sh),
{
    assert forall|px: int, py: int| 0 <= px < w && 0 <= py < h implies #[trigger] fits_at(
        info,
        0,
        px,
        py,
        sw,
        sh,
    ) by {
        assert(fits_at(info, min4_w, px, py, sw, sh));
        assert((py * sh / 4) * 0 == 0);
    }
}


/// The number of CTBs SAO visits: those that both have parameters and lie
/// in the picture.
pub open spec fn ctb_count(info: FilterInfo) -> int {
    let n = info.pic_w_ctbs * info.pic_h_ctbs;
    if info.ctb@.len() < n {
        info.ctb@.len() as int
    } else {
        n as int
    }
}

/// The number of colour components SAO filters.
pub open spec fn comp_count(info: FilterInfo) -> int {
    if info.chroma_array_type == 0 {
        1
    } else {
        3
    }
}

/// The horizontal and vertical subsampling of component `c`.
pub open spec fn comp_scale(info: FilterInfo, c: int) -> (usize, usize) {
    (scale_of(c, info.sub_w), scale_of(c, info.sub_h))
}

/// The bit depth of component `c`.
pub open spec fn comp_depth(info: FilterInfo, c: int) -> u8 {
    if c == 0 {
        info.bit_depth_y
    } else {
        info.bit_depth_c
    }
}

/// Whether CTB `a` applies SAO to component `c`.
pub open spec fn applies(info: FilterInfo, a: int, c: int) -> bool {
    let t = info.ctb@[a].sao[c].type_idx;
    t == BAND || t == EDGE
}

/// Whether any visited CTB applies SAO to component `c`.
pub open spec fn used(info: FilterInfo, c: int) -> bool {
    exists|a: int| 0 <= a < ctb_count(info) && #[trigger] applies(info, a, c)
}

/// What CTB `a` makes of entry `i` of component `c`'s plane `p`, given the
/// picture's coding-unit flags, or `None` when it leaves it alone.
pub open spec fn ctb_hit(p: Plane, cu_flags: Seq<u8>, min4_w: int, info: FilterInfo, c: int, a: int, i: int) -> Option<u16> {
    if applies(info, a, c) {
        let (sw, sh) = comp_scale(info, c);
        sao_at(p, cu_flags, min4_w, info, info.ctb@[a].sao[c], a, sw as int, sh as int, comp_depth(info, c), p.stride as int, i)
    } else {
        None
    }
}

/// Entry `i` of component `c`'s plane `p` once the first `k` CTBs have been
/// filtered: the value the one CTB among them covering it gives, if any
/// covers it and changes it, and its deblocked value otherwise.
pub open spec fn sao_upto(
    p: Plane,
    cu_flags: Seq<u8>,
    min4_w: int,
    info: FilterInfo,
    c: int,
    k: int,
    i: int,
) -> u16 {
    if exists|a: int| 0 <= a < k && (#[trigger] ctb_hit(p, cu_flags, min4_w, info, c, a, i)) is Some {
        let a = choose|a: int|
            0 <= a < k && (#[trigger] ctb_hit(p, cu_flags, min4_w, info, c, a, i)) is Some;
        ctb_hit(p, cu_flags, min4_w, info, c, a, i).unwrap()
    } else {
        p.data@[i]
    }
}

/// Entry `i` of component `c`'s plane `p` after SAO.
pub open spec fn sao_result(p: Plane, cu_flags: Seq<u8>, min4_w: int, info: FilterInfo, c: int, i: int) -> u16 {
    sao_upto(p, cu_flags, min4_w, info, c, ctb_count(info), i)
}

/// What SAO needs of the picture and parameters for component `c`: its
/// samples map into the picture's CTBs, and its bit depth leaves room for
/// the sample maximum in an `i32`.
pub open spec fn comp_ready(p: Plane, min4_w: int, info: FilterInfo, c: int) -> bool {
    let (sw, sh) = comp_scale(info, c);
    &&& p.wf()
    &&& plane_fits(info, min4_w, p.width as int, p.height as int, sw as int, sh as int)
    &&& comp_depth(info, c) <= 30
}

/// Copy a plane, samples and geometry.
fn snapshot(p: &Plane) -> (r: Plane)
    ensures
        r.data@ == p.data@,
        r.stride == p.stride,
        r.width == p.width,
        r.height == p.height,
{
    let mut data: Vec<u16> = Vec::new();
    let mut i: usize = 0;
    while i < p.data.len()
        invariant
            i <= p.data@.len(),
            data@ == p.data@.subrange(0, i as int),
        decreases p.data@.len() - i,
    {
        data.push(p.data[i]);
        i += 1;
    }
    Plane { data, stride: p.stride, width: p.width, height: p.height }
}

/// Whether any of the first `n` CTBs applies SAO to component `c`.
fn any_applies(info: &FilterInfo, n: usize, c: usize) -> (r: bool)
    requires
        n as int == ctb_count(*info),
        c < 3,
    ensures
        r == used(*info, c as int),
{
    let mut a: usize = 0;
    while a < n
        invariant
            a <= n,
            n as int == ctb_count(*info),
            c < 3,
            forall|b: int| 0 <= b < a ==> !#[trigger] applies(*info, b, c as int),
        decreases n - a,
    {
        let t = info.ctb[a].sao[c].type_idx;
        if t == BAND || t == EDGE {
            assert(applies(*info, a as int, c as int));
            return true;
        }
        a += 1;
    }
    false
}

/// Filter every CTB of one component's plane, from a snapshot taken before
/// the first sample changes.
fn sao_plane(dst: &mut Plane, cu_flags: &[u8], min4_w: usize, info: &FilterInfo, c: usize, n: usize)
    requires
        c < 3,
        n as int == ctb_count(*info),
        info_ok(*info),
        info.pic_w_ctbs > 0,
        comp_ready(*old(dst), min4_w as int, *info, c as int),
    ensures
        final(dst).width == old(dst).width,
        final(dst).height == old(dst).height,
        final(dst).stride == old(dst).stride,
        final(dst).data@.len() == old(dst).data@.len(),
        forall|i: int|
            0 <= i < old(dst).data@.len() ==> #[trigger] final(dst).data@[i] == sao_result(
                *old(dst),
                cu_flags@,
                min4_w as int,
                *info,
                c as int,
                i,
            ),
{
    let ghost p0 = *dst;
    let src = snapshot(dst);
    let (sw, sh) = if c == 0 {
        (1usize, 1usize)
    } else {
        (if info.sub_w == 0 {
            1
        } else {
            info.sub_w
        }, if info.sub_h == 0 {
            1
        } else {
            info.sub_h
        })
    };
    let bd = if c == 0 {
        info.bit_depth_y
    } else {
        info.bit_depth_c
    };
    let mut a: usize = 0;
    while a < n
        invariant
            a <= n,
            c < 3,
            n as int == ctb_count(*info),
            info_ok(*info),
            info.pic_w_ctbs > 0,
            comp_ready(p0, min4_w as int, *info, c as int),
            (sw, sh) == comp_scale(*info, c as int),
            bd == comp_depth(*info, c as int),
            src.data@ == p0.data@,
            src.stride == p0.stride,
            src.width == p0.width,
            src.height == p0.height,
            dst.wf(),
            dst.width == p0.width,
            dst.height == p0.height,
            dst.stride == p0.stride,
            dst.data@.len() == p0.data@.len(),
            forall|i: int|
                0 <= i < p0.data@.len() ==> #[trigger] dst.data@[i] == sao_upto(
                    p0,
                    cu_flags@,
                    min4_w as int,
                    *info,
                    c as int,
                    a as int,
                    i,
                ),
        decreases n - a,
    {
        let s = info.ctb[a].sao[c];
        let ghost before = dst.data@;
        if s.type_idx == BAND || s.type_idx == EDGE {
            sao_ctb(dst, &src, cu_flags, min4_w, info, s, a, sw, sh, bd);
        }
        proof {
            assert forall|i: int| 0 <= i < p0.data@.len() implies #[trigger] dst.data@[i] == sao_upto(
                p0,
                cu_flags@,
                min4_w as int,
                *info,
                c as int,
                a + 1,
                i,
            ) by {
                let hit = ctb_hit(p0, cu_flags@, min4_w as int, *info, c as int, a as int, i);
                if s.type_idx == BAND || s.type_idx == EDGE {
                    assert(sao_at(src, cu_flags@, min4_w as int, *info, s, a as int, sw as int, sh as int, bd, p0.stride as int, i)
                        == hit);
                }
                if hit is Some {
                    assert forall|b: int| 0 <= b < a implies !(#[trigger] ctb_hit(
                        p0,
                        cu_flags@,
                        min4_w as int,
                        *info,
                        c as int,
                        b,
                        i,
                    ) is Some) by {
                        if ctb_hit(p0, cu_flags@, min4_w as int, *info, c as int, b, i) is Some {
                            lemma_hit_unique(p0, cu_flags@, min4_w as int, *info, c as int, b, a as int, i);
                        }
                    }
                    let w = choose|b: int|
                        0 <= b < a + 1 && (#[trigger] ctb_hit(p0, cu_flags@, min4_w as int, *info, c as int, b, i)) is Some;
                    lemma_hit_unique(p0, cu_flags@, min4_w as int, *info, c as int, w, a as int, i);
                } else {
                    assert(dst.data@[i] == before[i]);
                    if exists|b: int|
                        0 <= b < a + 1 && (#[trigger] ctb_hit(p0, cu_flags@, min4_w as int, *info, c as int, b, i)) is Some {
                        let w1 = choose|b: int|
                            0 <= b < a + 1 && (#[trigger] ctb_hit(p0, cu_flags@, min4_w as int, *info, c as int, b, i)) is Some;
                        assert(0 <= w1 < a && ctb_hit(p0, cu_flags@, min4_w as int, *info, c as int, w1, i) is Some);
                        let w0 = choose|b: int|
                            0 <= b < a && (#[trigger] ctb_hit(p0, cu_flags@, min4_w as int, *info, c as int, b, i)) is Some;
                        lemma_hit_unique(p0, cu_flags@, min4_w as int, *info, c as int, w0, w1, i);
                    }
                }
            }
        }
        a += 1;
    }
}

/// At most one CTB changes any one entry of a plane.
proof fn lemma_hit_unique(p: Plane, cu_flags: Seq<u8>, min4_w: int, info: FilterInfo, c: int, a1: int, a2: int, i: int)
    requires
        0 <= a1 < ctb_count(info),
        0 <= a2 < ctb_count(info),
        info.pic_w_ctbs > 0,
        info_ok(info),
        ctb_hit(p, cu_flags, min4_w, info, c, a1, i) is Some,
        ctb_hit(p, cu_flags, min4_w, info, c, a2, i) is Some,
    ensures
        a1 == a2,
{
    let (sw, sh) = comp_scale(info, c);
    let st = p.stride as int;
    lemma_ctb_disjoint(info, a1, a2, sw as int, sh as int, p.width as int, p.height as int, i % st, i / st);
}

/// Distinct CTBs cover disjoint parts of a plane.
proof fn lemma_ctb_disjoint(info: FilterInfo, a1: int, a2: int, sw: int, sh: int, w: int, h: int, px: int, py: int)
    requires
        0 <= a1,
        0 <= a2,
        info.pic_w_ctbs > 0,
        sw >= 1,
        sh >= 1,
        in_ctb(info, a1, sw, sh, w, h, px, py),
        in_ctb(info, a2, sw, sh, w, h, px, py),
    ensures
        a1 == a2,
{
    let wc = info.pic_w_ctbs as int;
    let side = pow2(info.ctb_log2 as nat) as int;
    vstd::arithmetic::power2::lemma_pow2_pos(info.ctb_log2 as nat);
    let (cx1, cy1) = (a1 % wc, a1 / wc);
    let (cx2, cy2) = (a2 % wc, a2 / wc);
    if cx1 < cx2 {
        assert((cx1 + 1) * side <= cx2 * side) by (nonlinear_arith)
            requires
                cx1 + 1 <= cx2,
                side > 0,
        ;
        vstd::arithmetic::div_mod::lemma_div_is_ordered((cx1 + 1) * side, cx2 * side, sw);
    } else if cx2 < cx1 {
        assert((cx2 + 1) * side <= cx1 * side) by (nonlinear_arith)
            requires
                cx2 + 1 <= cx1,
                side > 0,
        ;
        vstd::arithmetic::div_mod::lemma_div_is_ordered((cx2 + 1) * side, cx1 * side, sw);
    }
    if cy1 < cy2 {
        assert((cy1 + 1) * side <= cy2 * side) by (nonlinear_arith)
            requires
                cy1 + 1 <= cy2,
                side > 0,
        ;
        vstd::arithmetic::div_mod::lemma_div_is_ordered((cy1 + 1) * side, cy2 * side, sh);
    } else if cy2 < cy1 {
        assert((cy2 + 1) * side <= cy1 * side) by (nonlinear_arith)
            requires
                cy2 + 1 <= cy1,
                side > 0,
        ;
        vstd::arithmetic::div_mod::lemma_div_is_ordered((cy2 + 1) * side, cy1 * side, sh);
    }
    vstd::arithmetic::div_mod::lemma_fundamental_div_mod(a1, wc);
    vstd::arithmetic::div_mod::lemma_fundamental_div_mod(a2, wc);
}

/// Component `c`'s plane of a picture: luma, Cb, then Cr.
pub open spec fn comp_plane(pic: Picture, c: int) -> Plane {
    if c == 0 {
        pic.y
    } else if c == 1 {
        pic.cb
    } else {
        pic.cr
    }
}

/// Whether SAO runs on a picture at all.
pub open spec fn sao_runs(info: FilterInfo) -> bool {
    info.sao_enabled && info.pic_w_ctbs > 0
}

/// Entry `i` of component `c`'s plane of `pic` after [`sao`].
pub open spec fn sao_entry(pic: Picture, info: FilterInfo, c: int, i: int) -> u16 {
    if sao_runs(info) && c < comp_count(info) {
        sao_result(comp_plane(pic, c), pic.cu_flags@, pic.min4_w as int, info, c, i)
    } else {
        comp_plane(pic, c).data@[i]
    }
}

/// Applies the sample adaptive offset filter of clause 8.7.3 to `pic` in place.
///
/// Does nothing unless `info.sao_enabled`; coding tree blocks whose
/// `SaoTypeIdx` is zero keep their deblocked samples. Each sample is
/// computed from the deblocked picture, never from a sample SAO already
/// changed, so the result does not depend on the order CTBs are visited in.
pub fn sao(pic: &mut Picture, info: &FilterInfo)
    requires
        sao_runs(*info) ==> info_ok(*info),
        forall|c: int|
            0 <= c < comp_count(*info) && sao_runs(*info) && used(*info, c) ==> #[trigger] comp_ready(
                comp_plane(*old(pic), c),
                old(pic).min4_w as int,
                *info,
                c,
            ),
    ensures
        final(pic).min4_w == old(pic).min4_w,
        final(pic).min4_h == old(pic).min4_h,
        final(pic).intra_mode == old(pic).intra_mode,
        final(pic).qp_y == old(pic).qp_y,
        final(pic).cu_flags == old(pic).cu_flags,
        final(pic).ct_depth == old(pic).ct_depth,
        final(pic).min8_w == old(pic).min8_w,
        final(pic).min8_h == old(pic).min8_h,
        final(pic).edges == old(pic).edges,
        forall|c: int|
            0 <= c < 3 ==> {
                &&& (#[trigger] comp_plane(*final(pic), c)).width == comp_plane(*old(pic), c).width
                &&& comp_plane(*final(pic), c).height == comp_plane(*old(pic), c).height
                &&& comp_plane(*final(pic), c).stride == comp_plane(*old(pic), c).stride
                &&& comp_plane(*final(pic), c).data@.len() == comp_plane(*old(pic), c).data@.len()
            },
        forall|c: int, i: int|
            0 <= c < 3 && 0 <= i < comp_plane(*old(pic), c).data@.len() ==> #[trigger] comp_plane(
                *final(pic),
                c,
            ).data@[i] == sao_entry(*old(pic), *info, c, i),
{
    let ghost p0 = *pic;
    if !info.sao_enabled || info.pic_w_ctbs == 0 {
        return;
    }
    let ncomp: usize = if info.chroma_array_type == 0 {
        1
    } else {
        3
    };
    let total = info.pic_w_ctbs * info.pic_h_ctbs;
    let n = if info.ctb.len() < total {
        info.ctb.len()
    } else {
        total
    };
    let min4_w = pic.min4_w;
    if any_applies(info, n, 0) {
        proof {
            assert(comp_ready(comp_plane(p0, 0), p0.min4_w as int, *info, 0));
        }
        sao_plane(&mut pic.y, &pic.cu_flags, min4_w, info, 0, n);
    } else {
        proof {
            lemma_unused_keeps(pic.y, pic.cu_flags@, min4_w as int, *info, 0);
        }
    }
    if ncomp == 3 {
        if any_applies(info, n, 1) {
            proof {
                assert(comp_ready(comp_plane(p0, 1), p0.min4_w as int, *info, 1));
            }
            sao_plane(&mut pic.cb, &pic.cu_flags, min4_w, info, 1, n);
        } else {
            proof {
                lemma_unused_keeps(pic.cb, pic.cu_flags@, min4_w as int, *info, 1);
            }
        }
        if any_applies(info, n, 2) {
            proof {
                assert(comp_ready(comp_plane(p0, 2), p0.min4_w as int, *info, 2));
            }
            sao_plane(&mut pic.cr, &pic.cu_flags, min4_w, info, 2, n);
        } else {
            proof {
                lemma_unused_keeps(pic.cr, pic.cu_flags@, min4_w as int, *info, 2);
            }
        }
    }
    proof {
        assert forall|c: int, i: int|
            0 <= c < 3 && 0 <= i < comp_plane(p0, c).data@.len() implies #[trigger] comp_plane(*pic, c).data@[i]
            == sao_entry(p0, *info, c, i) by {
            if c == 0 {
            } else if c == 1 {
            } else {
            }
        }
    }
}

/// A component no visited CTB applies SAO to keeps every sample.
proof fn lemma_unused_keeps(p: Plane, cu_flags: Seq<u8>, min4_w: int, info: FilterInfo, c: int)
    requires
        !used(info, c),
    ensures
        forall|i: int| #[trigger] sao_result(p, cu_flags, min4_w, info, c, i) == p.data@[i],
{
    assert forall|i: int| #[trigger] sao_result(p, cu_flags, min4_w, info, c, i) == p.data@[i] by {
        assert forall|a: int| 0 <= a < ctb_count(info) implies !(#[trigger] ctb_hit(p, cu_flags, min4_w, info, c, a, i) is Some) by {
            assert(!applies(info, a, c));
        }
    }
}

/// Sample `(x, y)` of a well-formed plane lies inside its storage.
pub proof fn lemma_sample_in_plane(p: Plane, x: int, y: int)
    requires
        p.wf(),
        0 <= x < p.width,
        0 <= y < p.height,
    ensures
        0 <= p.index_of(x, y) < p.data@.len(),
{
    assert(0 <= y * p.stride + x < p.stride * p.height) by (nonlinear_arith)
        requires
            0 <= x < p.width,
            p.width <= p.stride,
            0 <= y < p.height,
    ;
}

} // verus!
