//! Intra prediction mode derivation (clauses 8.4.2 and 8.4.3): the most
//! probable mode list, the luma mode a coding unit's syntax selects, and
//! the chroma mode derived from it.

use vstd::prelude::*;

use super::geom::Geometry;
use super::residual_ctx::{bypass_run, decision_step, state_of};
use super::state::{available, available_at, lemma_ctb_inside};
use crate::hevc::picture::{Picture, flags, in_fill};
use crate::hevc::ps::Sps;
use vstd::arithmetic::power2::pow2;
use crate::hevc::cabac::engine::{Cabac, bypass_value, read_limit};
use crate::hevc::cabac::off;
use crate::hevc::error::Result;

verus! {

/// `INTRA_PLANAR`.
pub const PLANAR: u8 = 0;

/// `INTRA_DC`.
pub const DC: u8 = 1;

/// `INTRA_ANGULAR26`, the vertical mode.
pub const VER: u8 = 26;

/// Table 8-3, mapping a chroma mode to its 4:2:2 equivalent.
pub const MAP_422: [u8; 35] = [
    0, 1, 2, 2, 2, 2, 3, 5, 7, 8, 10, 12, 13, 15, 16, 18, 20, 22, 23, 25, 27, 29, 31, 33, 34, 34,
    34, 34, 34, 34, 34, 34, 34, 34, 34,
];

/// `candModeList` of clause 8.4.2 for the neighbour modes `a` (left) and
/// `b` (above): planar, DC and vertical when both are the same non-angular
/// mode; the shared angular mode and its two angular neighbours when both
/// are that mode; otherwise both, then the first of planar, DC and vertical
/// that neither is.
pub open spec fn cand_list(a: u8, b: u8) -> Seq<u8> {
    if a == b {
        if a < 2 {
            seq![PLANAR, DC, VER]
        } else {
            seq![a, (2 + ((a + 29) % 32)) as u8, (2 + ((a - 2 + 1) % 32)) as u8]
        }
    } else {
        let third = if a != PLANAR && b != PLANAR {
            PLANAR
        } else if a != DC && b != DC {
            DC
        } else {
            VER
        };
        seq![a, b, third]
    }
}

/// Derives `candModeList` from the neighbour modes `candIntraPredModeA`
/// and `candIntraPredModeB` (clause 8.4.2).
pub fn candidates(a: u8, b: u8) -> (r: [u8; 3])
    requires
        a <= 34,
        b <= 34,
    ensures
        r@ == cand_list(a, b),
        r[0] != r[1] && r[1] != r[2] && r[0] != r[2],
        r[0] <= 34 && r[1] <= 34 && r[2] <= 34,
{
    if a == b {
        if a < 2 {
            [PLANAR, DC, VER]
        } else {
            [a, 2 + ((a + 29) % 32), 2 + ((a - 2 + 1) % 32)]
        }
    } else {
        let third = if a != PLANAR && b != PLANAR {
            PLANAR
        } else if a != DC && b != DC {
            DC
        } else {
            VER
        };
        [a, b, third]
    }
}

/// The smallest, middle and largest of three values.
pub open spec fn sorted3(c: Seq<u8>) -> (int, int, int) {
    let (x, y, z) = (c[0] as int, c[1] as int, c[2] as int);
    let lo = if x <= y && x <= z {
        x
    } else if y <= z {
        y
    } else {
        z
    };
    let hi = if x >= y && x >= z {
        x
    } else if y >= z {
        y
    } else {
        z
    };
    (lo, x + y + z - lo - hi, hi)
}

/// `mpm_idx` or `rem_intra_luma_pred_mode` turned into `IntraPredModeY`
/// (clause 8.4.2): with `prev_intra_luma_pred_flag` set, candidate `sel`
/// (at most the last); otherwise `sel` stepped up past each candidate, in
/// ascending order, that it reaches, and capped at 34.
pub open spec fn luma_mode_from(prev: bool, sel: u32, c: Seq<u8>) -> u8 {
    if prev {
        c[if sel < 2 { sel as int } else { 2 }]
    } else {
        let (s0, s1, s2) = sorted3(c);
        let m1 = if sel >= s0 { sel + 1 } else { sel as int };
        let m2 = if m1 >= s1 { m1 + 1 } else { m1 };
        let m3 = if m2 >= s2 { m2 + 1 } else { m2 };
        if m3 > 34 { 34 } else { m3 as u8 }
    }
}

/// Turns the parsed luma mode syntax of one prediction block into its mode.
pub fn derive_luma_mode(prev: bool, sel: u32, cands: [u8; 3]) -> (m: u8)
    requires
        sel <= 31,
    ensures
        m == luma_mode_from(prev, sel, cands@),
        m <= 34 || prev,
{
    if prev {
        return cands[if sel < 2 { sel as usize } else { 2 }];
    }
    let mut c = cands;
    if c[0] > c[1] {
        let t = c[0];
        c[0] = c[1];
        c[1] = t;
    }
    if c[1] > c[2] {
        let t = c[1];
        c[1] = c[2];
        c[2] = t;
    }
    if c[0] > c[1] {
        let t = c[0];
        c[0] = c[1];
        c[1] = t;
    }
    proof {
        let (s0, s1, s2) = sorted3(cands@);
        assert(c[0] == s0 && c[1] == s1 && c[2] == s2);
    }
    let mut m = sel;
    let mut i: usize = 0;
    while i < 3
        invariant
            i <= 3,
            sel <= 31,
            m <= sel + i,
            c[0] <= c[1] <= c[2],
            ({
                let (s0, s1, s2) = sorted3(cands@);
                let m1 = if sel >= s0 { sel + 1 } else { sel as int };
                let m2 = if m1 >= s1 { m1 + 1 } else { m1 };
                let m3 = if m2 >= s2 { m2 + 1 } else { m2 };
                &&& c[0] == s0 && c[1] == s1 && c[2] == s2
                &&& i == 0 ==> m == sel
                &&& i == 1 ==> m == m1
                &&& i == 2 ==> m == m2
                &&& i == 3 ==> m == m3
            }),
        decreases 3 - i,
    {
        if m >= c[i] as u32 {
            m += 1;
        }
        i += 1;
    }
    if m > 34 {
        34
    } else {
        m as u8
    }
}

/// A luma mode chosen by `rem_intra_luma_pred_mode` is never one of the
/// most probable modes, and is a mode: the 32 remaining codes name exactly
/// the 32 modes outside the list.
pub proof fn lemma_rem_mode_avoids_candidates(a: u8, b: u8, sel: u32)
    requires
        a <= 34,
        b <= 34,
        sel <= 31,
    ensures
        ({
            let c = cand_list(a, b);
            let m = luma_mode_from(false, sel, c);
            &&& m <= 34
            &&& m != c[0] && m != c[1] && m != c[2]
        }),
{
}

/// `IntraPredModeC` of clause 8.4.3 for `intra_chroma_pred_mode` `raw` and
/// the luma mode `luma`: planar, vertical, horizontal or DC, replaced by
/// mode 34 when it repeats the luma mode, or the luma mode itself for code
/// 4; then mapped through Table 8-3 in 4:2:2.
pub open spec fn chroma_mode_from(raw: u32, luma: u8, chroma_array_type: u8) -> u8 {
    let m = if raw == 0 {
        PLANAR
    } else if raw == 1 {
        VER
    } else if raw == 2 {
        10u8
    } else if raw == 3 {
        DC
    } else {
        luma
    };
    let m = if raw != 4 && m == luma { 34u8 } else { m };
    if chroma_array_type == 2 { MAP_422[m as int] } else { m }
}

/// Derives the chroma mode of one prediction block.
pub fn derive_chroma_mode(raw: u32, luma: u8, chroma_array_type: u8) -> (m: u8)
    requires
        chroma_array_type == 2 ==> luma <= 34,
    ensures
        m == chroma_mode_from(raw, luma, chroma_array_type),
        luma <= 34 ==> m <= 34,
{
    let mut m = match raw {
        0 => PLANAR,
        1 => VER,
        2 => 10,
        3 => DC,
        _ => luma,
    };
    if raw != 4 && m == luma {
        m = 34;
    }
    if chroma_array_type == 2 {
        m = MAP_422[m as usize];
    }
    m
}

/// The `intra_chroma_pred_mode` syntax of prediction blocks `k` to `n - 1`
/// read from decoder state `st`, each a context-coded flag followed, when
/// set, by two bypass bins; and the chroma modes it derives from the luma
/// modes `mode_y` (the first one when there is a single block). Whether the
/// stream held all of it, the modes, and the decoder state after it.
pub open spec fn chroma_syntax(
    data: Seq<u8>,
    st: (Seq<u8>, int, int, int),
    k: int,
    n: int,
    cat: u8,
    mode_y: Seq<u8>,
) -> (bool, Seq<u8>, (Seq<u8>, int, int, int))
    decreases n - k,
{
    if k >= n {
        (true, Seq::empty(), st)
    } else {
        let (ok1, bin, st1) = decision_step(data, st, off::INTRA_CHROMA as int);
        let (ok2, raw, st2) = if bin == 0 {
            (true, 4int, st1)
        } else {
            bypass_run(data, st1, 2)
        };
        let luma = mode_y[if n == 4 { k } else { 0 }];
        let (ok3, rest, st3) = chroma_syntax(data, st2, k + 1, n, cat, mode_y);
        (ok1 && ok2 && ok3, seq![chroma_mode_from(raw as u32, luma, cat)] + rest, st3)
    }
}

/// How many chroma prediction blocks a coding unit has: four in 4:4:4 when
/// it is split into four luma blocks, one otherwise.
pub open spec fn chroma_blocks(cat: u8, intra_split: bool) -> int {
    if cat == 3 && intra_split {
        4
    } else {
        1
    }
}

/// Parses `intra_chroma_pred_mode` and derives `IntraPredModeC` (clause
/// 8.4.3) into `mode_c`, from the coding unit's luma modes `mode_y`.
///
/// `cat` is `ChromaArrayType` (nothing is read without chroma) and
/// `intra_split` is `IntraSplitFlag`. With a single chroma block its mode is
/// copied to all four entries.
pub fn chroma_mode(cab: &mut Cabac, cat: u8, intra_split: bool, mode_y: &[u8; 4], mode_c: &mut [u8; 4]) -> (r: Result<()>)
    requires
        old(cab).wf(),
        old(cab).engine_ok(),
        forall|k: int| 0 <= k < 4 ==> #[trigger] mode_y@[k] <= 34,
    ensures
        final(cab).same_stream(old(cab)),
        cat == 0 ==> r is Ok && final(mode_c)@ == old(mode_c)@ && state_of(final(cab)) == state_of(old(cab)),
        cat != 0 ==> {
            let n = chroma_blocks(cat, intra_split);
            let (ok, ms, end) = chroma_syntax(old(cab).spec_data(), state_of(old(cab)), 0, n, cat, mode_y@);
            &&& r is Ok <==> ok
            &&& r matches Err(e) ==> e is Truncated
            &&& r is Ok ==> final(cab).engine_ok()
            &&& r is Ok ==> state_of(final(cab)) == end
            &&& r is Ok ==> final(mode_c)@ == if n == 1 {
                seq![ms[0], ms[0], ms[0], ms[0]]
            } else {
                ms
            }
        },
{
    if cat == 0 {
        return Ok(());
    }
    let n: usize = if cat == 3 && intra_split {
        4
    } else {
        1
    };
    let ghost c0 = *cab;
    let mut k: usize = 0;
    while k < n
        invariant
            k <= n,
            n == chroma_blocks(cat, intra_split),
            cat != 0,
            cab.same_stream(&c0),
            c0 == *old(cab),
            cab.engine_ok(),
            forall|j: int| 0 <= j < 4 ==> #[trigger] mode_y@[j] <= 34,
            ({
                let (ok0, all, end0) = chroma_syntax(c0.spec_data(), state_of(&c0), 0, n as int, cat, mode_y@);
                let (ok, rest, end) = chroma_syntax(c0.spec_data(), state_of(cab), k as int, n as int, cat, mode_y@);
                &&& ok0 == ok
                &&& ok ==> all =~= mode_c@.subrange(0, k as int) + rest && end0 == end
            }),
        decreases n - k,
    {
        let ghost st = state_of(cab);
        let bin = match cab.decision(off::INTRA_CHROMA) {
            Ok(b) => b,
            Err(e) => {
                return Err(e);
            },
        };
        let raw = if bin == 0 {
            4
        } else {
            match cab.bypass_bits(2) {
                Ok(v) => v,
                Err(e) => {
                    return Err(e);
                },
            }
        };
        let luma = mode_y[if n == 4 {
            k
        } else {
            0
        }];
        mode_c[k] = derive_chroma_mode(raw, luma, cat);
        proof {
            let (ok, rest, end) = chroma_syntax(c0.spec_data(), st, k as int, n as int, cat, mode_y@);
            let (ok3, rest3, end3) = chroma_syntax(c0.spec_data(), state_of(cab), k + 1, n as int, cat, mode_y@);
            assert(ok == ok3);
            if ok {
                assert(rest =~= seq![mode_c@[k as int]] + rest3);
                assert(mode_c@.subrange(0, k + 1) =~= mode_c@.subrange(0, k as int) + seq![mode_c@[k as int]]);
            }
        }
        k += 1;
    }
    if n == 1 {
        mode_c[1] = mode_c[0];
        mode_c[2] = mode_c[0];
        mode_c[3] = mode_c[0];
    }
    Ok(())
}

/// `candIntraPredModeX` (clause 8.4.2) for the neighbour at `(nx, ny)` of
/// the block at `(x, y)`, reading the luma modes recorded in `modes`: DC when
/// the neighbour lies in the coding tree block row above (`above_ctb`), is
/// unavailable, or is PCM coded; its recorded mode otherwise.
pub open spec fn neighbour_mode_of(
    pic: &Picture,
    modes: Seq<u8>,
    geo: &Geometry,
    slice_addr: Seq<u32>,
    sps: &Sps,
    x: int,
    y: int,
    nx: int,
    ny: int,
    above_ctb: bool,
) -> u8 {
    if above_ctb || !available_at(geo, slice_addr, sps.width as int, sps.height as int, x, y, nx, ny) {
        DC
    } else if pic.cu_flags@[pic.idx4_of(nx, ny)] & flags::PCM != 0 {
        DC
    } else {
        modes[pic.idx4_of(nx, ny)]
    }
}

/// What a block may rely on of the picture and the geometry around it:
/// both well formed and describing the same picture, and its position
/// `(x, y)` on the coding tree block grid.
#[verifier::opaque]
pub open spec fn context_ok(pic: &Picture, geo: &Geometry, slice_addr: Seq<u32>, sps: &Sps, x: int, y: int) -> bool {
    &&& pic.wf()
    &&& pic.min4_w > 0
    &&& pic.min4_h > 0
    &&& geo.tables_ok()
    &&& geo.ctb_log2 < usize::BITS
    &&& geo.min_tb_log2 < usize::BITS
    &&& sps.width <= geo.w_ctbs * pow2(geo.ctb_log2 as nat)
    &&& sps.height <= geo.h_ctbs * pow2(geo.ctb_log2 as nat)
    &&& slice_addr.len() == geo.size_ctbs
    &&& 0 <= x < geo.w_ctbs * pow2(geo.ctb_log2 as nat)
    &&& 0 <= y < geo.h_ctbs * pow2(geo.ctb_log2 as nat)
}

/// `candIntraPredModeX` for the neighbour at `(nx, ny)` of the block at
/// `(x, y)`, from the modes the picture has recorded.
pub fn neighbour_mode(
    pic: &Picture,
    geo: &Geometry,
    slice_addr: &[u32],
    sps: &Sps,
    x: usize,
    y: usize,
    nx: isize,
    ny: isize,
    above_ctb: bool,
) -> (r: u8)
    requires
        context_ok(pic, geo, slice_addr@, sps, x as int, y as int),
    ensures
        r == neighbour_mode_of(pic, pic.intra_mode@, geo, slice_addr@, sps, x as int, y as int, nx as int, ny as int, above_ctb),
        (forall|t: int| 0 <= t < pic.intra_mode@.len() ==> #[trigger] pic.intra_mode@[t] <= 34) ==> r <= 34,
{
    proof {
        reveal(context_ok);
        lemma_ctb_inside(geo, x as int, y as int);
    }
    if above_ctb || !available(geo, slice_addr, sps.width, sps.height, x, y, nx, ny) {
        return DC;
    }
    let (nx, ny) = (nx as usize, ny as usize);
    let _ = pic.cu_flags.len();
    let i = pic.idx4(nx, ny);
    if pic.cu_flags[i] & flags::PCM != 0 {
        return DC;
    }
    pic.intra_mode[i]
}

/// `prev_intra_luma_pred_flag` of prediction blocks `k` to `nn - 1`, read
/// from decoder state `st`: whether the stream held them, the flags, and
/// the state after them.
pub open spec fn prev_flags(data: Seq<u8>, st: (Seq<u8>, int, int, int), k: int, nn: int) -> (bool, Seq<bool>, (
    Seq<u8>,
    int,
    int,
    int,
))
    decreases nn - k,
{
    if k >= nn {
        (true, Seq::empty(), st)
    } else {
        let (ok, bin, st1) = decision_step(data, st, off::PREV_INTRA as int);
        let (ok2, rest, st2) = prev_flags(data, st1, k + 1, nn);
        (ok && ok2, seq![bin != 0] + rest, st2)
    }
}

/// `mpm_idx` (a truncated unary code of up to two bypass bins) where `prev`
/// is set, else `rem_intra_luma_pred_mode` (five bypass bins), for
/// prediction blocks `k` to `nn - 1` read from decoder state `st`.
pub open spec fn mode_codes(data: Seq<u8>, st: (Seq<u8>, int, int, int), k: int, nn: int, prev: Seq<bool>) -> (
    bool,
    Seq<u32>,
    (Seq<u8>, int, int, int),
)
    decreases nn - k,
{
    if k >= nn {
        (true, Seq::empty(), st)
    } else {
        let (ok, v, st1) = if prev[k] {
            let (ok1, b1, s1) = bypass_run(data, st, 1);
            if b1 == 1 {
                let (ok2, b2, s2) = bypass_run(data, s1, 1);
                (ok1 && ok2, 1 + b2, s2)
            } else {
                (ok1, 0int, s1)
            }
        } else {
            bypass_run(data, st, 5)
        };
        let (ok3, rest, st3) = mode_codes(data, st1, k + 1, nn, prev);
        (ok && ok3, seq![v as u32] + rest, st3)
    }
}

/// The position of prediction block `k` of a coding unit at `(x0, y0)`
/// split `n` by `n` into blocks `off` wide.
pub open spec fn block_pos(x0: int, y0: int, n: int, off: int, k: int) -> (int, int) {
    (x0 + (k % n) * off, y0 + (k / n) * off)
}

/// `modes` with the 4x4 entries of the block `size` wide at `(x, y)` set to
/// `m`.
pub open spec fn filled(modes: Seq<u8>, w: int, x: int, y: int, size: int, m: u8) -> Seq<u8> {
    Seq::new(modes.len(), |t: int| if in_fill(t, w, x / 4, y / 4, size / 4) { m } else { modes[t] })
}

/// The luma modes of prediction blocks `k` to `nn - 1` of a coding unit at
/// `(x0, y0)` split `n` by `n` into blocks `off` wide, each derived
/// from its candidate list, which is read off `modes` as the earlier blocks
/// left it; and `modes` once every block's 4x4 entries hold its mode.
pub open spec fn luma_derive(
    pic: &Picture,
    modes: Seq<u8>,
    geo: &Geometry,
    slice_addr: Seq<u32>,
    sps: &Sps,
    x0: int,
    y0: int,
    n: int,
    nn: int,
    off: int,
    prev: Seq<bool>,
    codes: Seq<u32>,
    k: int,
) -> (Seq<u8>, Seq<u8>)
    decreases nn - k,
{
    if k >= nn {
        (Seq::empty(), modes)
    } else {
        let (x, y) = block_pos(x0, y0, n, off, k);
        let a = neighbour_mode_of(pic, modes, geo, slice_addr, sps, x, y, x - 1, y, false);
        let b = neighbour_mode_of(
            pic,
            modes,
            geo,
            slice_addr,
            sps,
            x,
            y,
            x,
            y - 1,
            y % pow2(sps.log2_ctb as nat) as int == 0,
        );
        let m = luma_mode_from(prev[k], codes[k], cand_list(a, b));
        let (rest, last) = luma_derive(
            pic,
            filled(modes, pic.min4_w as int, x, y, off, m),
            geo,
            slice_addr,
            sps,
            x0,
            y0,
            n,
            nn,
            off,
            prev,
            codes,
            k + 1,
        );
        (seq![m] + rest, last)
    }
}

/// The context a coding unit may rely on holds at every position inside
/// it, and still holds once the picture's modes have changed.
proof fn lemma_context_at(p0: &Picture, pic: &Picture, geo: &Geometry, slice_addr: Seq<u32>, sps: &Sps, x0: int, y0: int, x: int, y: int)
    requires
        context_ok(p0, geo, slice_addr, sps, x0, y0),
        pic.same_but_modes(p0),
        pic.intra_mode@.len() == p0.intra_mode@.len(),
        0 <= x < geo.w_ctbs * pow2(geo.ctb_log2 as nat),
        0 <= y < geo.h_ctbs * pow2(geo.ctb_log2 as nat),
    ensures
        context_ok(pic, geo, slice_addr, sps, x, y),
{
    reveal(context_ok);
}

/// One step of the derivation: a block whose mode `m` was derived from the
/// modes `pk` records, and which then recorded it, heads the rest.
proof fn lemma_derive_step(
    p0: &Picture,
    pk: &Picture,
    next: Seq<u8>,
    geo: &Geometry,
    slice_addr: Seq<u32>,
    sps: &Sps,
    x0: int,
    y0: int,
    n: int,
    nn: int,
    off: int,
    prev: Seq<bool>,
    codes: Seq<u32>,
    k: int,
    m: u8,
)
    requires
        0 <= k < nn,
        pk.same_but_modes(p0),
        ({
            let (x, y) = block_pos(x0, y0, n, off, k);
            let a = neighbour_mode_of(pk, pk.intra_mode@, geo, slice_addr, sps, x, y, x - 1, y, false);
            let b = neighbour_mode_of(pk, pk.intra_mode@, geo, slice_addr, sps, x, y, x, y - 1, y % pow2(sps.log2_ctb as nat) as int == 0);
            &&& m == luma_mode_from(prev[k], codes[k], cand_list(a, b))
            &&& next == filled(pk.intra_mode@, p0.min4_w as int, x, y, off, m)
        }),
    ensures
        ({
            let (rest, last) = luma_derive(p0, next, geo, slice_addr, sps, x0, y0, n, nn, off, prev, codes, k + 1);
            luma_derive(p0, pk.intra_mode@, geo, slice_addr, sps, x0, y0, n, nn, off, prev, codes, k) == (seq![m] + rest, last)
        }),
{
}

/// Derives the luma mode of the prediction block `off` wide at `(x, y)` from
/// its parsed syntax (`prev`, `sel`) and the modes its left and upper
/// neighbours have recorded, and records it over the block's 4x4 entries.
fn derive_block(
    pic: &mut Picture,
    geo: &Geometry,
    slice_addr: &[u32],
    sps: &Sps,
    x: usize,
    y: usize,
    off: usize,
    ctb_size: usize,
    prev: bool,
    sel: u32,
) -> (m: u8)
    requires
        context_ok(old(pic), geo, slice_addr@, sps, x as int, y as int),
        x <= 0x2000_0000,
        y <= 0x2000_0000,
        ctb_size == pow2(sps.log2_ctb as nat),
        ctb_size > 0,
        sel <= 31,
        off / 4 > 0 ==> (y / 4 + off / 4 - 1) * old(pic).min4_w + x / 4 + off / 4 - 1 <= usize::MAX,
        forall|t: int| 0 <= t < old(pic).intra_mode@.len() ==> #[trigger] old(pic).intra_mode@[t] <= 34,
    ensures
        ({
            let modes = old(pic).intra_mode@;
            let a = neighbour_mode_of(old(pic), modes, geo, slice_addr@, sps, x as int, y as int, x - 1, y as int, false);
            let b = neighbour_mode_of(
                old(pic),
                modes,
                geo,
                slice_addr@,
                sps,
                x as int,
                y as int,
                x as int,
                y - 1,
                y as int % pow2(sps.log2_ctb as nat) as int == 0,
            );
            m == luma_mode_from(prev, sel, cand_list(a, b))
        }),
        m <= 34,
        final(pic).intra_mode@ == filled(old(pic).intra_mode@, old(pic).min4_w as int, x as int, y as int, off as int, m),
        final(pic).same_but_modes(old(pic)),
{
    let a = neighbour_mode(pic, geo, slice_addr, sps, x, y, x as isize - 1, y as isize, false);
    let b = neighbour_mode(pic, geo, slice_addr, sps, x, y, x as isize, y as isize - 1, y % ctb_size == 0);
    let cands = candidates(a, b);
    let mode = derive_luma_mode(prev, sel, cands);
    let ghost before = pic.intra_mode@;
    let w = pic.min4_w;
    Picture::fill4(pic.intra_mode.as_mut_slice(), w, x, y, off, mode);
    proof {
        assert(pic.intra_mode@ =~= filled(before, w as int, x as int, y as int, off as int, mode));
    }
    mode
}

/// Parses the luma intra prediction modes of a coding unit `2^log2_size`
/// wide at `(x0, y0)` and derives them (clause 8.4.2): into `mode_y`, one
/// per prediction block (four when `intra_split`), and into the picture's
/// 4x4 mode array, where later blocks and coding units find them.
#[verifier::spinoff_prover]
#[verifier::rlimit(50)]
pub fn luma_mode(
    cab: &mut Cabac,
    pic: &mut Picture,
    geo: &Geometry,
    slice_addr: &[u32],
    sps: &Sps,
    intra_split: bool,
    x0: usize,
    y0: usize,
    log2_size: usize,
    mode_y: &mut [u8; 4],
) -> (r: Result<()>)
    requires
        old(cab).wf(),
        old(cab).engine_ok(),
        2 <= log2_size <= 6,
        sps.log2_ctb < usize::BITS,
        context_ok(old(pic), geo, slice_addr@, sps, x0 as int, y0 as int),
        x0 + pow2(log2_size as nat) <= geo.w_ctbs * pow2(geo.ctb_log2 as nat),
        y0 + pow2(log2_size as nat) <= geo.h_ctbs * pow2(geo.ctb_log2 as nat),
        x0 <= 0x1000_0000,
        y0 <= 0x1000_0000,
        (y0 / 4 + 32) * old(pic).min4_w + x0 / 4 + 32 <= usize::MAX,
        forall|t: int| 0 <= t < old(pic).intra_mode@.len() ==> #[trigger] old(pic).intra_mode@[t] <= 34,
    ensures
        final(cab).same_stream(old(cab)),
        ({
            let (n, nn): (int, int) = if intra_split { (2, 4) } else { (1, 1) };
            let size = pow2(log2_size as nat) as int;
            let (ok1, prev, s1) = prev_flags(old(cab).spec_data(), state_of(old(cab)), 0, nn);
            let (ok2, codes, s2) = mode_codes(old(cab).spec_data(), s1, 0, nn, prev);
            let (ms, modes) = luma_derive(
                old(pic),
                old(pic).intra_mode@,
                geo,
                slice_addr@,
                sps,
                x0 as int,
                y0 as int,
                n,
                nn,
                size / n,
                prev,
                codes,
                0,
            );
            &&& r is Ok <==> ok1 && ok2
            &&& r matches Err(e) ==> e is Truncated
            &&& r is Ok ==> {
                &&& final(cab).engine_ok()
                &&& state_of(final(cab)) == s2
                &&& final(mode_y)@.subrange(0, nn) == ms
                &&& final(pic).intra_mode@ == modes
                &&& final(pic).same_but_modes(old(pic))
            }
        }),
{
    proof {
        vstd::arithmetic::power2::lemma2_to64();
        vstd::bits::lemma_usize_pow2_no_overflow(log2_size as nat);
        vstd::bits::lemma_usize_shl_is_mul(1, log2_size);
        vstd::arithmetic::power2::lemma_pow2_unfold(log2_size as nat);
        vstd::bits::lemma_usize_pow2_no_overflow(sps.log2_ctb as nat);
        vstd::bits::lemma_usize_shl_is_mul(1, sps.log2_ctb);
        vstd::arithmetic::power2::lemma_pow2_pos(sps.log2_ctb as nat);
    }
    let size = 1usize << log2_size;
    let ctb_size = 1usize << sps.log2_ctb;
    let n: usize = if intra_split {
        2
    } else {
        1
    };
    let nn: usize = if intra_split {
        4
    } else {
        1
    };
    let off_pb = size / n;
    proof {
        if intra_split {
            assert(n == 2 && nn == 4);
            assert(off_pb * 2 == size) by (nonlinear_arith)
                requires
                    off_pb == size / 2,
                    size == 2 * pow2((log2_size - 1) as nat),
            ;
        } else {
            assert(n == 1 && nn == 1);
        }
        assert(nn == n * n);
        assert(off_pb * n == size);
        if log2_size < 6 {
            vstd::arithmetic::power2::lemma_pow2_strictly_increases(log2_size as nat, 6);
        }
        if log2_size > 2 {
            vstd::arithmetic::power2::lemma_pow2_strictly_increases(2, log2_size as nat);
        }
        assert(size <= 64 && size >= 4);
        assert(off_pb >= 2);
    }
    let ghost c0 = *cab;
    let ghost data = c0.spec_data();
    let mut prev = [false; 4];
    let mut k: usize = 0;
    while k < nn
        invariant
            k <= nn <= 4,
            nn == if intra_split { 4usize } else { 1usize },
            cab.same_stream(&c0),
            c0 == *old(cab),
            data == c0.spec_data(),
            cab.engine_ok(),
            ({
                let (ok0, all, end0) = prev_flags(data, state_of(&c0), 0, nn as int);
                let (ok, rest, end) = prev_flags(data, state_of(cab), k as int, nn as int);
                &&& ok0 == ok
                &&& ok ==> all =~= prev@.subrange(0, k as int) + rest && end0 == end
            }),
        decreases nn - k,
    {
        let ghost st = state_of(cab);
        let bin = match cab.decision(off::PREV_INTRA) {
            Ok(b) => b,
            Err(e) => {
                return Err(e);
            },
        };
        prev[k] = bin != 0;
        proof {
            let (ok, rest, end) = prev_flags(data, st, k as int, nn as int);
            let (ok3, rest3, end3) = prev_flags(data, state_of(cab), k + 1, nn as int);
            if ok {
                assert(rest =~= seq![prev@[k as int]] + rest3);
                assert(prev@.subrange(0, k + 1) =~= prev@.subrange(0, k as int) + seq![prev@[k as int]]);
            }
        }
        k += 1;
    }
    proof {
        assert(prev@.subrange(0, nn as int) + Seq::<bool>::empty() =~= prev@.subrange(0, nn as int));
    }
    let ghost pv = prev@.subrange(0, nn as int);
    let ghost c1 = *cab;
    proof {
        assert(prev_flags(data, state_of(&c0), 0, nn as int) == (true, pv, state_of(&c1)));
    }
    let mut sel = [0u32; 4];
    k = 0;
    while k < nn
        invariant
            k <= nn <= 4,
            nn == if intra_split { 4usize } else { 1usize },
            cab.same_stream(&c1),
            c1.spec_data() == data,
            c0 == *old(cab),
            data == c0.spec_data(),
            cab.engine_ok(),
            pv == prev@.subrange(0, nn as int),
            prev_flags(data, state_of(&c0), 0, nn as int) == (true, pv, state_of(&c1)),
            forall|j: int| 0 <= j < k ==> #[trigger] sel@[j] <= 31,
            ({
                let (ok0, all, end0) = mode_codes(data, state_of(&c1), 0, nn as int, pv);
                let (ok, rest, end) = mode_codes(data, state_of(cab), k as int, nn as int, pv);
                &&& ok0 == ok
                &&& ok ==> all =~= sel@.subrange(0, k as int) + rest && end0 == end
            }),
        decreases nn - k,
    {
        let ghost st = state_of(cab);
        proof {
            reveal_with_fuel(bypass_value, 2);
            super::residual_ctx::lemma_bypass_bound(data, st.1, st.2, st.3, 5);
        }
        let v = if prev[k] {
            let mut idx = 0u32;
            let b1 = match cab.bypass() {
                Ok(b) => b,
                Err(e) => {
                    return Err(e);
                },
            };
            if b1 == 1 {
                let b2 = match cab.bypass() {
                    Ok(b) => b,
                    Err(e) => {
                        return Err(e);
                    },
                };
                idx = 1 + b2;
            }
            idx
        } else {
            match cab.bypass_bits(5) {
                Ok(b) => b,
                Err(e) => {
                    return Err(e);
                },
            }
        };
        sel[k] = v;
        proof {
            reveal_with_fuel(bypass_value, 2);
            vstd::arithmetic::power2::lemma2_to64();
            let (ok, rest, end) = mode_codes(data, st, k as int, nn as int, pv);
            let (ok3, rest3, end3) = mode_codes(data, state_of(cab), k + 1, nn as int, pv);
            if ok {
                assert(rest =~= seq![sel@[k as int]] + rest3);
                assert(sel@.subrange(0, k + 1) =~= sel@.subrange(0, k as int) + seq![sel@[k as int]]);
            }
        }
        k += 1;
    }
    let ghost codes = sel@.subrange(0, nn as int);
    let ghost p0 = *pic;
    let ghost c2 = *cab;
    proof {
        assert(mode_codes(data, state_of(&c1), 0, nn as int, pv).0);
        assert(mode_codes(data, state_of(&c1), 0, nn as int, pv).1 == codes);
        assert(mode_codes(data, state_of(&c1), 0, nn as int, pv).2 == state_of(&c2));
    }
    k = 0;
    while k < nn
        invariant
            k <= nn <= 4,
            nn == if intra_split { 4usize } else { 1usize },
            n == if intra_split { 2usize } else { 1usize },
            n == 1 || n == 2,
            nn == n * n,
            off_pb == size / n,
            off_pb * n == size,
            size <= 64,
            off_pb >= 2,
            ctb_size == pow2(sps.log2_ctb as nat),
            ctb_size > 0,
            x0 <= 0x1000_0000,
            y0 <= 0x1000_0000,
            cab.same_stream(&c0),
            c0 == *old(cab),
            data == c0.spec_data(),
            cab.engine_ok(),
            prev_flags(data, state_of(&c0), 0, nn as int) == (true, pv, state_of(&c1)),
            mode_codes(data, state_of(&c1), 0, nn as int, pv).0,
            mode_codes(data, state_of(&c1), 0, nn as int, pv).1 == codes,
            mode_codes(data, state_of(&c1), 0, nn as int, pv).2 == state_of(&c2),
            *cab == c2,
            size == pow2(log2_size as nat),
            2 <= log2_size <= 6,
            sps.log2_ctb < usize::BITS,
            p0 == *old(pic),
            pic.same_but_modes(&p0),
            pic.intra_mode@.len() == p0.intra_mode@.len(),
            context_ok(&p0, geo, slice_addr@, sps, x0 as int, y0 as int),
            x0 + size <= geo.w_ctbs * pow2(geo.ctb_log2 as nat),
            y0 + size <= geo.h_ctbs * pow2(geo.ctb_log2 as nat),
            (y0 / 4 + 32) * p0.min4_w + x0 / 4 + 32 <= usize::MAX,
            forall|t: int| 0 <= t < pic.intra_mode@.len() ==> #[trigger] pic.intra_mode@[t] <= 34,
            pv == prev@.subrange(0, nn as int),
            codes == sel@.subrange(0, nn as int),
            forall|j: int| 0 <= j < nn ==> #[trigger] sel@[j] <= 31,
            ({
                let (all, last) = luma_derive(&p0, p0.intra_mode@, geo, slice_addr@, sps, x0 as int, y0 as int, n as int, nn as int, off_pb as int, pv, codes, 0);
                let (rest, last2) = luma_derive(&p0, pic.intra_mode@, geo, slice_addr@, sps, x0 as int, y0 as int, n as int, nn as int, off_pb as int, pv, codes, k as int);
                &&& all =~= mode_y@.subrange(0, k as int) + rest
                &&& last == last2
            }),
        decreases nn - k,
    {
        proof {
            if n == 2 {
                assert(k % n <= 1 && k / n <= 1);
                assert(off_pb * 2 == size);
                assert((k % n) * off_pb <= off_pb && (k / n) * off_pb <= off_pb) by (nonlinear_arith)
                    requires
                        k % n <= 1,
                        k / n <= 1,
                        k % n >= 0,
                        k / n >= 0,
                        off_pb >= 0,
                ;
            } else {
                assert(k == 0 && k % n == 0 && k / n == 0);
            }
        }
        let x = x0 + (k % n) * off_pb;
        let y = y0 + (k / n) * off_pb;
        proof {
            assert(x + off_pb <= x0 + size && y + off_pb <= y0 + size);
            assert((y as int / 4 + off_pb as int / 4 - 1) * p0.min4_w + x as int / 4 + off_pb as int / 4 - 1
                <= (y0 as int / 4 + 32) * p0.min4_w + x0 as int / 4 + 32) by (nonlinear_arith)
                requires
                    y + off_pb <= y0 + size,
                    x + off_pb <= x0 + size,
                    size <= 64,
                    p0.min4_w >= 0,
            ;
        }
        let ghost pk = *pic;
        proof {
            assert(off_pb >= 1);
            assert(x < geo.w_ctbs * pow2(geo.ctb_log2 as nat) && y < geo.h_ctbs * pow2(geo.ctb_log2 as nat));
            lemma_context_at(&p0, &pk, geo, slice_addr@, sps, x0 as int, y0 as int, x as int, y as int);
        }
        let mode = derive_block(pic, geo, slice_addr, sps, x, y, off_pb, ctb_size, prev[k], sel[k]);
        mode_y[k] = mode;
        proof {
            assert(block_pos(x0 as int, y0 as int, n as int, off_pb as int, k as int) == (x as int, y as int));
            lemma_derive_step(&p0, &pk, pic.intra_mode@, geo, slice_addr@, sps, x0 as int, y0 as int, n as int, nn as int, off_pb as int, pv, codes, k as int, mode);
            let (rest, last) = luma_derive(&p0, pic.intra_mode@, geo, slice_addr@, sps, x0 as int, y0 as int, n as int, nn as int, off_pb as int, pv, codes, k + 1);
            assert(mode_y@.subrange(0, k + 1) =~= mode_y@.subrange(0, k as int) + seq![mode]);
        }
        k += 1;
    }
    Ok(())
}

} // verus!
