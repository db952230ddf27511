//! Sample adaptive offset syntax (clause 7.3.8.3).

use vstd::prelude::*;

use super::geom::Geometry;
use super::residual_ctx::{DecState, bypass_run, decision_step, state_of};
use crate::hevc::cabac::engine::{Cabac, bypass_value};
use crate::hevc::cabac::off;
use crate::hevc::error::Result;
use crate::hevc::filter::{CtbFilter, FilterInfo, SaoCtb};
use crate::hevc::ps::{Pps, Sps};
use vstd::arithmetic::power2::pow2;

verus! {

/// `sao_type_idx_luma` / `sao_type_idx_chroma` (Table 9-38): a context-coded
/// flag, then a bypass bin choosing band (1) or edge (2) offsets.
pub open spec fn type_syntax(data: Seq<u8>, st: DecState) -> (bool, u8, DecState) {
    let (ok1, bin, s1) = decision_step(data, st, off::SAO_TYPE as int);
    if bin == 0 {
        (ok1, 0, s1)
    } else {
        let (ok2, b, s2) = bypass_run(data, s1, 1);
        (ok1 && ok2, if b == 0 { 1u8 } else { 2u8 }, s2)
    }
}

/// `sao_offset_abs`, a truncated unary code of bypass bins capped at `cap`,
/// read after `v` ones.
pub open spec fn abs_syntax(data: Seq<u8>, st: DecState, cap: int, v: int) -> (bool, int, DecState)
    decreases cap - v,
{
    if v >= cap {
        (true, v, st)
    } else {
        let (ok, b, s1) = bypass_run(data, st, 1);
        if !ok {
            (false, v, s1)
        } else if b == 1 {
            abs_syntax(data, s1, cap, v + 1)
        } else {
            (true, v, s1)
        }
    }
}

/// The four `sao_offset_abs` values from offset `k` on.
pub open spec fn abs4_syntax(data: Seq<u8>, st: DecState, cap: int, k: int) -> (bool, Seq<int>, DecState)
    decreases 4 - k,
{
    if k >= 4 {
        (true, Seq::empty(), st)
    } else {
        let (ok, a, s1) = abs_syntax(data, st, cap, 0);
        let (ok2, rest, s2) = abs4_syntax(data, s1, cap, k + 1);
        (ok && ok2, seq![a] + rest, s2)
    }
}

/// `sao_offset_sign` of band offsets `k` to 3: one bypass bin for each
/// non-zero magnitude, set for a negative offset.
pub open spec fn sign_syntax(data: Seq<u8>, st: DecState, abs: Seq<int>, k: int) -> (bool, Seq<bool>, DecState)
    decreases 4 - k,
{
    if k >= 4 {
        (true, Seq::empty(), st)
    } else {
        let (ok, neg, s1) = if abs[k] != 0 {
            let (ok1, b, s) = bypass_run(data, st, 1);
            (ok1, b == 1, s)
        } else {
            (true, false, st)
        };
        let (ok2, rest, s2) = sign_syntax(data, s1, abs, k + 1);
        (ok && ok2, seq![neg] + rest, s2)
    }
}

/// `SaoOffsetVal`: a magnitude scaled by `2^scale`, negated when `neg`.
pub open spec fn offset_val(a: int, scale: int, neg: bool) -> i16 {
    let v = a * pow2(scale as nat);
    (if neg {
        -v
    } else {
        v
    }) as i16
}

/// The parameters all-zero: SAO off.
pub open spec fn sao_off() -> SaoCtb {
    SaoCtb { type_idx: 0, eo_class: 0, band_position: 0, offsets: [0i16, 0, 0, 0] }
}

/// The SAO parameters of enabled component `c` read from state `st`:
/// for Cr the type and edge class are Cb's (`shared`), for the others they
/// are read; then, unless SAO is off, four magnitudes capped at `cap`, and
/// either their signs and the band position (band offset) or the edge
/// class (edge offset, positive for the first two categories and negative
/// for the last two).
pub open spec fn component_syntax(data: Seq<u8>, st: DecState, c: int, shared: SaoCtb, cap: int, scale: int) -> (
    bool,
    SaoCtb,
    DecState,
) {
    let (ok1, t, s1) = if c == 2 {
        (true, shared.type_idx, st)
    } else {
        type_syntax(data, st)
    };
    let class0 = if c == 2 {
        shared.eo_class
    } else {
        0u8
    };
    if t == 0 {
        (ok1, SaoCtb { type_idx: 0, eo_class: class0, band_position: 0, offsets: [0i16, 0, 0, 0] }, s1)
    } else {
        let (ok2, abs, s2) = abs4_syntax(data, s1, cap, 0);
        if t == 1 {
            let (ok3, neg, s3) = sign_syntax(data, s2, abs, 0);
            let (ok4, band, s4) = bypass_run(data, s3, 5);
            (
                ok1 && ok2 && ok3 && ok4,
                SaoCtb {
                    type_idx: t,
                    eo_class: class0,
                    band_position: band as u8,
                    offsets: [
                        offset_val(abs[0], scale, neg[0]),
                        offset_val(abs[1], scale, neg[1]),
                        offset_val(abs[2], scale, neg[2]),
                        offset_val(abs[3], scale, neg[3]),
                    ],
                },
                s4,
            )
        } else {
            let (ok3, class, s3) = if c == 2 {
                (true, class0 as int, s2)
            } else {
                bypass_run(data, s2, 2)
            };
            (
                ok1 && ok2 && ok3,
                SaoCtb {
                    type_idx: t,
                    eo_class: class as u8,
                    band_position: 0,
                    offsets: [
                        offset_val(abs[0], scale, false),
                        offset_val(abs[1], scale, false),
                        offset_val(abs[2], scale, true),
                        offset_val(abs[3], scale, true),
                    ],
                },
                s3,
            )
        }
    }
}

/// Decodes `sao_type_idx_luma` / `sao_type_idx_chroma` (Table 9-38).
fn read_type(cab: &mut Cabac) -> (r: Result<u8>)
    requires
        old(cab).wf(),
        old(cab).engine_ok(),
    ensures
        final(cab).same_stream(old(cab)),
        ({
            let (ok, t, s) = type_syntax(old(cab).spec_data(), state_of(old(cab)));
            &&& r is Ok <==> ok
            &&& r matches Err(e) ==> e is Truncated
            &&& r matches Ok(v) ==> v == t && state_of(final(cab)) == s && final(cab).engine_ok()
        }),
{
    proof {
        reveal_with_fuel(bypass_value, 2);
    }
    let bin = match cab.decision(off::SAO_TYPE) {
        Ok(b) => b,
        Err(e) => {
            return Err(e);
        },
    };
    if bin == 0 {
        return Ok(0);
    }
    let b = match cab.bypass() {
        Ok(b) => b,
        Err(e) => {
            return Err(e);
        },
    };
    Ok(
        if b == 0 {
            1
        } else {
            2
        },
    )
}

/// Decodes one `sao_offset_abs`, a truncated unary code capped at `cap`.
fn read_abs(cab: &mut Cabac, cap: u32) -> (r: Result<u32>)
    requires
        old(cab).wf(),
        old(cab).engine_ok(),
    ensures
        final(cab).same_stream(old(cab)),
        ({
            let (ok, a, s) = abs_syntax(old(cab).spec_data(), state_of(old(cab)), cap as int, 0);
            &&& r is Ok <==> ok
            &&& r matches Err(e) ==> e is Truncated
            &&& r matches Ok(v) ==> v == a && state_of(final(cab)) == s && final(cab).engine_ok() && v <= cap
        }),
{
    let ghost c0 = *cab;
    let mut v: u32 = 0;
    while v < cap
        invariant_except_break
            abs_syntax(c0.spec_data(), state_of(&c0), cap as int, 0) == abs_syntax(
                c0.spec_data(),
                state_of(cab),
                cap as int,
                v as int,
            ),
        invariant
            v <= cap,
            cab.same_stream(&c0),
            c0 == *old(cab),
            cab.engine_ok(),
        ensures
            v <= cap,
            abs_syntax(c0.spec_data(), state_of(&c0), cap as int, 0) == (true, v as int, state_of(cab)),
        decreases cap - v,
    {
        proof {
            reveal_with_fuel(bypass_value, 2);
        }
        let b = match cab.bypass() {
            Ok(b) => b,
            Err(e) => {
                return Err(e);
            },
        };
        if b != 1 {
            break;
        }
        v += 1;
    }
    Ok(v)
}

/// The magnitude list read from offset `k` on has `4 - k` entries.
proof fn lemma_abs4_len(data: Seq<u8>, st: DecState, cap: int, k: int)
    requires
        0 <= k <= 4,
    ensures
        abs4_syntax(data, st, cap, k).1.len() == 4 - k,
    decreases 4 - k,
{
    if k < 4 {
        let (ok, a, s1) = abs_syntax(data, st, cap, 0);
        lemma_abs4_len(data, s1, cap, k + 1);
    }
}

/// The sign list read from offset `k` on has `4 - k` entries.
proof fn lemma_sign_len(data: Seq<u8>, st: DecState, abs: Seq<int>, k: int)
    requires
        0 <= k <= 4,
    ensures
        sign_syntax(data, st, abs, k).1.len() == 4 - k,
    decreases 4 - k,
{
    if k < 4 {
        let (ok, neg, s1) = if abs[k] != 0 {
            let (ok1, b, s) = bypass_run(data, st, 1);
            (ok1, b == 1, s)
        } else {
            (true, false, st)
        };
        lemma_sign_len(data, s1, abs, k + 1);
    }
}

/// Reads the four `sao_offset_abs` values of a component.
fn read_abs4(cab: &mut Cabac, cap: u32) -> (r: Result<[u32; 4]>)
    requires
        old(cab).wf(),
        old(cab).engine_ok(),
    ensures
        final(cab).same_stream(old(cab)),
        ({
            let (ok, abs, s) = abs4_syntax(old(cab).spec_data(), state_of(old(cab)), cap as int, 0);
            &&& abs.len() == 4
            &&& r is Ok <==> ok
            &&& r matches Err(e) ==> e is Truncated
            &&& r matches Ok(v) ==> {
                &&& state_of(final(cab)) == s
                &&& final(cab).engine_ok()
                &&& forall|k: int| 0 <= k < 4 ==> #[trigger] v@[k] as int == abs[k] && v@[k] <= cap
            }
        }),
{
    let ghost c0 = *cab;
    proof {
        lemma_abs4_len(c0.spec_data(), state_of(&c0), cap as int, 0);
    }
    let mut abs = [0u32; 4];
    let mut k: usize = 0;
    while k < 4
        invariant
            k <= 4,
            cab.same_stream(&c0),
            c0 == *old(cab),
            cab.engine_ok(),
            forall|j: int| 0 <= j < k ==> #[trigger] abs@[j] <= cap,
            ({
                let (ok0, all, end0) = abs4_syntax(c0.spec_data(), state_of(&c0), cap as int, 0);
                let (ok, rest, end) = abs4_syntax(c0.spec_data(), state_of(cab), cap as int, k as int);
                &&& ok0 == ok
                &&& end0 == end
                &&& all.len() == 4
                &&& rest.len() == 4 - k
                &&& forall|j: int| 0 <= j < k ==> #[trigger] all[j] == abs@[j] as int
                &&& forall|j: int| k <= j < 4 ==> #[trigger] all[j] == rest[j - k]
            }),
        decreases 4 - k,
    {
        let ghost st = state_of(cab);
        let a = match read_abs(cab, cap) {
            Ok(a) => a,
            Err(e) => {
                return Err(e);
            },
        };
        abs[k] = a;
        proof {
            let (ok, rest, end) = abs4_syntax(c0.spec_data(), st, cap as int, k as int);
            let (ok3, rest3, end3) = abs4_syntax(c0.spec_data(), state_of(cab), cap as int, k + 1);
            lemma_abs4_len(c0.spec_data(), state_of(cab), cap as int, k + 1);
            assert(rest == seq![a as int] + rest3);
            assert(rest[0] == a);
            assert forall|j: int| k + 1 <= j < 4 implies #[trigger] rest[j - k] == rest3[j - (k + 1)] by {}
        }
        k += 1;
    }
    Ok(abs)
}

/// Reads the signs of the four band offsets and returns `SaoOffsetVal`,
/// each magnitude scaled by `2^scale`.
fn read_band_offsets(cab: &mut Cabac, abs: [u32; 4], scale: u32) -> (r: Result<[i16; 4]>)
    requires
        old(cab).wf(),
        old(cab).engine_ok(),
        scale <= 10,
        forall|j: int| 0 <= j < 4 ==> #[trigger] abs@[j] <= 31,
    ensures
        final(cab).same_stream(old(cab)),
        ({
            let absi = Seq::new(4, |j: int| abs@[j] as int);
            let (ok, neg, s) = sign_syntax(old(cab).spec_data(), state_of(old(cab)), absi, 0);
            &&& r is Ok <==> ok
            &&& r matches Err(e) ==> e is Truncated
            &&& r matches Ok(o) ==> {
                &&& state_of(final(cab)) == s
                &&& final(cab).engine_ok()
                &&& forall|j: int| 0 <= j < 4 ==> #[trigger] o@[j] == offset_val(abs@[j] as int, scale as int, neg[j])
            }
        }),
{
    let ghost c0 = *cab;
    let ghost absi = Seq::new(4, |j: int| abs@[j] as int);
    proof {
        lemma_sign_len(c0.spec_data(), state_of(&c0), absi, 0);
    }
    let mut out = [0i16; 4];
    let mut k: usize = 0;
    while k < 4
        invariant
            k <= 4,
            cab.same_stream(&c0),
            c0 == *old(cab),
            cab.engine_ok(),
            scale <= 10,
            absi == Seq::new(4, |j: int| abs@[j] as int),
            forall|j: int| 0 <= j < 4 ==> #[trigger] abs@[j] <= 31,
            ({
                let (ok0, all, end0) = sign_syntax(c0.spec_data(), state_of(&c0), absi, 0);
                let (ok, rest, end) = sign_syntax(c0.spec_data(), state_of(cab), absi, k as int);
                &&& ok0 == ok
                &&& end0 == end
                &&& all.len() == 4
                &&& rest.len() == 4 - k
                &&& forall|j: int| 0 <= j < k ==> #[trigger] out@[j] == offset_val(abs@[j] as int, scale as int, all[j])
                &&& forall|j: int| k <= j < 4 ==> #[trigger] all[j] == rest[j - k]
            }),
        decreases 4 - k,
    {
        let ghost st = state_of(cab);
        let neg = if abs[k] != 0 {
            proof {
                reveal_with_fuel(bypass_value, 2);
            }
            match cab.bypass() {
                Ok(b) => b == 1,
                Err(e) => {
                    return Err(e);
                },
            }
        } else {
            false
        };
        let v = shifted(abs[k], scale);
        out[k] = if neg {
            -v
        } else {
            v
        };
        proof {
            let (ok, rest, end) = sign_syntax(c0.spec_data(), st, absi, k as int);
            let (ok3, rest3, end3) = sign_syntax(c0.spec_data(), state_of(cab), absi, k + 1);
            lemma_sign_len(c0.spec_data(), state_of(cab), absi, k + 1);
            assert(rest == seq![neg] + rest3);
            assert(rest[0] == neg);
            assert forall|j: int| k + 1 <= j < 4 implies #[trigger] rest[j - k] == rest3[j - (k + 1)] by {}
        }
        k += 1;
    }
    Ok(out)
}

/// `a << scale` for a magnitude of at most 31 and a scale of at most 10.
fn shifted(a: u32, scale: u32) -> (v: i16)
    requires
        a <= 31,
        scale <= 10,
    ensures
        v as int == a * pow2(scale as nat),
        v == offset_val(a as int, scale as int, false),
        -v == offset_val(a as int, scale as int, true),
{
    proof {
        vstd::arithmetic::power2::lemma_pow2_pos(scale as nat);
        vstd::arithmetic::power2::lemma2_to64();
        if scale < 10 {
            vstd::arithmetic::power2::lemma_pow2_strictly_increases(scale as nat, 10);
        }
        assert(a * pow2(scale as nat) <= 31 * 1024) by (nonlinear_arith)
            requires
                a <= 31,
                pow2(scale as nat) <= 1024,
        ;
        vstd::bits::lemma_u32_shl_is_mul(a, scale);
    }
    (a << scale) as i16
}

/// The edge offsets: the first two categories positive, the last two
/// negative.
fn edge_offsets(abs: [u32; 4], scale: u32) -> (o: [i16; 4])
    requires
        scale <= 10,
        forall|j: int| 0 <= j < 4 ==> #[trigger] abs@[j] <= 31,
    ensures
        forall|j: int| 0 <= j < 4 ==> #[trigger] o@[j] == offset_val(abs@[j] as int, scale as int, j >= 2),
{
    [shifted(abs[0], scale), shifted(abs[1], scale), -shifted(abs[2], scale), -shifted(abs[3], scale)]
}

/// Reads the parameters of enabled component `c` (0 luma, 1 Cb, 2 Cr);
/// Cr takes its type and edge class from Cb's parameters `shared`.
fn read_component(cab: &mut Cabac, c: usize, shared: SaoCtb, cap: u32, scale: u32) -> (r: Result<SaoCtb>)
    requires
        old(cab).wf(),
        old(cab).engine_ok(),
        c <= 2,
        cap <= 31,
        scale <= 10,
    ensures
        final(cab).same_stream(old(cab)),
        ({
            let (ok, v, st) = component_syntax(old(cab).spec_data(), state_of(old(cab)), c as int, shared, cap as int, scale as int);
            &&& r is Ok <==> ok
            &&& r matches Err(e) ==> e is Truncated
            &&& r matches Ok(p) ==> p == v && state_of(final(cab)) == st && final(cab).engine_ok()
        }),
{
    let ghost c0 = *cab;
    let type_idx = if c == 2 {
        shared.type_idx
    } else {
        match read_type(cab) {
            Ok(t) => t,
            Err(e) => {
                return Err(e);
            },
        }
    };
    let class0 = if c == 2 {
        shared.eo_class
    } else {
        0
    };
    if type_idx == 0 {
        let s = SaoCtb { type_idx: 0, eo_class: class0, band_position: 0, offsets: [0i16; 4] };
        proof {
            assert(s.offsets =~= [0i16, 0, 0, 0]);
        }
        return Ok(s);
    }
    let ghost s1 = state_of(cab);
    let abs = match read_abs4(cab, cap) {
        Ok(a) => a,
        Err(e) => {
            return Err(e);
        },
    };
    let ghost abs_s = abs4_syntax(c0.spec_data(), s1, cap as int, 0).1;
    proof {
        assert(Seq::new(4, |j: int| abs@[j] as int) =~= abs_s);
    }
    if type_idx == 1 {
        let offsets = match read_band_offsets(cab, abs, scale) {
            Ok(o) => o,
            Err(e) => {
                return Err(e);
            },
        };
        let band = match cab.bypass_bits(5) {
            Ok(b) => b,
            Err(e) => {
                return Err(e);
            },
        };
        proof {
            super::residual_ctx::lemma_bypass_bound(c0.spec_data(), state_of(&c0).1, 0, 0, 5);
            vstd::arithmetic::power2::lemma2_to64();
        }
        let s = SaoCtb { type_idx, eo_class: class0, band_position: band as u8, offsets };
        proof {
            let st2 = abs4_syntax(c0.spec_data(), s1, cap as int, 0).2;
            let neg = sign_syntax(c0.spec_data(), st2, abs_s, 0).1;
            assert(offsets =~= [
                offset_val(abs_s[0], scale as int, neg[0]),
                offset_val(abs_s[1], scale as int, neg[1]),
                offset_val(abs_s[2], scale as int, neg[2]),
                offset_val(abs_s[3], scale as int, neg[3]),
            ]);
        }
        Ok(s)
    } else {
        let offsets = edge_offsets(abs, scale);
        let eo_class = if c == 2 {
            class0
        } else {
            match cab.bypass_bits(2) {
                Ok(b) => b as u8,
                Err(e) => {
                    return Err(e);
                },
            }
        };
        proof {
            assert(offsets =~= [
                offset_val(abs_s[0], scale as int, false),
                offset_val(abs_s[1], scale as int, false),
                offset_val(abs_s[2], scale as int, true),
                offset_val(abs_s[3], scale as int, true),
            ]);
        }
        Ok(SaoCtb { type_idx, eo_class, band_position: 0, offsets })
    }
}

/// `Min(bitDepth, 10) - 5` as the largest `sao_offset_abs`:
/// `(1 << (Min(bitDepth, 10) - 5)) - 1`.
pub open spec fn abs_cap(bit_depth: int) -> int {
    pow2((if bit_depth < 10 {
        bit_depth
    } else {
        10
    } - 5) as nat) - 1
}

/// The parameters of component `c` when SAO is enabled for it (read by
/// `component_syntax`) or not (SAO off, nothing read).
pub open spec fn comp_step(data: Seq<u8>, st: DecState, c: int, enabled: bool, shared: SaoCtb, cap: int, scale: int) -> (
    bool,
    SaoCtb,
    DecState,
) {
    if enabled {
        component_syntax(data, st, c, shared, cap, scale)
    } else {
        (true, sao_off(), st)
    }
}

/// The SAO parameters of a CTB that merges with neither neighbour, starting
/// from `cur`: luma, then, in a picture with chroma, Cb and Cr (Cr sharing
/// Cb's type and edge class). Without chroma the Cb and Cr entries of `cur`
/// stay.
pub open spec fn params_syntax(
    data: Seq<u8>,
    st: DecState,
    cur: Seq<SaoCtb>,
    chroma: bool,
    sao_luma: bool,
    sao_chroma: bool,
    cap_y: int,
    cap_c: int,
    scale_y: int,
    scale_c: int,
) -> (bool, Seq<SaoCtb>, DecState) {
    let (ok0, y, s0) = comp_step(data, st, 0, sao_luma, sao_off(), cap_y, scale_y);
    if !chroma {
        (ok0, seq![y, cur[1], cur[2]], s0)
    } else {
        let (ok1, cb, s1) = comp_step(data, s0, 1, sao_chroma, sao_off(), cap_c, scale_c);
        let (ok2, cr, s2) = comp_step(data, s1, 2, sao_chroma, cb, cap_c, scale_c);
        (ok0 && ok1 && ok2, seq![y, cb, cr], s2)
    }
}

/// Whether CTB `src` lies in the tile and the slice of CTB `cur`.
pub open spec fn mergeable_at(tile_id: Seq<u16>, slice_addr: Seq<u32>, cur: int, src: int) -> bool {
    tile_id[cur] == tile_id[src] && slice_addr[cur] == slice_addr[src]
}

/// The merge flags of CTB `ctb_rs` in a picture `w` CTBs wide:
/// `sao_merge_left_flag` when the left neighbour exists and is mergeable,
/// then `sao_merge_up_flag` when that is not set and the upper neighbour
/// exists and is mergeable. The result is 1 for a left merge, 2 for an
/// upward merge and 0 for none.
pub open spec fn merge_syntax(data: Seq<u8>, st: DecState, tile_id: Seq<u16>, slice_addr: Seq<u32>, w: int, ctb_rs: int) -> (
    bool,
    int,
    DecState,
) {
    let (ok1, left, s1) = if ctb_rs % w > 0 && mergeable_at(tile_id, slice_addr, ctb_rs, ctb_rs - 1) {
        decision_step(data, st, off::SAO_MERGE as int)
    } else {
        (true, 0u32, st)
    };
    if !ok1 {
        (false, 0, s1)
    } else if left != 0 {
        (true, 1, s1)
    } else if ctb_rs / w > 0 && mergeable_at(tile_id, slice_addr, ctb_rs, ctb_rs - w) {
        let (ok2, up, s2) = decision_step(data, s1, off::SAO_MERGE as int);
        (ok2, if up != 0 {
            2int
        } else {
            0int
        }, s2)
    } else {
        (true, 0, s1)
    }
}

/// True when the SAO parameters of `src` may be merged into `cur`.
fn mergeable(geo: &Geometry, fi: &FilterInfo, cur: usize, src: usize) -> (b: bool)
    requires
        cur < geo.tile_id@.len(),
        src < geo.tile_id@.len(),
        cur < fi.slice_addr@.len(),
        src < fi.slice_addr@.len(),
    ensures
        b == mergeable_at(geo.tile_id@, fi.slice_addr@, cur as int, src as int),
{
    geo.tile_id[cur] == geo.tile_id[src] && fi.slice_addr[cur] == fi.slice_addr[src]
}

/// Reads the merge flags of CTB `ctb_rs`: 1 to merge with the left
/// neighbour, 2 with the upper one, 0 for neither.
fn read_merge(cab: &mut Cabac, geo: &Geometry, fi: &FilterInfo, ctb_rs: usize) -> (r: Result<u8>)
    requires
        old(cab).wf(),
        old(cab).engine_ok(),
        geo.w_ctbs > 0,
        ctb_rs < geo.tile_id@.len(),
        ctb_rs < fi.slice_addr@.len(),
    ensures
        final(cab).same_stream(old(cab)),
        ({
            let (ok, m, st) = merge_syntax(
                old(cab).spec_data(),
                state_of(old(cab)),
                geo.tile_id@,
                fi.slice_addr@,
                geo.w_ctbs as int,
                ctb_rs as int,
            );
            &&& r is Ok <==> ok
            &&& r matches Err(e) ==> e is Truncated
            &&& r matches Ok(v) ==> v == m && state_of(final(cab)) == st && final(cab).engine_ok()
        }),
{
    let w = geo.w_ctbs;
    let rx = ctb_rs % w;
    let ry = ctb_rs / w;
    proof {
        assert(ctb_rs >= rx && (ry > 0 ==> ctb_rs >= w)) by (nonlinear_arith)
            requires
                rx == ctb_rs % w,
                ry == ctb_rs / w,
                w > 0,
        ;
    }
    if rx > 0 && mergeable(geo, fi, ctb_rs, ctb_rs - 1) {
        let left = match cab.decision(off::SAO_MERGE) {
            Ok(b) => b,
            Err(e) => {
                return Err(e);
            },
        };
        if left != 0 {
            return Ok(1);
        }
    }
    if ry > 0 && mergeable(geo, fi, ctb_rs, ctb_rs - w) {
        let up = match cab.decision(off::SAO_MERGE) {
            Ok(b) => b,
            Err(e) => {
                return Err(e);
            },
        };
        if up != 0 {
            return Ok(2);
        }
    }
    Ok(0)
}

/// Reads the parameters of the components of a CTB that merges with
/// neither neighbour, starting from its current parameters `cur`.
fn read_params(
    cab: &mut Cabac,
    cur: [SaoCtb; 3],
    chroma: bool,
    sao_luma: bool,
    sao_chroma: bool,
    cap_y: u32,
    cap_c: u32,
    scale_y: u32,
    scale_c: u32,
) -> (r: Result<[SaoCtb; 3]>)
    requires
        old(cab).wf(),
        old(cab).engine_ok(),
        cap_y <= 31,
        cap_c <= 31,
        scale_y <= 10,
        scale_c <= 10,
    ensures
        final(cab).same_stream(old(cab)),
        ({
            let (ok, p, st) = params_syntax(
                old(cab).spec_data(),
                state_of(old(cab)),
                cur@,
                chroma,
                sao_luma,
                sao_chroma,
                cap_y as int,
                cap_c as int,
                scale_y as int,
                scale_c as int,
            );
            &&& r is Ok <==> ok
            &&& r matches Err(e) ==> e is Truncated
            &&& r matches Ok(v) ==> v@ == p && state_of(final(cab)) == st && final(cab).engine_ok()
        }),
{
    let none = SaoCtb { type_idx: 0, eo_class: 0, band_position: 0, offsets: [0i16; 4] };
    proof {
        assert(none.offsets =~= [0i16, 0, 0, 0]);
    }
    let y = if sao_luma {
        match read_component(cab, 0, none, cap_y, scale_y) {
            Ok(s) => s,
            Err(e) => {
                return Err(e);
            },
        }
    } else {
        none
    };
    if !chroma {
        let out = [y, cur[1], cur[2]];
        proof {
            assert(out@ =~= seq![y, cur@[1], cur@[2]]);
        }
        return Ok(out);
    }
    let cb = if sao_chroma {
        match read_component(cab, 1, none, cap_c, scale_c) {
            Ok(s) => s,
            Err(e) => {
                return Err(e);
            },
        }
    } else {
        none
    };
    let cr = if sao_chroma {
        match read_component(cab, 2, cb, cap_c, scale_c) {
            Ok(s) => s,
            Err(e) => {
                return Err(e);
            },
        }
    } else {
        none
    };
    let out = [y, cb, cr];
    proof {
        assert(out@ =~= seq![y, cb, cr]);
    }
    Ok(out)
}

/// `(1 << (Min(bit_depth, 10) - 5)) - 1`.
fn cap_for(bit_depth: u8) -> (cap: u32)
    requires
        5 <= bit_depth,
    ensures
        cap == abs_cap(bit_depth as int),
        cap <= 31,
{
    let d: u32 = if bit_depth < 10 {
        bit_depth as u32
    } else {
        10
    };
    proof {
        vstd::arithmetic::power2::lemma2_to64();
        vstd::bits::lemma_u32_shl_is_mul(1, (d - 5) as u32);
    }
    (1u32 << (d - 5)) - 1
}

/// `CtbFilter` `f` with SAO parameters `sao`.
pub open spec fn with_sao(f: CtbFilter, sao: [SaoCtb; 3]) -> CtbFilter {
    CtbFilter { sao, ..f }
}

/// The filter information `b` is `a` with at most the entry of CTB `ctb_rs`
/// changed.
pub open spec fn same_but_ctb(a: &FilterInfo, b: &FilterInfo, ctb_rs: int) -> bool {
    &&& b.bit_depth_y == a.bit_depth_y
    &&& b.bit_depth_c == a.bit_depth_c
    &&& b.chroma_array_type == a.chroma_array_type
    &&& b.sub_w == a.sub_w
    &&& b.sub_h == a.sub_h
    &&& b.ctb_log2 == a.ctb_log2
    &&& b.pic_w_ctbs == a.pic_w_ctbs
    &&& b.pic_h_ctbs == a.pic_h_ctbs
    &&& b.pcm_loop_filter_disabled == a.pcm_loop_filter_disabled
    &&& b.across_tiles == a.across_tiles
    &&& b.sao_enabled == a.sao_enabled
    &&& b.tile_id@ == a.tile_id@
    &&& b.slice_addr@ == a.slice_addr@
    &&& b.ctb@.len() == a.ctb@.len()
    &&& forall|i: int| 0 <= i < a.ctb@.len() && i != ctb_rs ==> #[trigger] b.ctb@[i] == a.ctb@[i]
}

/// Parses `sao(rx, ry)` (clause 7.3.8.3) for the coding tree block at
/// raster address `ctb_rs` and stores its parameters in `fi`: those of the
/// left or upper neighbour when a merge flag says so, else those read for
/// each component, with `sao_luma` and `sao_chroma` the slice's
/// `slice_sao_luma_flag` and `slice_sao_chroma_flag`, `chroma_array_type`
/// `ChromaArrayType`, offset magnitudes capped by the bit depths of `sps`
/// and scaled by `pps`.
pub fn sao(
    cab: &mut Cabac,
    fi: &mut FilterInfo,
    geo: &Geometry,
    sps: &Sps,
    pps: &Pps,
    sao_luma: bool,
    sao_chroma: bool,
    chroma_array_type: u8,
    ctb_rs: usize,
) -> (r: Result<()>)
    requires
        old(cab).wf(),
        old(cab).engine_ok(),
        geo.w_ctbs > 0,
        ctb_rs < geo.tile_id@.len(),
        ctb_rs < old(fi).slice_addr@.len(),
        ctb_rs < old(fi).ctb@.len(),
        5 <= sps.bit_depth_y,
        5 <= sps.bit_depth_c,
        pps.sao_offset_scale_luma <= 10,
        pps.sao_offset_scale_chroma <= 10,
    ensures
        final(cab).same_stream(old(cab)),
        same_but_ctb(old(fi), final(fi), ctb_rs as int),
        ({
            let data = old(cab).spec_data();
            let w = geo.w_ctbs as int;
            let ctbs = old(fi).ctb@;
            let (okm, m, s1) = merge_syntax(data, state_of(old(cab)), geo.tile_id@, old(fi).slice_addr@, w, ctb_rs as int);
            let (okp, p, s2) = params_syntax(
                data,
                s1,
                ctbs[ctb_rs as int].sao@,
                chroma_array_type != 0,
                sao_luma,
                sao_chroma,
                abs_cap(sps.bit_depth_y as int),
                abs_cap(sps.bit_depth_c as int),
                pps.sao_offset_scale_luma as int,
                pps.sao_offset_scale_chroma as int,
            );
            let now = final(fi).ctb@[ctb_rs as int];
            &&& r is Ok <==> okm && (m != 0 || okp)
            &&& r matches Err(e) ==> e is Truncated
            &&& r is Ok ==> final(cab).engine_ok()
            &&& r is Ok && m == 1 ==> state_of(final(cab)) == s1 && now == with_sao(ctbs[ctb_rs as int], ctbs[ctb_rs - 1].sao)
            &&& r is Ok && m == 2 ==> state_of(final(cab)) == s1 && now == with_sao(ctbs[ctb_rs as int], ctbs[ctb_rs - w].sao)
            &&& r is Ok && m == 0 ==> state_of(final(cab)) == s2 && now == with_sao(ctbs[ctb_rs as int], now.sao) && now.sao@ == p
        }),
{
    let ghost w = geo.w_ctbs as int;
    proof {
        assert(((ctb_rs as int) % w > 0 ==> ctb_rs >= 1) && ((ctb_rs as int) / w > 0 ==> ctb_rs >= w)) by (nonlinear_arith)
            requires
                w > 0,
        ;
    }
    let m = match read_merge(cab, geo, fi, ctb_rs) {
        Ok(m) => m,
        Err(e) => {
            return Err(e);
        },
    };
    if m != 0 {
        let src = if m == 1 {
            ctb_rs - 1
        } else {
            ctb_rs - geo.w_ctbs
        };
        let sao = fi.ctb[src].sao;
        let mut cf = fi.ctb[ctb_rs];
        cf.sao = sao;
        fi.ctb.set(ctb_rs, cf);
        return Ok(());
    }
    let cap_y = cap_for(sps.bit_depth_y);
    let cap_c = cap_for(sps.bit_depth_c);
    let cur = fi.ctb[ctb_rs].sao;
    let p = match read_params(
        cab,
        cur,
        chroma_array_type != 0,
        sao_luma,
        sao_chroma,
        cap_y,
        cap_c,
        pps.sao_offset_scale_luma,
        pps.sao_offset_scale_chroma,
    ) {
        Ok(p) => p,
        Err(e) => {
            return Err(e);
        },
    };
    let mut cf = fi.ctb[ctb_rs];
    cf.sao = p;
    fi.ctb.set(ctb_rs, cf);
    Ok(())
}

} // verus!
