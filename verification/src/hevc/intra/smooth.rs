//! Filtering of the neighbouring reference samples, clause 8.4.4.2.3.

use vstd::prelude::*;

use super::Refs;

verus! {

/// `|v|`.
pub open spec fn iabs(v: int) -> int {
    if v < 0 {
        -v
    } else {
        v
    }
}

/// `intraHorVerDistThres[nTbS]`: 7 for 8x8, 1 for 16x16, 0 for 32x32.
pub open spec fn dist_threshold(n: int) -> int {
    if n == 8 {
        7
    } else if n == 16 {
        1
    } else {
        0
    }
}

/// `minDistVerHor`: the distance of a mode from pure vertical or pure
/// horizontal.
pub open spec fn dist_ver_hor(mode: int) -> int {
    let (a, b) = (iabs(mode - 26), iabs(mode - 10));
    if a < b {
        a
    } else {
        b
    }
}

/// Whether clause 8.4.4.2.3 filters the references at all: smoothing is not
/// disabled, the block is luma or 4:4:4 chroma, the mode is neither DC nor
/// out of range, the block is larger than 4x4, and the mode is far enough
/// from pure vertical and horizontal.
pub open spec fn smoothing_applies(r: Refs, mode: u8, c_idx: usize, chroma_array_type: u8, disable: bool) -> bool {
    &&& !disable
    &&& (c_idx == 0 || chroma_array_type == 3)
    &&& mode != 1
    &&& mode <= 34
    &&& r.n != 4
    &&& dist_ver_hor(mode as int) > dist_threshold(r.n as int)
}

/// Whether the strong bilinear filter replaces the 3-tap one: enabled, luma,
/// 32x32, and both edges close enough to straight lines.
pub open spec fn bilinear(r: Refs, c_idx: usize, bd: u8, strong: bool) -> bool {
    let nn = 2 * r.n as int;
    let c = r.top_of(-1) as int;
    let (te, le) = (r.top_of(nn - 1) as int, r.left_of(nn - 1) as int);
    let lim = vstd::arithmetic::power2::pow2(bd as nat) / 32;
    &&& strong
    &&& c_idx == 0
    &&& r.n == 32
    &&& iabs(c + te - 2 * r.top_of(nn / 2 - 1)) < lim
    &&& iabs(c + le - 2 * r.left_of(nn / 2 - 1)) < lim
}

/// Entry `j` of the filtered references, clause 8.4.4.2.3: the far ends of
/// both edges are kept, the rest are smoothed by the bilinear filter or the
/// `[1 2 1]` filter, and entries past `4n` are zero.
pub open spec fn smooth_entry(r: Refs, bilin: bool, j: int) -> int {
    let nn = 2 * r.n as int;
    let c = r.top_of(-1) as int;
    let (te, le) = (r.top_of(nn - 1) as int, r.left_of(nn - 1) as int);
    if j == 2 * nn {
        te
    } else if j == 0 {
        le
    } else if j == nn {
        if bilin {
            c
        } else {
            (r.left_of(0) + 2 * c + r.top_of(0) + 2) / 4
        }
    } else if 0 < j < nn {
        let i = nn - 1 - j;
        if bilin {
            ((nn - 1 - i) * c + (i + 1) * le + 32) / 64
        } else {
            (r.left_of(i + 1) + 2 * r.left_of(i) + r.left_of(i - 1) + 2) / 4
        }
    } else if nn < j < 2 * nn {
        let i = j - nn - 1;
        if bilin {
            ((nn - 1 - i) * c + (i + 1) * te + 32) / 64
        } else {
            (r.top_of(i + 1) + 2 * r.top_of(i) + r.top_of(i - 1) + 2) / 4
        }
    } else {
        0
    }
}

/// Filters the neighbouring reference samples (clause 8.4.4.2.3).
///
/// `mode` is predModeIntra (0 planar, 1 DC, 2..=34 angular), `c_idx` 0 for luma,
/// `chroma_array_type` is 0..=3, `strong_smoothing` is
/// `strong_intra_smoothing_enabled_flag`, `disable_smoothing` is
/// `intra_smoothing_disabled_flag` from the SPS range extension.
pub fn filter_refs(
    r: &Refs,
    mode: u8,
    c_idx: usize,
    bit_depth: u8,
    chroma_array_type: u8,
    strong_smoothing: bool,
    disable_smoothing: bool,
) -> (o: Refs)
    requires
        r.n <= 32,
        smoothing_applies(*r, mode, c_idx, chroma_array_type, disable_smoothing) ==> r.n >= 1 && bit_depth < 31,
    ensures
        o.n == r.n,
        !smoothing_applies(*r, mode, c_idx, chroma_array_type, disable_smoothing) ==> o.buf@ == r.buf@,
        smoothing_applies(*r, mode, c_idx, chroma_array_type, disable_smoothing) ==> forall|j: int|
            0 <= j < 129 ==> #[trigger] o.buf@[j] as int == smooth_entry(
                *r,
                bilinear(*r, c_idx, bit_depth, strong_smoothing),
                j,
            ),
{
    let n = r.n;
    let nn = 2 * n as isize;
    if disable_smoothing || (c_idx != 0 && chroma_array_type != 3) {
        return Refs { buf: r.buf, n: r.n };
    }
    let m = mode as i32;
    let thresh: i32 = if n == 8 {
        7
    } else if n == 16 {
        1
    } else {
        0
    };
    let d26 = if m >= 26 {
        m - 26
    } else {
        26 - m
    };
    let d10 = if m >= 10 {
        m - 10
    } else {
        10 - m
    };
    let dist = if d26 < d10 {
        d26
    } else {
        d10
    };
    if mode == 1 || mode > 34 || n == 4 || dist <= thresh {
        return Refs { buf: r.buf, n: r.n };
    }
    let c = r.top(-1) as i32;
    let (te, le) = (r.top(nn - 1) as i32, r.left(nn - 1) as i32);
    proof {
        vstd::arithmetic::power2::lemma2_to64();
        vstd::arithmetic::power2::lemma_pow2_pos(bit_depth as nat);
        if bit_depth < 30 {
            vstd::arithmetic::power2::lemma_pow2_strictly_increases(bit_depth as nat, 30);
        }
        vstd::bits::lemma_u32_shl_is_mul(1, bit_depth as u32);
        vstd::bits::lemma_u32_shr_is_div(1u32 << (bit_depth as u32), 5);
    }
    let lim = ((1u32 << (bit_depth as u32)) >> 5) as i32;
    let bilin = strong_smoothing && c_idx == 0 && n == 32 && {
        let a = c + te - 2 * r.top(nn / 2 - 1) as i32;
        let b = c + le - 2 * r.left(nn / 2 - 1) as i32;
        (if a < 0 {
            -a
        } else {
            a
        }) < lim && (if b < 0 {
            -b
        } else {
            b
        }) < lim
    };
    let mut o = Refs::new(n);
    let ghost rr = *r;
    if bilin {
        o.set_top(-1, c as u16);
    } else {
        let v = (r.left(0) as i32 + 2 * c + r.top(0) as i32 + 2) as u32 >> 2;
        proof {
            vstd::bits::lemma_u32_shr_is_div((r.left_of(0) as i32 + 2 * c + r.top_of(0) as i32 + 2) as u32, 2);
            assert(v as int == smooth_entry(*r, bilin, nn as int));
            assert(v <= 0xffff);
        }
        o.set_top(-1, v as u16);
    }
    let mut i: isize = 0;
    while i < nn - 1
        invariant
            n == r.n,
            n <= 32,
            nn == 2 * n,
            o.n == n,
            0 <= i,
            i <= nn - 1 || nn == 0,
            c == r.top_of(-1),
            te == r.top_of(nn - 1),
            le == r.left_of(nn - 1),
            forall|j: int|
                0 <= j < 129 ==> #[trigger] o.buf@[j] as int == if j == nn || (1 <= j <= nn - 1 && nn - 1 - j
                    < i) || (nn + 1 <= j <= 2 * nn - 1 && j - nn - 1 < i) {
                    smooth_entry(*r, bilin, j)
                } else {
                    0
                },
        decreases nn - 1 - i,
    {
        let (lv, tv) = if bilin {
            let (w0, w1) = ((nn - 1 - i) as u32, (i + 1) as u32);
            proof {
                assert(w0 * (c as u32) <= 64 * 0xffff && w1 * (le as u32) <= 64 * 0xffff && w1 * (te as u32)
                    <= 64 * 0xffff) by (nonlinear_arith)
                    requires
                        w0 <= 64,
                        w1 <= 64,
                        0 <= c <= 0xffff,
                        0 <= le <= 0xffff,
                        0 <= te <= 0xffff,
                ;
            }
            let l = (w0 * c as u32 + w1 * le as u32 + 32) >> 6;
            let t = (w0 * c as u32 + w1 * te as u32 + 32) >> 6;
            proof {
                assert(w0 == nn - 1 - i && w1 == i + 1);
                vstd::arithmetic::power2::lemma2_to64();
                vstd::bits::lemma_u32_shr_is_div((w0 * c as u32 + w1 * le as u32 + 32) as u32, 6);
                vstd::bits::lemma_u32_shr_is_div((w0 * c as u32 + w1 * te as u32 + 32) as u32, 6);
                assert((w0 * c as u32 + w1 * le as u32 + 32) as int / 64 <= 0xffff) by (nonlinear_arith)
                    requires
                        w0 + w1 == 2 * n,
                        n <= 32,
                        0 <= c <= 0xffff,
                        0 <= le <= 0xffff,
                ;
                assert((w0 * c as u32 + w1 * te as u32 + 32) as int / 64 <= 0xffff) by (nonlinear_arith)
                    requires
                        w0 + w1 == 2 * n,
                        n <= 32,
                        0 <= c <= 0xffff,
                        0 <= te <= 0xffff,
                ;
                assert(l as int == smooth_entry(*r, bilin, nn - 1 - i));
                assert(t as int == smooth_entry(*r, bilin, nn + 1 + i));
            }
            (l, t)
        } else {
            let l = (r.left(i + 1) as u32 + 2 * r.left(i) as u32 + r.left(i - 1) as u32 + 2) >> 2;
            let t = (r.top(i + 1) as u32 + 2 * r.top(i) as u32 + r.top(i - 1) as u32 + 2) >> 2;
            proof {
                vstd::arithmetic::power2::lemma2_to64();
                vstd::bits::lemma_u32_shr_is_div(
                    (r.left_of(i + 1) as u32 + 2 * r.left_of(i as int) as u32 + r.left_of(i - 1) as u32 + 2) as u32,
                    2,
                );
                vstd::bits::lemma_u32_shr_is_div(
                    (r.top_of(i + 1) as u32 + 2 * r.top_of(i as int) as u32 + r.top_of(i - 1) as u32 + 2) as u32,
                    2,
                );
                assert(l as int == smooth_entry(*r, bilin, nn - 1 - i));
                assert(t as int == smooth_entry(*r, bilin, nn + 1 + i));
            }
            (l, t)
        };
        proof {
            assert(lv as int == smooth_entry(*r, bilin, nn - 1 - i));
            assert(tv as int == smooth_entry(*r, bilin, nn + 1 + i));
        }
        o.set_left(i, lv as u16);
        o.set_top(i, tv as u16);
        i += 1;
    }
    o.set_left(nn - 1, le as u16);
    o.set_top(nn - 1, te as u16);
    proof {
        assert(bilin == bilinear(*r, c_idx, bit_depth, strong_smoothing));
        assert forall|j: int| 0 <= j < 129 implies #[trigger] o.buf@[j] as int == smooth_entry(*r, bilin, j) by {
        }
    }
    o
}

/// Smoothing a flat edge changes nothing: with every meaningful reference
/// sample equal to `v`, both the `[1 2 1]` filter and (at 32x32) the
/// bilinear one give `v` back at every entry.
pub proof fn lemma_smoothing_flat(r: Refs, bilin: bool, v: u16)
    requires
        1 <= r.n <= 32,
        bilin ==> r.n == 32,
        forall|j: int| 0 <= j < 4 * r.n + 1 ==> #[trigger] r.buf@[j] == v,
    ensures
        forall|j: int| 0 <= j < 4 * r.n + 1 ==> #[trigger] smooth_entry(r, bilin, j) == v,
{
    let nn = 2 * r.n as int;
    assert forall|j: int| 0 <= j < 4 * r.n + 1 implies #[trigger] smooth_entry(r, bilin, j) == v by {
        assert(r.top_of(-1) == v && r.top_of(nn - 1) == v && r.left_of(nn - 1) == v);
        if j == nn {
            assert(r.left_of(0) == v && r.top_of(0) == v);
        } else if 0 < j < nn {
            let i = nn - 1 - j;
            if bilin {
                assert(((nn - 1 - i) * v + (i + 1) * v + 32) / 64 == v) by (nonlinear_arith)
                    requires
                        nn == 64,
                ;
            } else {
                assert(r.left_of(i + 1) == v && r.left_of(i) == v && r.left_of(i - 1) == v);
            }
        } else if nn < j < 2 * nn {
            let i = j - nn - 1;
            if bilin {
                assert(((nn - 1 - i) * v + (i + 1) * v + 32) / 64 == v) by (nonlinear_arith)
                    requires
                        nn == 64,
                ;
            } else {
                assert(r.top_of(i + 1) == v && r.top_of(i) == v && r.top_of(i - 1) == v);
            }
        }
    }
}

/// The `[1 2 1]` filter is centred and its taps sum to four: an edge whose
/// samples, from the corner `p[-1][-1]` on, lie on a straight line keeps
/// every sample between the corner and its far end. This holds for the left
/// edge and the top edge alike.
pub proof fn lemma_smoothing_keeps_lines(r: Refs, a: int, d: int)
    requires
        1 <= r.n <= 32,
    ensures
        (forall|y: int| -1 <= y < 2 * r.n ==> #[trigger] r.left_of(y) as int == a + d * y) ==> forall|j: int|
            0 < j < 2 * r.n ==> #[trigger] smooth_entry(r, false, j) == r.buf@[j] as int,
        (forall|x: int| -1 <= x < 2 * r.n ==> #[trigger] r.top_of(x) as int == a + d * x) ==> forall|j: int|
            2 * r.n < j < 4 * r.n ==> #[trigger] smooth_entry(r, false, j) == r.buf@[j] as int,
{
    let nn = 2 * r.n as int;
    if forall|y: int| -1 <= y < 2 * r.n ==> #[trigger] r.left_of(y) as int == a + d * y {
        assert forall|j: int| 0 < j < nn implies #[trigger] smooth_entry(r, false, j) == r.buf@[j] as int by {
            let i = nn - 1 - j;
            let (p0, p1, p2) = (r.left_of(i - 1) as int, r.left_of(i) as int, r.left_of(i + 1) as int);
            assert(p0 == a + d * (i - 1) && p1 == a + d * i && p2 == a + d * (i + 1));
            assert((p2 + 2 * p1 + p0 + 2) / 4 == p1) by (nonlinear_arith)
                requires
                    p0 == a + d * (i - 1),
                    p1 == a + d * i,
                    p2 == a + d * (i + 1),
            ;
        }
    }
    if forall|x: int| -1 <= x < 2 * r.n ==> #[trigger] r.top_of(x) as int == a + d * x {
        assert forall|j: int| nn < j < 2 * nn implies #[trigger] smooth_entry(r, false, j) == r.buf@[j] as int by {
            let i = j - nn - 1;
            let (p0, p1, p2) = (r.top_of(i - 1) as int, r.top_of(i) as int, r.top_of(i + 1) as int);
            assert(p0 == a + d * (i - 1) && p1 == a + d * i && p2 == a + d * (i + 1));
            assert((p2 + 2 * p1 + p0 + 2) / 4 == p1) by (nonlinear_arith)
                requires
                    p0 == a + d * (i - 1),
                    p1 == a + d * i,
                    p2 == a + d * (i + 1),
            ;
        }
    }
}

/// Which blocks have their references smoothed, by block size and mode
/// (clause 8.4.4.2.3 with `intraHorVerDistThres` 7, 1 and 0): for luma with
/// smoothing enabled, never at 4x4; at 8x8 only planar and the three
/// diagonal modes 2, 18 and 34; at 16x16 every mode but DC and the modes
/// within one of pure horizontal (9 to 11) or pure vertical (25 to 27); at
/// 32x32 every mode but DC, pure horizontal (10) and pure vertical (26).
/// Chroma outside 4:4:4, and any block with smoothing disabled, is never
/// smoothed, and the pure horizontal and vertical modes never are, at any
/// size. Mode `m` and its mirror about the diagonal, `36 - m`, are treated
/// alike.
pub proof fn lemma_smoothing_modes(r: Refs, mode: u8, c_idx: usize, chroma_array_type: u8, disable: bool)
    ensures
        disable ==> !smoothing_applies(r, mode, c_idx, chroma_array_type, disable),
        c_idx != 0 && chroma_array_type != 3 ==> !smoothing_applies(r, mode, c_idx, chroma_array_type, disable),
        mode == 10 || mode == 26 ==> !smoothing_applies(r, mode, c_idx, chroma_array_type, disable),
        mode == 1 ==> !smoothing_applies(r, mode, c_idx, chroma_array_type, disable),
        r.n == 4 ==> !smoothing_applies(r, mode, c_idx, chroma_array_type, disable),
        !disable && c_idx == 0 && mode <= 34 ==> {
            &&& r.n == 8 ==> (smoothing_applies(r, mode, c_idx, chroma_array_type, disable) <==> (mode == 0 || mode
                == 2 || mode == 18 || mode == 34))
            &&& r.n == 16 ==> (smoothing_applies(r, mode, c_idx, chroma_array_type, disable) <==> (mode != 1 && mode
                != 9 && mode != 10 && mode != 11 && mode != 25 && mode != 26 && mode != 27))
            &&& r.n == 32 ==> (smoothing_applies(r, mode, c_idx, chroma_array_type, disable) <==> (mode != 1 && mode
                != 10 && mode != 26))
        },
        2 <= mode <= 34 ==> smoothing_applies(r, mode, c_idx, chroma_array_type, disable) == smoothing_applies(
            r,
            (36 - mode) as u8,
            c_idx,
            chroma_array_type,
            disable,
        ),
{
}

} // verus!
