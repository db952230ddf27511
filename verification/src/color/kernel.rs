//! The per-row conversion loops: one sample, or one sample of each plane,
//! becomes one output pixel of `N` bytes.
//!
//! `N` is bytes per output pixel, `BGR` swaps red and blue, and `WIDE`
//! selects 16-bit channels stored in the machine's byte order.

use vstd::prelude::*;

use super::fixed::{ALPHA_HALF, ALPHA_SHIFT, AlphaScale, Coeffs, clamp};
use crate::hevc::Frame;

verus! {

/// The channel values of a pixel in storage order: red, green, blue and
/// alpha, or blue first when `bgr`.
pub open spec fn channel_values(bgr: bool, r: int, g: int, b: int, a: int) -> Seq<int> {
    if bgr {
        seq![b, g, r, a]
    } else {
        seq![r, g, b, a]
    }
}

/// Two bytes holding `v` as a 16-bit value in one of the two byte orders.
pub open spec fn holds_u16(lo: u8, hi: u8, v: int) -> bool {
    let w = (v as u16) as int;
    lo + 256 * hi == w || hi + 256 * lo == w
}

/// The `n` bytes of `d` from `off` hold a pixel with channel values
/// `vals`: byte `j` is value `j` truncated to 8 bits, or for `wide` pixels
/// bytes `2k` and `2k + 1` are value `k` as 16 bits in the machine's byte
/// order.
pub open spec fn pixel_at(d: Seq<u8>, off: int, n: int, wide: bool, vals: Seq<int>) -> bool {
    if wide {
        forall|k: int| 0 <= k < n / 2 ==> holds_u16(#[trigger] d[off + 2 * k], d[off + 2 * k + 1], vals[k])
    } else {
        forall|j: int| 0 <= j < n ==> #[trigger] d[off + j] == (vals[j] as u8)
    }
}

/// The pixel layouts the loops are instantiated for: up to four 8-bit
/// channels, or three or four 16-bit ones.
pub open spec fn layout_ok(n: usize, wide: bool) -> bool {
    if wide {
        n == 6 || n == 8
    } else {
        1 <= n <= 4
    }
}

/// `u16::to_ne_bytes`: the two bytes of `v` in the machine's byte order.
#[verifier::external_body]
fn ne_bytes(v: u16) -> (r: [u8; 2])
    ensures
        r[0] + 256 * r[1] == v || r[1] + 256 * r[0] == v,
{
    v.to_ne_bytes()
}

/// Stores one pixel at byte `off` of `dst`. `a` is already in output units.
fn store<const N: usize, const BGR: bool, const WIDE: bool>(dst: &mut [u8], off: usize, r: i32, g: i32, b: i32, a: i32)
    requires
        layout_ok(N, WIDE),
        off + N <= old(dst)@.len(),
    ensures
        final(dst)@.len() == old(dst)@.len(),
        pixel_at(final(dst)@, off as int, N as int, WIDE, channel_values(BGR, r as int, g as int, b as int, a as int)),
        forall|i: int| 0 <= i < old(dst)@.len() && !(off <= i < off + N) ==> #[trigger] final(dst)@[i] == old(dst)@[i],
{
    let vals = if BGR {
        [b, g, r, a]
    } else {
        [r, g, b, a]
    };
    let ghost cv = channel_values(BGR, r as int, g as int, b as int, a as int);
    let ghost d0 = dst@;
    let len = dst.len();
    if WIDE {
        let mut k: usize = 0;
        while k < N / 2
            invariant
                N == 6 || N == 8,
                off + N <= dst@.len(),
                dst@.len() == d0.len(),
                len == d0.len(),
                k <= N / 2,
                forall|t: int| 0 <= t < 4 ==> #[trigger] vals@[t] as int == cv[t],
                forall|t: int| 0 <= t < k ==> holds_u16(#[trigger] dst@[off + 2 * t], dst@[off + 2 * t + 1], cv[t]),
                forall|i: int| 0 <= i < d0.len() && !(off <= i < off + 2 * k) ==> #[trigger] dst@[i] == d0[i],
            decreases N / 2 - k,
        {
            let bytes = ne_bytes(#[verifier::truncate] (vals[k] as u16));
            dst[off + 2 * k] = bytes[0];
            dst[off + 2 * k + 1] = bytes[1];
            k += 1;
        }

    } else {
        let mut j: usize = 0;
        while j < N
            invariant
                1 <= N <= 4,
                off + N <= dst@.len(),
                dst@.len() == d0.len(),
                len == d0.len(),
                j <= N,
                forall|t: int| 0 <= t < 4 ==> #[trigger] vals@[t] as int == cv[t],
                forall|t: int| 0 <= t < j ==> #[trigger] dst@[off + t] == (cv[t] as u8),
                forall|i: int| 0 <= i < d0.len() && !(off <= i < off + j) ==> #[trigger] dst@[i] == d0[i],
            decreases N - j,
        {
            dst[off + j] = #[verifier::truncate] (vals[j] as u8);
            j += 1;
        }

    }
}

/// The output of `Coeffs::finish` for accumulator `acc`.
pub open spec fn finished(c: Coeffs, acc: int) -> int {
    clamp((((acc + c.round) as i32) >> c.shift) as int, 0, c.max_out as int)
}

/// `(y - y_offset) * ky`: a luma sample (or, for the identity matrix, any
/// sample) on the output scale before rounding.
pub open spec fn luma_acc(c: Coeffs, y: int) -> int {
    (y - c.y_offset) * c.ky
}

/// A sample `y` scaled by `luma_acc` stays within `i32`, rounding included.
pub open spec fn luma_fits(c: Coeffs, y: int) -> bool {
    &&& i32::MIN <= y - c.y_offset <= i32::MAX
    &&& i32::MIN <= luma_acc(c, y) <= i32::MAX
    &&& i32::MIN <= luma_acc(c, y) + c.round <= i32::MAX
}

/// The coefficients round and clamp: a shift below 32 and a non-negative
/// output maximum.
pub open spec fn finish_ok(c: Coeffs) -> bool {
    c.shift < 32 && c.max_out >= 0
}

/// `p * n + n <= x * n` for pixels `p` before `x`.
proof fn lemma_before(p: int, x: int, n: int)
    requires
        0 <= p < x,
        n >= 0,
    ensures
        p * n + n <= x * n,
{
    assert(p * n + n <= x * n) by (nonlinear_arith)
        requires
            p < x,
            n >= 0,
    ;
}

/// Grey: one luma sample becomes all three channels, alpha opaque, for as
/// many pixels as both `dst` and `luma` hold.
pub fn row_luma<const N: usize, const BGR: bool, const WIDE: bool>(dst: &mut [u8], luma: &[u16], c: &Coeffs)
    requires
        layout_ok(N, WIDE),
        finish_ok(*c),
        forall|x: int| 0 <= x < luma@.len() && x < (old(dst)@.len() as int) / (N as int) ==> luma_fits(*c, #[trigger] luma@[x] as int),
    ensures
        final(dst)@.len() == old(dst)@.len(),
        ({
            let count = if (old(dst)@.len() as int) / (N as int) < luma@.len() {
                (old(dst)@.len() as int) / (N as int)
            } else {
                luma@.len() as int
            };
            &&& forall|x: int| 0 <= x < count ==> {
                let v = finished(*c, luma_acc(*c, #[trigger] luma@[x] as int));
                pixel_at(final(dst)@, x * N, N as int, WIDE, channel_values(BGR, v, v, v, c.max_out as int))
            }
            &&& forall|i: int| count * N <= i < old(dst)@.len() ==> #[trigger] final(dst)@[i] == old(dst)@[i]
        }),
{
    let ghost d0 = dst@;
    let len = dst.len();
    let count = if dst.len() / N < luma.len() {
        dst.len() / N
    } else {
        luma.len()
    };
    proof {
        assert(count * N <= d0.len()) by (nonlinear_arith)
            requires
                count <= (d0.len() as int) / (N as int),
                N > 0,
        ;
    }
    let mut x: usize = 0;
    while x < count
        invariant
            layout_ok(N, WIDE),
            finish_ok(*c),
            dst@.len() == d0.len(),
            len == d0.len(),
            count * N <= d0.len(),
            count <= luma@.len(),
            count <= (d0.len() as int) / (N as int),
            x <= count,
            forall|q: int| 0 <= q < luma@.len() && q < (d0.len() as int) / (N as int) ==> luma_fits(*c, #[trigger] luma@[q] as int),
            forall|p: int| 0 <= p < x ==> {
                let v = finished(*c, luma_acc(*c, #[trigger] luma@[p] as int));
                pixel_at(dst@, p * N, N as int, WIDE, channel_values(BGR, v, v, v, c.max_out as int))
            },
            forall|i: int| x * N <= i < d0.len() ==> #[trigger] dst@[i] == d0[i],
        decreases count - x,
    {
        proof {
            assert((x + 1) * N <= count * N) by (nonlinear_arith)
                requires
                    x < count,
            ;
            assert(x * N + N == (x + 1) * N) by (nonlinear_arith);
            assert(luma_fits(*c, luma@[x as int] as int));
        }
        let y = luma[x] as i32;
        let v = c.finish((y - c.y_offset) * c.ky);
        let ghost before = dst@;
        store::<N, BGR, WIDE>(dst, x * N, v, v, v, c.max_out);
        proof {
            assert forall|p: int| 0 <= p < x + 1 implies {
                let w = finished(*c, luma_acc(*c, #[trigger] luma@[p] as int));
                pixel_at(dst@, p * N, N as int, WIDE, channel_values(BGR, w, w, w, c.max_out as int))
            } by {
                if p < x {
                    lemma_before(p, x as int, N as int);
                    let w = finished(*c, luma_acc(*c, luma@[p] as int));
                    assert(pixel_at(before, p * N, N as int, WIDE, channel_values(BGR, w, w, w, c.max_out as int)));
                }
            }
        }
        x += 1;
    }
}


/// Pixels a row of `d` bytes per pixel holds, and no more than each plane
/// row supplies.
pub open spec fn row_count(d: int, a: int, b: int, c: int) -> int {
    let m1 = if a < d {
        a
    } else {
        d
    };
    let m2 = if b < m1 {
        b
    } else {
        m1
    };
    if c < m2 {
        c
    } else {
        m2
    }
}

/// All three samples scale within `i32` on the luma scale.
pub open spec fn identity_fits(c: Coeffs, y: int, u: int, v: int) -> bool {
    luma_fits(c, y) && luma_fits(c, u) && luma_fits(c, v)
}

/// The identity matrix's pixel: red from Cr, green from luma, blue from Cb.
pub open spec fn identity_pixel(c: Coeffs, bgr: bool, y: int, u: int, v: int) -> Seq<int> {
    channel_values(
        bgr,
        finished(c, luma_acc(c, v)),
        finished(c, luma_acc(c, y)),
        finished(c, luma_acc(c, u)),
        c.max_out as int,
    )
}

/// In `i32`.
pub open spec fn in_i32(v: int) -> bool {
    i32::MIN <= v <= i32::MAX
}

/// Every intermediate of the matrix for samples `y`, `u`, `v` stays in `i32`.
pub open spec fn matrix_fits(c: Coeffs, y: int, u: int, v: int) -> bool {
    let yy = luma_acc(c, y);
    let (uu, vv) = (u - c.c_offset, v - c.c_offset);
    &&& in_i32(y - c.y_offset) && in_i32(yy) && in_i32(uu) && in_i32(vv)
    &&& in_i32(c.rv * vv) && in_i32(yy + c.rv * vv) && in_i32(yy + c.rv * vv + c.round)
    &&& in_i32(c.gu * uu) && in_i32(yy + c.gu * uu) && in_i32(c.gv * vv)
    &&& in_i32(yy + c.gu * uu + c.gv * vv) && in_i32(yy + c.gu * uu + c.gv * vv + c.round)
    &&& in_i32(c.bu * uu) && in_i32(yy + c.bu * uu) && in_i32(yy + c.bu * uu + c.round)
}

/// The matrix's pixel: `Y' + rv V`, `Y' + gu U + gv V` and `Y' + bu U`,
/// each rounded and clamped, with `U` and `V` the chroma samples less the
/// chroma offset.
pub open spec fn matrix_pixel(c: Coeffs, bgr: bool, y: int, u: int, v: int) -> Seq<int> {
    let yy = luma_acc(c, y);
    let (uu, vv) = (u - c.c_offset, v - c.c_offset);
    channel_values(
        bgr,
        finished(c, yy + c.rv * vv),
        finished(c, yy + c.gu * uu + c.gv * vv),
        finished(c, yy + c.bu * uu),
        c.max_out as int,
    )
}

/// Matrix 0: luma is green, Cb is blue and Cr is red, all on the luma
/// scale; alpha opaque.
pub fn row_identity<const N: usize, const BGR: bool, const WIDE: bool>(dst: &mut [u8], luma: &[u16], cb: &[u16], cr: &[u16], c: &Coeffs)
    requires
        layout_ok(N, WIDE),
        finish_ok(*c),
        forall|x: int|
            0 <= x < luma@.len() && x < cb@.len() && x < cr@.len() && x < (old(dst)@.len() as int) / (N as int) ==> identity_fits(
                *c,
                #[trigger] luma@[x] as int,
                cb@[x] as int,
                cr@[x] as int,
            ),
    ensures
        final(dst)@.len() == old(dst)@.len(),
        ({
            let count = row_count((old(dst)@.len() as int) / (N as int), luma@.len() as int, cb@.len() as int, cr@.len() as int);
            &&& forall|x: int| 0 <= x < count ==> pixel_at(
                final(dst)@,
                x * N,
                N as int,
                WIDE,
                identity_pixel(*c, BGR, #[trigger] luma@[x] as int, cb@[x] as int, cr@[x] as int),
            )
            &&& forall|i: int| count * N <= i < old(dst)@.len() ==> #[trigger] final(dst)@[i] == old(dst)@[i]
        }),
{
    let ghost d0 = dst@;
    let len = dst.len();
    let mut count = dst.len() / N;
    if luma.len() < count {
        count = luma.len();
    }
    if cb.len() < count {
        count = cb.len();
    }
    if cr.len() < count {
        count = cr.len();
    }
    proof {
        assert(count * N <= d0.len()) by (nonlinear_arith)
            requires
                count <= (d0.len() as int) / (N as int),
                N > 0,
        ;
    }
    let mut x: usize = 0;
    while x < count
        invariant
            layout_ok(N, WIDE),
            finish_ok(*c),
            dst@.len() == d0.len(),
            len == d0.len(),
            count == row_count((d0.len() as int) / (N as int), luma@.len() as int, cb@.len() as int, cr@.len() as int),
            count * N <= d0.len(),
            x <= count,
            forall|q: int|
                0 <= q < luma@.len() && q < cb@.len() && q < cr@.len() && q < (d0.len() as int) / (N as int) ==> identity_fits(
                    *c,
                    #[trigger] luma@[q] as int,
                    cb@[q] as int,
                    cr@[q] as int,
                ),
            forall|p: int| 0 <= p < x ==> pixel_at(dst@, p * N, N as int, WIDE, identity_pixel(*c, BGR, #[trigger] luma@[p] as int, cb@[p] as int, cr@[p] as int)),
            forall|i: int| x * N <= i < d0.len() ==> #[trigger] dst@[i] == d0[i],
        decreases count - x,
    {
        proof {
            assert((x + 1) * N <= count * N) by (nonlinear_arith)
                requires
                    x < count,
            ;
            assert(x * N + N == (x + 1) * N) by (nonlinear_arith);
            assert(identity_fits(*c, luma@[x as int] as int, cb@[x as int] as int, cr@[x as int] as int));
        }
        let (y, u0, v0) = (luma[x] as i32, cb[x] as i32, cr[x] as i32);
        let g = c.finish((y - c.y_offset) * c.ky);
        let b = c.finish((u0 - c.y_offset) * c.ky);
        let r = c.finish((v0 - c.y_offset) * c.ky);
        let ghost before = dst@;
        store::<N, BGR, WIDE>(dst, x * N, r, g, b, c.max_out);
        proof {
            assert forall|p: int| 0 <= p < x + 1 implies pixel_at(
                dst@,
                p * N,
                N as int,
                WIDE,
                identity_pixel(*c, BGR, #[trigger] luma@[p] as int, cb@[p] as int, cr@[p] as int),
            ) by {
                if p < x {
                    lemma_before(p, x as int, N as int);
                    assert(pixel_at(before, p * N, N as int, WIDE, identity_pixel(*c, BGR, luma@[p] as int, cb@[p] as int, cr@[p] as int)));
                }
            }
        }
        x += 1;
    }
}

/// The usual case: one multiply-accumulate per channel; alpha opaque.
pub fn row_matrix<const N: usize, const BGR: bool, const WIDE: bool>(dst: &mut [u8], luma: &[u16], cb: &[u16], cr: &[u16], c: &Coeffs)
    requires
        layout_ok(N, WIDE),
        finish_ok(*c),
        forall|x: int|
            0 <= x < luma@.len() && x < cb@.len() && x < cr@.len() && x < (old(dst)@.len() as int) / (N as int) ==> matrix_fits(
                *c,
                #[trigger] luma@[x] as int,
                cb@[x] as int,
                cr@[x] as int,
            ),
    ensures
        final(dst)@.len() == old(dst)@.len(),
        ({
            let count = row_count((old(dst)@.len() as int) / (N as int), luma@.len() as int, cb@.len() as int, cr@.len() as int);
            &&& forall|x: int| 0 <= x < count ==> pixel_at(
                final(dst)@,
                x * N,
                N as int,
                WIDE,
                matrix_pixel(*c, BGR, #[trigger] luma@[x] as int, cb@[x] as int, cr@[x] as int),
            )
            &&& forall|i: int| count * N <= i < old(dst)@.len() ==> #[trigger] final(dst)@[i] == old(dst)@[i]
        }),
{
    let ghost d0 = dst@;
    let len = dst.len();
    let mut count = dst.len() / N;
    if luma.len() < count {
        count = luma.len();
    }
    if cb.len() < count {
        count = cb.len();
    }
    if cr.len() < count {
        count = cr.len();
    }
    proof {
        assert(count * N <= d0.len()) by (nonlinear_arith)
            requires
                count <= (d0.len() as int) / (N as int),
                N > 0,
        ;
    }
    let mut x: usize = 0;
    while x < count
        invariant
            layout_ok(N, WIDE),
            finish_ok(*c),
            dst@.len() == d0.len(),
            len == d0.len(),
            count == row_count((d0.len() as int) / (N as int), luma@.len() as int, cb@.len() as int, cr@.len() as int),
            count * N <= d0.len(),
            x <= count,
            forall|q: int|
                0 <= q < luma@.len() && q < cb@.len() && q < cr@.len() && q < (d0.len() as int) / (N as int) ==> matrix_fits(
                    *c,
                    #[trigger] luma@[q] as int,
                    cb@[q] as int,
                    cr@[q] as int,
                ),
            forall|p: int| 0 <= p < x ==> pixel_at(dst@, p * N, N as int, WIDE, matrix_pixel(*c, BGR, #[trigger] luma@[p] as int, cb@[p] as int, cr@[p] as int)),
            forall|i: int| x * N <= i < d0.len() ==> #[trigger] dst@[i] == d0[i],
        decreases count - x,
    {
        proof {
            assert((x + 1) * N <= count * N) by (nonlinear_arith)
                requires
                    x < count,
            ;
            assert(x * N + N == (x + 1) * N) by (nonlinear_arith);
            assert(matrix_fits(*c, luma@[x as int] as int, cb@[x as int] as int, cr@[x as int] as int));
        }
        let (y, u0, v0) = (luma[x] as i32, cb[x] as i32, cr[x] as i32);
        let yy = (y - c.y_offset) * c.ky;
        let u = u0 - c.c_offset;
        let v = v0 - c.c_offset;
        let r = c.finish(yy + c.rv * v);
        let g = c.finish(yy + c.gu * u + c.gv * v);
        let b = c.finish(yy + c.bu * u);
        let ghost before = dst@;
        store::<N, BGR, WIDE>(dst, x * N, r, g, b, c.max_out);
        proof {
            assert forall|p: int| 0 <= p < x + 1 implies pixel_at(
                dst@,
                p * N,
                N as int,
                WIDE,
                matrix_pixel(*c, BGR, #[trigger] luma@[p] as int, cb@[p] as int, cr@[p] as int),
            ) by {
                if p < x {
                    lemma_before(p, x as int, N as int);
                    assert(pixel_at(before, p * N, N as int, WIDE, matrix_pixel(*c, BGR, luma@[p] as int, cb@[p] as int, cr@[p] as int)));
                }
            }
        }
        x += 1;
    }
}


/// The value an alpha sample `v` takes on the output scale, as
/// `AlphaScale::apply` computes it.
pub open spec fn scaled_alpha(s: AlphaScale, v: u16) -> int {
    let vin = if v < s.max_in { v as int } else { s.max_in as int };
    clamp((((vin * s.gain + ALPHA_HALF) as i32) >> ALPHA_SHIFT) as int, 0, s.max_out as int)
}

/// An alpha scale whose products stay within `i32`.
pub open spec fn alpha_scale_ok(s: AlphaScale) -> bool {
    &&& 0 <= s.max_in
    &&& 0 <= s.gain
    &&& s.max_out >= 0
    &&& s.max_in * s.gain + ALPHA_HALF <= i32::MAX
}

/// Output row `y` exists in `out_len` bytes and starts inside the plane.
pub open spec fn alpha_row_ok(out_len: int, ylen: int, w: int, bpp: int, stride: int, y: int) -> bool {
    (y + 1) * w * bpp <= out_len && y * stride <= ylen
}

/// Pixel `(x, y)` of a `w` by `h` image receives a sample of the alpha plane.
pub open spec fn alpha_pixel(out_len: int, ylen: int, w: int, h: int, bpp: int, stride: int, y: int, x: int) -> bool {
    &&& 0 <= y < h
    &&& 0 <= x < w
    &&& alpha_row_ok(out_len, ylen, w, bpp, stride, y)
    &&& y * stride + x < ylen
}

/// The first byte of a pixel's alpha channel: the last two bytes of an
/// eight-byte pixel, else its last byte.
pub open spec fn alpha_off(bpp: int) -> int {
    if bpp == 8 {
        6
    } else {
        bpp - 1
    }
}

/// Byte `i` of the output lies in the alpha channel of a pixel that
/// receives a sample.
pub open spec fn alpha_byte(out_len: int, ylen: int, w: int, h: int, bpp: int, stride: int, i: int) -> bool {
    let p = i / bpp;
    &&& 0 <= i
    &&& alpha_pixel(out_len, ylen, w, h, bpp, stride, p / w, p % w)
    &&& alpha_off(bpp) <= i % bpp
}

/// The alpha channel of the pixel whose bytes start at `base` holds `a`.
pub open spec fn alpha_holds(d: Seq<u8>, base: int, bpp: int, a: int) -> bool {
    if bpp == 8 {
        holds_u16(d[base + 6], d[base + 7], a)
    } else {
        d[base + bpp - 1] == (a as u8)
    }
}

/// `i == p * d + j` with `j` below `d` splits `i` into `p` and `j`.
proof fn lemma_split(i: int, d: int, p: int, j: int)
    requires
        d > 0,
        0 <= j < d,
        i == p * d + j,
    ensures
        i / d == p,
        i % d == j,
{
    vstd::arithmetic::div_mod::lemma_fundamental_div_mod_converse(i, d, p, j);
}

/// Rows that fail `alpha_row_ok` are followed only by rows that fail it.
proof fn lemma_rows_stop(out_len: int, ylen: int, w: int, bpp: int, stride: int, y: int, z: int)
    requires
        0 <= y <= z,
        w >= 0,
        bpp >= 0,
        stride >= 0,
        !alpha_row_ok(out_len, ylen, w, bpp, stride, y),
    ensures
        !alpha_row_ok(out_len, ylen, w, bpp, stride, z),
{
    assert((y + 1) * w * bpp <= (z + 1) * w * bpp && y * stride <= z * stride) by (nonlinear_arith)
        requires
            0 <= y <= z,
            w >= 0,
            bpp >= 0,
            stride >= 0,
    ;
}

/// Pixel `q` before pixel `p` has its bytes before those of `p`, and a
/// pixel of an earlier row comes before any pixel of a later one.
proof fn lemma_pixel_order(yy: int, xx: int, y: int, x: int, w: int)
    requires
        0 <= yy <= y,
        0 <= xx < w,
        0 <= x,
        yy < y || xx < x,
    ensures
        yy * w + xx < y * w + x,
{
    assert(yy * w + xx < y * w + x) by (nonlinear_arith)
        requires
            0 <= yy <= y,
            0 <= xx < w,
            0 <= x,
            yy < y || xx < x,
    ;
}

/// Fills the alpha channel of a `w` by `h` image of `bpp`-byte pixels from
/// the luma plane of `frame`: an eight-byte pixel takes a 16-bit value in
/// its last two bytes, any other its last byte. Rows stop at the first that
/// `out` cannot hold or that starts past the plane; a row takes as many
/// samples as the plane still has. Every other byte is left as it was.
pub fn alpha(out: &mut [u8], frame: &Frame, w: usize, h: usize, bpp: usize, s: &AlphaScale)
    requires
        bpp >= 1,
        alpha_scale_ok(*s),
        h * w * bpp <= usize::MAX,
        h * frame.y_stride <= usize::MAX,
    ensures
        final(out)@.len() == old(out)@.len(),
        forall|y: int, x: int|
            #[trigger] alpha_pixel(old(out)@.len() as int, frame.y@.len() as int, w as int, h as int, bpp as int, frame.y_stride as int, y, x)
                ==> alpha_holds(final(out)@, (y * w + x) * bpp, bpp as int, scaled_alpha(*s, frame.y@[y * frame.y_stride + x])),
        forall|i: int|
            0 <= i < old(out)@.len() && !alpha_byte(old(out)@.len() as int, frame.y@.len() as int, w as int, h as int, bpp as int, frame.y_stride as int, i)
                ==> #[trigger] final(out)@[i] == old(out)@[i],
{
    let wide = bpp == 8;
    let off = bpp - if wide { 2 } else { 1 };
    let stride = frame.y_stride as usize;
    let len = out.len();
    let ylen = frame.y.len();
    let ghost o0 = out@;
    let ghost (lo, yl, wi, hi, bi, si) = (len as int, ylen as int, w as int, h as int, bpp as int, stride as int);
    let mut y: usize = 0;
    while y < h
        invariant
            y <= h,
            bpp >= 1,
            wide == (bpp == 8),
            off == alpha_off(bpp as int),
            alpha_scale_ok(*s),
            h * w * bpp <= usize::MAX,
            h * stride <= usize::MAX,
            stride == frame.y_stride,
            len == o0.len(),
            ylen == frame.y@.len(),
            out@.len() == o0.len(),
            lo == len && yl == ylen && wi == w && hi == h && bi == bpp && si == stride,
            forall|yy: int, xx: int|
                #[trigger] alpha_pixel(lo, yl, wi, hi, bi, si, yy, xx) && yy < y
                    ==> alpha_holds(out@, (yy * w + xx) * bpp, bi, scaled_alpha(*s, frame.y@[yy * stride + xx])),
            forall|i: int|
                0 <= i < lo && !(alpha_byte(lo, yl, wi, hi, bi, si, i) && i / bi < y * w) ==> #[trigger] out@[i] == o0[i],
        ensures
            out@.len() == o0.len(),
            forall|yy: int, xx: int|
                #[trigger] alpha_pixel(lo, yl, wi, hi, bi, si, yy, xx)
                    ==> alpha_holds(out@, (yy * w + xx) * bpp, bi, scaled_alpha(*s, frame.y@[yy * stride + xx])),
            forall|i: int| 0 <= i < lo && !alpha_byte(lo, yl, wi, hi, bi, si, i) ==> #[trigger] out@[i] == o0[i],
        decreases h - y,
    {
        proof {
            assert((y + 1) * w * bpp <= h * w * bpp && y * stride <= h * stride && (y + 1) * w <= (y + 1) * w * bpp
                && (y + 1) * w == y * w + w) by (nonlinear_arith)
                requires
                    y < h,
                    w >= 0,
                    bpp >= 1,
                    stride >= 0,
            ;
        }
        if (y + 1) * w * bpp > len || y * stride > ylen {
            proof {
                assert forall|yy: int, xx: int| #[trigger] alpha_pixel(lo, yl, wi, hi, bi, si, yy, xx) implies yy < y by {
                    if yy >= y {
                        lemma_rows_stop(lo, yl, wi, bi, si, y as int, yy);
                    }
                }
                assert forall|i: int| 0 <= i < lo && !alpha_byte(lo, yl, wi, hi, bi, si, i) implies #[trigger] out@[i] == o0[i] by {
                }
            }
            break;
        }
        let start = y * stride;
        let avail = ylen - start;
        let n = if w < avail { w } else { avail };
        let mut x: usize = 0;
        while x < n
            invariant
                y < h,
                x <= n,
                n <= w,
                n <= avail,
                start == y * stride,
                avail == ylen - start,
                (y + 1) * w * bpp <= len,
                y * stride <= ylen,
                bpp >= 1,
                wide == (bpp == 8),
                off == alpha_off(bpp as int),
                alpha_scale_ok(*s),
                stride == frame.y_stride,
                len == o0.len(),
                ylen == frame.y@.len(),
                out@.len() == o0.len(),
                lo == len && yl == ylen && wi == w && hi == h && bi == bpp && si == stride,
                forall|yy: int, xx: int|
                    #[trigger] alpha_pixel(lo, yl, wi, hi, bi, si, yy, xx) && (yy < y || (yy == y && xx < x))
                        ==> alpha_holds(out@, (yy * w + xx) * bpp, bi, scaled_alpha(*s, frame.y@[yy * stride + xx])),
                forall|i: int|
                    0 <= i < lo && !(alpha_byte(lo, yl, wi, hi, bi, si, i) && i / bi < y * w + x) ==> #[trigger] out@[i] == o0[i],
            decreases n - x,
        {
            let v = frame.y[start + x];
            let a = s.apply(v);
            proof {
                assert((y * w + x) * bpp + bpp <= (y + 1) * w * bpp && y * w + x <= (y * w + x) * bpp) by (nonlinear_arith)
                    requires
                        x < w,
                        bpp >= 1,
                ;
            }
            let base = (y * w + x) * bpp;
            let ghost before = out@;
            let ghost p = y * w + x;
            if wide {
                let b = ne_bytes(#[verifier::truncate] (a as u16));
                out[base + off] = b[0];
                out[base + off + 1] = b[1];
            } else {
                out[base + off] = #[verifier::truncate] (a as u8);
            }
            proof {
                let cw: int = if wide { 2 } else { 1 };
                assert(off + cw == bpp);
                assert(alpha_pixel(lo, yl, wi, hi, bi, si, y as int, x as int));
                assert(alpha_holds(out@, (y * w + x) * bpp, bi, scaled_alpha(*s, frame.y@[y * stride + x])));
                assert forall|yy: int, xx: int|
                    #[trigger] alpha_pixel(lo, yl, wi, hi, bi, si, yy, xx) && (yy < y || (yy == y && xx < x + 1))
                        implies alpha_holds(out@, (yy * w + xx) * bpp, bi, scaled_alpha(*s, frame.y@[yy * stride + xx])) by {
                    if yy < y || xx < x {
                        lemma_pixel_order(yy, xx, y as int, x as int, w as int);
                        lemma_before(yy * w + xx, p, bi);
                        assert(alpha_holds(before, (yy * w + xx) * bpp, bi, scaled_alpha(*s, frame.y@[yy * stride + xx])));
                    }
                }
                assert forall|i: int|
                    0 <= i < lo && !(alpha_byte(lo, yl, wi, hi, bi, si, i) && i / bi < y * w + x + 1)
                        implies #[trigger] out@[i] == o0[i] by {
                    if base + off <= i < base + off + cw {
                        lemma_split(i, bi, p, i - base);
                        lemma_split(p, wi, y as int, x as int);
                        assert(false);
                    }
                    assert(out@[i] == before[i]);
                }
            }
            x += 1;
        }
        proof {
            assert forall|yy: int, xx: int|
                #[trigger] alpha_pixel(lo, yl, wi, hi, bi, si, yy, xx) && yy < y + 1
                    implies alpha_holds(out@, (yy * w + xx) * bpp, bi, scaled_alpha(*s, frame.y@[yy * stride + xx])) by {
                if yy == y {
                    assert(xx < n);
                }
            }
            assert forall|i: int|
                0 <= i < lo && !(alpha_byte(lo, yl, wi, hi, bi, si, i) && i / bi < (y + 1) * w)
                    implies #[trigger] out@[i] == o0[i] by {
                if alpha_byte(lo, yl, wi, hi, bi, si, i) && i / bi < y * w + n {
                    assert(false);
                }
                if alpha_byte(lo, yl, wi, hi, bi, si, i) && i / bi >= y * w + n && i / bi < (y + 1) * w {
                    let p = i / bi;
                    assert((y + 1) * w == y * w + w) by (nonlinear_arith);
                    lemma_split(p, wi, y as int, p - y * w);
                    assert(false);
                }
            }
        }
        y += 1;
    }
}

} // verus!
