//! PCM samples of a coding unit (clause 7.3.8.7): raw sample bits between
//! two runs of the arithmetic decoder.

use vstd::prelude::*;

use crate::hevc::cabac::engine::{Cabac, read_limit, stream_value};
use crate::hevc::error::{Error, Result};
use crate::hevc::picture::{Picture, Plane};
use crate::hevc::ps::Sps;

verus! {

/// PCM sample `k` of `bits` bits from bit `base` of `data`, shifted up by
/// `shift` to the picture's bit depth.
pub open spec fn pcm_sample(data: Seq<u8>, base: int, k: int, bits: nat, shift: u8) -> u16 {
    ((#[verifier::truncate] (stream_value(data, base + k * bits, bits) as u16)) << shift) as u16
}

/// Whether entry `idx` of a plane `stride` samples per row lies inside the
/// plane (`width` by `height`) and inside the `nw` by `nh` block at
/// (`x0`, `y0`); then column `idx % stride` and row `idx / stride`.
pub open spec fn in_block(idx: int, stride: int, width: int, height: int, x0: int, y0: int, nw: int, nh: int) -> bool {
    let (x, y) = (idx % stride, idx / stride);
    &&& 0 < stride
    &&& x < width
    &&& y < height
    &&& x0 <= x < x0 + nw
    &&& y0 <= y < y0 + nh
}

/// Plane samples `old` after an `nw` by `nh` block of PCM samples at
/// (`x0`, `y0`), read in raster order from bit `base`, is stored where it
/// falls inside the plane.
pub open spec fn with_pcm_block(
    old: Seq<u16>,
    stride: int,
    width: int,
    height: int,
    x0: int,
    y0: int,
    nw: int,
    nh: int,
    data: Seq<u8>,
    base: int,
    bits: nat,
    shift: u8,
) -> Seq<u16> {
    Seq::new(
        old.len(),
        |idx: int|
            if in_block(idx, stride, width, height, x0, y0, nw, nh) {
                pcm_sample(data, base, (idx / stride - y0) * nw + (idx % stride - x0), bits, shift)
            } else {
                old[idx]
            },
    )
}

/// The same as `with_pcm_block`, but only for the samples before column
/// `i` of row `j` of the block.
pub open spec fn with_pcm_prefix(
    old: Seq<u16>,
    stride: int,
    width: int,
    height: int,
    x0: int,
    y0: int,
    nw: int,
    nh: int,
    data: Seq<u8>,
    base: int,
    bits: nat,
    shift: u8,
    i: int,
    j: int,
) -> Seq<u16> {
    Seq::new(
        old.len(),
        |idx: int|
            {
                let (x, y) = (idx % stride, idx / stride);
                if in_block(idx, stride, width, height, x0, y0, nw, nh) && (y - y0 < j || (y - y0 == j && x - x0 < i)) {
                    pcm_sample(data, base, (y - y0) * nw + (x - x0), bits, shift)
                } else {
                    old[idx]
                }
            },
    )
}

/// Reads an `nw` by `nh` block of `bits`-bit PCM samples in raster order
/// and stores each, shifted up by `shift`, at its place from (`x0`, `y0`)
/// when that lies inside `plane`.
fn pcm_block(cab: &mut Cabac, plane: &mut Plane, x0: usize, y0: usize, nw: usize, nh: usize, bits: u32, shift: u8) -> (r: Result<()>)
    requires
        old(cab).wf(),
        old(plane).wf(),
        bits <= 32,
        shift < 16,
        x0 + nw <= usize::MAX,
        y0 + nh <= usize::MAX,
        nw * nh * bits <= usize::MAX,
    ensures
        final(cab).same_stream(old(cab)),
        final(cab).spec_ctx() == old(cab).spec_ctx(),
        final(cab).spec_range() == old(cab).spec_range(),
        final(cab).spec_offset() == old(cab).spec_offset(),
        r is Ok <==> old(cab).spec_pos() + nw * nh * bits <= crate::hevc::cabac::engine::read_limit(old(cab).spec_data()),
        r matches Err(e) ==> e is Truncated,
        final(plane).stride == old(plane).stride,
        final(plane).width == old(plane).width,
        final(plane).height == old(plane).height,
        r is Ok ==> {
            &&& final(cab).spec_pos() == old(cab).spec_pos() + nw * nh * bits
            &&& final(plane).data@ == with_pcm_block(
                old(plane).data@,
                old(plane).stride as int,
                old(plane).width as int,
                old(plane).height as int,
                x0 as int,
                y0 as int,
                nw as int,
                nh as int,
                old(cab).spec_data(),
                old(cab).spec_pos(),
                bits as nat,
                shift,
            )
        },
{
    let ghost c0 = *cab;
    let ghost p0 = old(plane).data@;
    let ghost base = cab.spec_pos();
    let ghost data = cab.spec_data();
    let ghost (stride, width, height) = (plane.stride as int, plane.width as int, plane.height as int);
    proof {
        cab.lemma_pos_in_stream();
    }
    let mut j: usize = 0;
    while j < nh
        invariant
            j <= nh,
            cab.same_stream(&c0),
            c0 == *old(cab),
            data == c0.spec_data(),
            base == c0.spec_pos(),
            cab.spec_ctx() == c0.spec_ctx(),
            cab.spec_range() == c0.spec_range(),
            cab.spec_offset() == c0.spec_offset(),
            cab.spec_pos() == base + j * nw * bits,
            cab.spec_pos() <= crate::hevc::cabac::engine::read_limit(data),
            plane.wf(),
            plane.stride == stride,
            plane.width == width,
            plane.height == height,
            stride == old(plane).stride,
            width == old(plane).width,
            height == old(plane).height,
            p0 == old(plane).data@,
            plane.data@.len() == p0.len(),
            bits <= 32,
            shift < 16,
            x0 + nw <= usize::MAX,
            y0 + nh <= usize::MAX,
            nw * nh * bits <= usize::MAX,
            plane.data@ == with_pcm_prefix(p0, stride, width, height, x0 as int, y0 as int, nw as int, nh as int, data, base, bits as nat, shift, 0, j as int),
        decreases nh - j,
    {
        let mut i: usize = 0;
        while i < nw
            invariant
                i <= nw,
                j < nh,
                c0 == *old(cab),
                base == c0.spec_pos(),
                cab.spec_pos() <= crate::hevc::cabac::engine::read_limit(data),
                cab.same_stream(&c0),
                data == c0.spec_data(),
                cab.spec_ctx() == c0.spec_ctx(),
                cab.spec_range() == c0.spec_range(),
                cab.spec_offset() == c0.spec_offset(),
                cab.spec_pos() == base + (j * nw + i) * bits,
                plane.wf(),
                plane.stride == stride,
                plane.width == width,
                plane.height == height,
                stride == old(plane).stride,
                width == old(plane).width,
                height == old(plane).height,
                p0 == old(plane).data@,
                plane.data@.len() == p0.len(),
                bits <= 32,
                shift < 16,
                x0 + nw <= usize::MAX,
                y0 + nh <= usize::MAX,
                plane.data@ == with_pcm_prefix(p0, stride, width, height, x0 as int, y0 as int, nw as int, nh as int, data, base, bits as nat, shift, i as int, j as int),
            decreases nw - i,
        {
            let raw = match cab.raw_bits(bits) {
                Ok(v) => v,
                Err(e) => {
                    proof {
                        assert(j * nw + i + 1 <= nw * nh) by (nonlinear_arith)
                            requires
                                i < nw,
                                j < nh,
                        ;
                        assert((j * nw + i + 1) * bits <= nw * nh * bits) by (nonlinear_arith)
                            requires
                                j * nw + i + 1 <= nw * nh,
                        ;
                        assert((j * nw + i) * bits + bits == (j * nw + i + 1) * bits) by (nonlinear_arith);
                    }
                    return Err(e);
                },
            };
            let v = (#[verifier::truncate] (raw as u16)) << shift;
            if x0 + i < plane.width && y0 + j < plane.height {
                proof {
                    assert((y0 + j) * stride + x0 + i < stride * height) by (nonlinear_arith)
                        requires
                            x0 + i < width <= stride,
                            y0 + j < height,
                    ;
                }
                let ghost before = plane.data@;
                plane.put(x0 + i, y0 + j, v);
                proof {
                    let idx0 = (y0 + j) * stride + x0 + i;
                    vstd::arithmetic::div_mod::lemma_fundamental_div_mod_converse(idx0, stride, (y0 + j) as int, (x0 + i) as int);
                    assert forall|idx: int| 0 <= idx < p0.len() implies #[trigger] plane.data@[idx] == with_pcm_prefix(p0, stride, width, height, x0 as int, y0 as int, nw as int, nh as int, data, base, bits as nat, shift, i + 1, j as int)[idx] by {
                        if idx != idx0 {
                            vstd::arithmetic::div_mod::lemma_fundamental_div_mod(idx, stride);
                            if idx % stride == x0 + i && idx / stride == y0 + j {
                                assert(stride * (idx / stride) == (y0 + j) * stride) by (nonlinear_arith)
                                    requires
                                        idx / stride == y0 + j,
                                ;
                                assert(idx == idx0);
                            }
                        }
                    }
                    assert(plane.data@ =~= with_pcm_prefix(p0, stride, width, height, x0 as int, y0 as int, nw as int, nh as int, data, base, bits as nat, shift, i + 1, j as int));
                }
            } else {
                proof {
                    assert forall|idx: int| 0 <= idx < p0.len() implies #[trigger] plane.data@[idx] == with_pcm_prefix(p0, stride, width, height, x0 as int, y0 as int, nw as int, nh as int, data, base, bits as nat, shift, i + 1, j as int)[idx] by {
                        if stride > 0 {
                            vstd::arithmetic::div_mod::lemma_fundamental_div_mod(idx, stride);
                        }
                    }
                    assert(plane.data@ =~= with_pcm_prefix(p0, stride, width, height, x0 as int, y0 as int, nw as int, nh as int, data, base, bits as nat, shift, i + 1, j as int));
                }
            }
            proof {
                assert(base + (j * nw + i) * bits + bits == base + (j * nw + i + 1) * bits) by (nonlinear_arith);
            }
            i += 1;
        }
        proof {
            assert(with_pcm_prefix(p0, stride, width, height, x0 as int, y0 as int, nw as int, nh as int, data, base, bits as nat, shift, nw as int, j as int) =~= with_pcm_prefix(p0, stride, width, height, x0 as int, y0 as int, nw as int, nh as int, data, base, bits as nat, shift, 0, j + 1));
            assert((j * nw + nw) * bits == (j + 1) * nw * bits) by (nonlinear_arith);
        }
        j += 1;
    }
    proof {
        assert(nh * nw * bits == nw * nh * bits) by (nonlinear_arith);
        assert(with_pcm_prefix(p0, stride, width, height, x0 as int, y0 as int, nw as int, nh as int, data, base, bits as nat, shift, 0, nh as int) =~= with_pcm_block(p0, stride, width, height, x0 as int, y0 as int, nw as int, nh as int, data, base, bits as nat, shift));
    }
    Ok(())
}

/// Bits to the next byte boundary at or after bit `pos`.
pub open spec fn byte_aligned(pos: int) -> int {
    (pos + 7) / 8 * 8
}

/// Parses `pcm_sample()` of a coding unit `size` wide at luma (`x0`,
/// `y0`) (clause 7.3.8.7): from the next byte boundary, the luma samples of
/// `PcmBitDepthY` bits, then, when the picture has chroma, the Cb and then
/// the Cr samples of `PcmBitDepthC` bits, each in raster order and shifted
/// up to the picture's bit depth; then the arithmetic decoder restarts.
pub fn read_pcm(cab: &mut Cabac, pic: &mut Picture, sps: &Sps, cat: u8, x0: usize, y0: usize, size: usize) -> (r: Result<()>)
    requires
        old(cab).wf(),
        old(pic).wf(),
        sps.pcm_bit_depth_y <= sps.bit_depth_y < sps.pcm_bit_depth_y + 16,
        sps.pcm_bit_depth_y <= 32,
        cat != 0 ==> sps.pcm_bit_depth_c <= sps.bit_depth_c < sps.pcm_bit_depth_c + 16,
        cat != 0 ==> sps.pcm_bit_depth_c <= 32,
        cat != 0 ==> sps.sub_w > 0 && sps.sub_h > 0,
        x0 + size <= usize::MAX,
        y0 + size <= usize::MAX,
        size <= 0x1000,
    ensures
        final(cab).same_stream(old(cab)),
        final(cab).spec_ctx() == old(cab).spec_ctx(),
        final(pic).y.stride == old(pic).y.stride && final(pic).y.width == old(pic).y.width && final(pic).y.height
            == old(pic).y.height,
        final(pic).cb.stride == old(pic).cb.stride && final(pic).cb.width == old(pic).cb.width
            && final(pic).cb.height == old(pic).cb.height,
        final(pic).cr.stride == old(pic).cr.stride && final(pic).cr.width == old(pic).cr.width
            && final(pic).cr.height == old(pic).cr.height,
        final(pic).min4_w == old(pic).min4_w && final(pic).min4_h == old(pic).min4_h,
        final(pic).intra_mode == old(pic).intra_mode && final(pic).qp_y == old(pic).qp_y,
        final(pic).cu_flags == old(pic).cu_flags && final(pic).ct_depth == old(pic).ct_depth,
        final(pic).min8_w == old(pic).min8_w && final(pic).min8_h == old(pic).min8_h,
        final(pic).edges == old(pic).edges,
        ({
            let data = old(cab).spec_data();
            let p = byte_aligned(old(cab).spec_pos());
            let by = sps.pcm_bit_depth_y as int;
            let bc = sps.pcm_bit_depth_c as int;
            let (cw, ch) = if cat != 0 {
                ((size / sps.sub_w) as int, (size / sps.sub_h) as int)
            } else {
                (0int, 0int)
            };
            let pc = p + size * size * by;
            let end = pc + 2 * cw * ch * bc;
            let q = byte_aligned(end);
            &&& r is Ok <==> end <= read_limit(data) && q + 9 <= read_limit(data) && stream_value(data, q, 9) < 510
            &&& r matches Err(e) ==> e is Truncated || e == Error::InvalidData("CABAC ivlOffset is 510 or 511")
            &&& r is Ok ==> {
                &&& final(cab).engine_ok()
                &&& final(cab).spec_range() == 510
                &&& final(cab).spec_offset() == stream_value(data, q, 9)
                &&& final(cab).spec_pos() == q + 9
                &&& final(pic).y.data@ == with_pcm_block(
                    old(pic).y.data@,
                    old(pic).y.stride as int,
                    old(pic).y.width as int,
                    old(pic).y.height as int,
                    x0 as int,
                    y0 as int,
                    size as int,
                    size as int,
                    data,
                    p,
                    by as nat,
                    (sps.bit_depth_y - sps.pcm_bit_depth_y) as u8,
                )
                &&& cat == 0 ==> final(pic).cb.data@ == old(pic).cb.data@ && final(pic).cr.data@ == old(pic).cr.data@
                &&& cat != 0 ==> final(pic).cb.data@ == with_pcm_block(
                    old(pic).cb.data@,
                    old(pic).cb.stride as int,
                    old(pic).cb.width as int,
                    old(pic).cb.height as int,
                    (x0 / sps.sub_w) as int,
                    (y0 / sps.sub_h) as int,
                    cw,
                    ch,
                    data,
                    pc,
                    bc as nat,
                    (sps.bit_depth_c - sps.pcm_bit_depth_c) as u8,
                )
                &&& cat != 0 ==> final(pic).cr.data@ == with_pcm_block(
                    old(pic).cr.data@,
                    old(pic).cr.stride as int,
                    old(pic).cr.width as int,
                    old(pic).cr.height as int,
                    (x0 / sps.sub_w) as int,
                    (y0 / sps.sub_h) as int,
                    cw,
                    ch,
                    data,
                    pc + cw * ch * bc,
                    bc as nat,
                    (sps.bit_depth_c - sps.pcm_bit_depth_c) as u8,
                )
            }
        }),
{
    let ghost data = cab.spec_data();
    let ghost p = byte_aligned(cab.spec_pos());
    let ghost (cw_s, ch_s) = if cat != 0 {
        ((size / sps.sub_w) as int, (size / sps.sub_h) as int)
    } else {
        (0int, 0int)
    };
    let ghost end = p + size * size * sps.pcm_bit_depth_y + 2 * cw_s * ch_s * sps.pcm_bit_depth_c;
    cab.align_after_terminate();
    let shift_y = sps.bit_depth_y - sps.pcm_bit_depth_y;
    let bits_y = sps.pcm_bit_depth_y as u32;
    proof {
        assert(size * size * bits_y <= 0x1000 * 0x1000 * 32) by (nonlinear_arith)
            requires
                size <= 0x1000,
                bits_y <= 32,
        ;
    }
    match pcm_block(cab, &mut pic.y, x0, y0, size, size, bits_y, shift_y) {
        Ok(()) => {},
        Err(e) => {
            return Err(e);
        },
    }
    if cat != 0 {
        let (sw, sh) = (sps.sub_w, sps.sub_h);
        let (cw, ch) = (size / sw, size / sh);
        let shift_c = sps.bit_depth_c - sps.pcm_bit_depth_c;
        let bits_c = sps.pcm_bit_depth_c as u32;
        proof {
            assert(cw * ch * bits_c <= 0x1000 * 0x1000 * 32) by (nonlinear_arith)
                requires
                    cw <= 0x1000,
                    ch <= 0x1000,
                    bits_c <= 32,
            ;
        }
        let (px, py) = (x0 / sw, y0 / sh);
        match pcm_block(cab, &mut pic.cb, px, py, cw, ch, bits_c, shift_c) {
            Ok(()) => {},
            Err(e) => {
                proof {
                    assert(2 * cw * ch * bits_c == cw * ch * bits_c + cw * ch * bits_c) by (nonlinear_arith);
                }
                return Err(e);
            },
        }
        match pcm_block(cab, &mut pic.cr, px, py, cw, ch, bits_c, shift_c) {
            Ok(()) => {},
            Err(e) => {
                proof {
                    assert(2 * cw * ch * bits_c == cw * ch * bits_c + cw * ch * bits_c) by (nonlinear_arith);
                }
                return Err(e);
            },
        }
        proof {
            assert(2 * cw * ch * bits_c == cw * ch * bits_c + cw * ch * bits_c) by (nonlinear_arith);
            assert(cw == cw_s && ch == ch_s);
        }
    }
    proof {
        assert(2 * cw_s * ch_s * sps.pcm_bit_depth_c >= 0) by (nonlinear_arith)
            requires
                cw_s >= 0,
                ch_s >= 0,
        ;
        if cat == 0 {
            assert(cw_s == 0);
            assert(2 * cw_s * ch_s * sps.pcm_bit_depth_c == 0) by (nonlinear_arith)
                requires
                    cw_s == 0,
            ;
        }
        assert(cab.spec_pos() == end);
    }
    cab.init_engine()
}


/// `split_cu_flag` when it is not read (clause 7.4.9.4): `None` when the
/// coding block fits inside the picture and is above the minimum size, so
/// the flag is in the stream, else `Some` of the inferred value, which is 1
/// exactly when the block is above the minimum size.
pub fn split_cu_inferred(fits: bool, log2_size: u8, log2_min_cb: u8) -> (r: Option<bool>)
    ensures
        r is None <==> fits && log2_size > log2_min_cb,
        r matches Some(v) ==> v == (log2_size > log2_min_cb),
{
    if fits && log2_size > log2_min_cb {
        None
    } else {
        Some(log2_size > log2_min_cb)
    }
}

/// `ctxInc` of `split_cu_flag` (clause 9.3.4.2.2): one for each of the left
/// and above neighbours that is available and lies at a greater coding
/// tree depth.
pub fn split_cu_ctx_inc(left_available: bool, left_depth: u8, above_available: bool, above_depth: u8, depth: u8) -> (r: usize)
    ensures
        r == (if left_available && left_depth > depth { 1int } else { 0int }) + (if above_available && above_depth
            > depth { 1int } else { 0int }),
{
    let mut inc: usize = 0;
    if left_available && left_depth > depth {
        inc += 1;
    }
    if above_available && above_depth > depth {
        inc += 1;
    }
    inc
}

} // verus!
