//! The conformance window: cutting the decoded picture down to the frame
//! the stream declares.

use vstd::prelude::*;

use crate::hevc::frame::{ChromaFormat, Frame};
use crate::hevc::picture::Picture;

verus! {

/// `total - (a + b)`, saturating at zero, and at least 1.
pub open spec fn window_len(total: int, a: int, b: int) -> int {
    if total - (a + b) >= 1 {
        total - (a + b)
    } else {
        1
    }
}

/// `n` samples of a window `w` wide cut out of a plane `stride` wide,
/// starting at row `top`, column `left`, row after row.
pub open spec fn window_rows(data: Seq<u16>, stride: int, top: int, left: int, w: int, n: nat) -> Seq<u16> {
    Seq::new(n, |k: int| data[(top + k / w) * stride + left + k % w])
}

/// The chroma window of a luma window `w` by `h`: `w / sub_w` by
/// `h / sub_h`, or nothing for a monochrome picture (`sub_w == 0`).
pub open spec fn chroma_window(w: int, h: int, sub_w: int, sub_h: int) -> (int, int) {
    if sub_w == 0 {
        (0, 0)
    } else {
        (w / sub_w, h / sub_h)
    }
}

/// Every row of a window `w` wide and `h` high, from row `top` and column
/// `left`, lies inside a plane of `len` samples and `stride` per row.
pub open spec fn rows_inside(len: int, stride: int, top: int, left: int, w: int, h: int) -> bool {
    h == 0 || (top + h - 1) * stride + left + w <= len
}

/// Copies `h` rows of `w` samples from `data`, starting at row `top` and
/// column `left` of a plane `stride` wide.
fn copy_window(data: &Vec<u16>, stride: usize, top: usize, left: usize, w: usize, h: usize) -> (out: Vec<u16>)
    requires
        w > 0 || h == 0,
        rows_inside(data@.len() as int, stride as int, top as int, left as int, w as int, h as int),
        top + h <= usize::MAX,
    ensures
        out@ == window_rows(data@, stride as int, top as int, left as int, w as int, (w * h) as nat),
{
    let mut out: Vec<u16> = Vec::new();
    let len: usize = data.len();
    let mut j: usize = 0;
    while j < h
        invariant
            len == data@.len(),
            j <= h,
            w > 0 || h == 0,
            top + h <= usize::MAX,
            rows_inside(data@.len() as int, stride as int, top as int, left as int, w as int, h as int),
            out@ == window_rows(data@, stride as int, top as int, left as int, w as int, (j * w) as nat),
        decreases h - j,
    {
        proof {
            assert((top + j) * stride + left + w <= (top + h - 1) * stride + left + w) by (nonlinear_arith)
                requires
                    j < h,
                    stride >= 0,
            ;
            assert(0 <= (top + j) * stride) by (nonlinear_arith)
                requires
                    stride >= 0,
            ;
            assert((top + j) * stride + left + w <= len);
        }
        let o: usize = (top + j) * stride + left;
        let mut i: usize = 0;
        while i < w
            invariant
                j < h,
                i <= w,
                w > 0,
                o == (top + j) * stride + left,
                o + w <= data@.len(),
                len == data@.len(),
                out@ == window_rows(data@, stride as int, top as int, left as int, w as int, (j * w + i) as nat),
            decreases w - i,
        {
            let v: u16 = data[o + i];
            let ghost before = out@;
            out.push(v);
            proof {
                let n = (j * w + i) as nat;
                assert(0 <= j * w) by (nonlinear_arith)
                    requires
                        w > 0,
                ;
                vstd::arithmetic::div_mod::lemma_fundamental_div_mod_converse(j * w + i, w as int, j as int, i as int);
                assert(out@ =~= window_rows(data@, stride as int, top as int, left as int, w as int, n + 1));
            }
            i += 1;
        }
        proof {
            assert(j * w + w == (j + 1) * w) by (nonlinear_arith);
        }
        j += 1;
    }
    proof {
        assert(h * w == w * h) by (nonlinear_arith);
    }
    out
}

/// Cuts picture `pic` of `width` by `height` luma samples to the
/// conformance window `win` (left, right, top, bottom offsets in luma
/// samples) and packs the planes into a [`Frame`] with strides equal to the
/// widths. The window is at least one sample each way; chroma is cut to
/// the window over `sub_w` and `sub_h`, from the luma offsets over the same
/// factors, both chroma planes read with the Cb stride, and is empty when
/// `sub_w` is 0. The chroma format comes from `chroma_array_type`, and is
/// monochrome when that is not a valid one.
pub fn crop(
    pic: &Picture,
    width: usize,
    height: usize,
    win: [usize; 4],
    bit_depth: u8,
    chroma_array_type: u8,
    sub_w: usize,
    sub_h: usize,
) -> (r: Frame)
    requires
        win[0] + win[1] <= usize::MAX,
        win[2] + win[3] <= usize::MAX,
        sub_w != 0 ==> sub_h != 0,
        ({
            let w = window_len(width as int, win[0] as int, win[1] as int);
            let h = window_len(height as int, win[2] as int, win[3] as int);
            let (cw, ch) = chroma_window(w, h, sub_w as int, sub_h as int);
            let (sw, sh) = if sub_w == 0 { (1int, 1int) } else { (sub_w as int, sub_h as int) };
            &&& win[2] + h <= usize::MAX
            &&& rows_inside(pic.y.data@.len() as int, pic.y.stride as int, win[2] as int, win[0] as int, w, h)
            &&& (win[2] as int) / sh + ch <= usize::MAX
            &&& rows_inside(pic.cb.data@.len() as int, pic.cb.stride as int, (win[2] as int) / sh, (win[0] as int) / sw, cw, ch)
            &&& rows_inside(pic.cr.data@.len() as int, pic.cb.stride as int, (win[2] as int) / sh, (win[0] as int) / sw, cw, ch)
        }),
    ensures
        ({
            let w = window_len(width as int, win[0] as int, win[1] as int);
            let h = window_len(height as int, win[2] as int, win[3] as int);
            let (cw, ch) = chroma_window(w, h, sub_w as int, sub_h as int);
            let (sw, sh) = if sub_w == 0 { (1int, 1int) } else { (sub_w as int, sub_h as int) };
            &&& r.width == w as u32
            &&& r.height == h as u32
            &&& r.bit_depth == bit_depth
            &&& r.chroma == (if chroma_array_type == 1 {
                ChromaFormat::Yuv420
            } else if chroma_array_type == 2 {
                ChromaFormat::Yuv422
            } else if chroma_array_type == 3 {
                ChromaFormat::Yuv444
            } else {
                ChromaFormat::Monochrome
            })
            &&& r.y_stride == w as u32
            &&& r.c_stride == cw as u32
            &&& r.y@ == window_rows(pic.y.data@, pic.y.stride as int, win[2] as int, win[0] as int, w, (w * h) as nat)
            &&& r.cb@ == window_rows(pic.cb.data@, pic.cb.stride as int, (win[2] as int) / sh, (win[0] as int) / sw, cw, (cw * ch) as nat)
            &&& r.cr@ == window_rows(pic.cr.data@, pic.cb.stride as int, (win[2] as int) / sh, (win[0] as int) / sw, cw, (cw * ch) as nat)
        }),
{
    let (l, rr, t, b) = (win[0], win[1], win[2], win[3]);
    let w: usize = if width >= l + rr && width - (l + rr) >= 1 {
        width - (l + rr)
    } else {
        1
    };
    let h: usize = if height >= t + b && height - (t + b) >= 1 {
        height - (t + b)
    } else {
        1
    };
    let (sw, sh) = if sub_w == 0 {
        (1, 1)
    } else {
        (sub_w, sub_h)
    };
    let (cw, ch) = if sub_w == 0 {
        (0, 0)
    } else {
        (w / sw, h / sh)
    };
    let y = copy_window(&pic.y.data, pic.y.stride, t, l, w, h);
    let (cb, cr) = if ch > 0 && cw == 0 {
        (Vec::new(), Vec::new())
    } else {
        (
            copy_window(&pic.cb.data, pic.cb.stride, t / sh, l / sw, cw, ch),
            copy_window(&pic.cr.data, pic.cb.stride, t / sh, l / sw, cw, ch),
        )
    };
    proof {
        if ch > 0 && cw == 0 {
            assert(cb@ =~= window_rows(pic.cb.data@, pic.cb.stride as int, (t / sh) as int, (l / sw) as int, cw as int, (cw * ch) as nat));
            assert(cr@ =~= window_rows(pic.cr.data@, pic.cb.stride as int, (t / sh) as int, (l / sw) as int, cw as int, (cw * ch) as nat));
        }
    }
    let chroma = match ChromaFormat::from_idc(chroma_array_type) {
        Some(c) => c,
        None => ChromaFormat::Monochrome,
    };
    Frame {
        width: w as u32,
        height: h as u32,
        bit_depth,
        chroma,
        y,
        cb,
        cr,
        y_stride: w as u32,
        c_stride: cw as u32,
    }
}

} // verus!
