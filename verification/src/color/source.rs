//! Where a conversion reads its rows from: one decoded frame, or a grid's
//! tiles.
//!
//! The conversion asks for "luma row `y`" and "chroma rows `r0` and `r1`"
//! and nothing else, so a grid never has to be composed onto a canvas for
//! the colour pass: its rows are assembled into a scratch buffer as they are
//! needed, from the tiles that hold them. A frame answers the same questions
//! with slices of its planes and uses no scratch at all.

use vstd::prelude::*;

use crate::grid::Mosaic;
use crate::grid::mosaic::PlaneKind;
use crate::hevc::{ChromaFormat, Frame};

verus! {

/// The planes a conversion reads.
#[derive(Debug, Clone, Copy)]
pub enum Source<'a> {
    /// One decoded picture.
    Frame(&'a Frame),
    /// The tiles of a grid, read in place.
    Mosaic(&'a Mosaic<'a>),
}

impl Source<'_> {
    /// A mosaic source still satisfies the checks that built it.
    pub open spec fn wf(&self) -> bool {
        match self {
            Source::Frame(_) => true,
            Source::Mosaic(m) => m.wf(),
        }
    }

    /// Width in luma samples.
    pub open spec fn spec_width(&self) -> u32 {
        match self {
            Source::Frame(f) => f.width,
            Source::Mosaic(m) => m.spec_grid().output_width,
        }
    }

    /// Height in luma samples.
    pub open spec fn spec_height(&self) -> u32 {
        match self {
            Source::Frame(f) => f.height,
            Source::Mosaic(m) => m.spec_grid().output_height,
        }
    }

    /// Chroma sampling.
    pub open spec fn spec_chroma(&self) -> ChromaFormat {
        match self {
            Source::Frame(f) => f.chroma,
            Source::Mosaic(m) => m.spec_tiles()[0].chroma,
        }
    }

    /// Width of one chroma row.
    pub open spec fn spec_chroma_width(&self) -> u32 {
        self.spec_chroma().spec_chroma_size(self.spec_width(), self.spec_height()).0
    }

    /// Width in luma samples.
    pub fn width(&self) -> (r: u32)
        ensures
            r == self.spec_width(),
    {
        match self {
            Source::Frame(f) => f.width,
            Source::Mosaic(m) => m.width(),
        }
    }

    /// Height in luma samples.
    pub fn height(&self) -> (r: u32)
        ensures
            r == self.spec_height(),
    {
        match self {
            Source::Frame(f) => f.height,
            Source::Mosaic(m) => m.height(),
        }
    }

    /// Chroma sampling.
    pub fn chroma(&self) -> (r: ChromaFormat)
        requires
            self.wf(),
        ensures
            r == self.spec_chroma(),
    {
        match self {
            Source::Frame(f) => f.chroma,
            Source::Mosaic(m) => m.chroma(),
        }
    }

    /// Sample bit depth.
    pub fn bit_depth(&self) -> (r: u8)
        requires
            self.wf(),
        ensures
            r == match self {
                Source::Frame(f) => f.bit_depth,
                Source::Mosaic(m) => m.spec_tiles()[0].bit_depth,
            },
    {
        match self {
            Source::Frame(f) => f.bit_depth,
            Source::Mosaic(m) => m.bit_depth(),
        }
    }

    /// Width of one chroma row.
    fn chroma_width(&self) -> (r: usize)
        requires
            self.wf(),
        ensures
            r == self.spec_chroma_width(),
    {
        self.chroma().chroma_size(self.width(), self.height()).0 as usize
    }

    /// Scratch samples a conversion needs to assemble rows: none for a
    /// frame; one luma row and four chroma rows for a mosaic.
    pub fn stitch_len(&self) -> (r: usize)
        requires
            self.wf(),
            self.spec_width() + 4 * self.spec_chroma_width() <= usize::MAX,
        ensures
            r == match self {
                Source::Frame(_) => 0,
                Source::Mosaic(_) => self.spec_width() + 4 * self.spec_chroma_width(),
            },
    {
        match self {
            Source::Frame(_) => 0,
            Source::Mosaic(_) => self.width() as usize + 4 * self.chroma_width(),
        }
    }

    /// Luma row `y`, assembled into `buf` when the source is a mosaic.
    ///
    /// A frame answers with the `width` samples that start row `y` of its
    /// luma plane, or `None` when the plane is too short; a mosaic copies the
    /// row into the first `width` samples of `buf`, and answers `None` when
    /// `buf` is shorter than that or the row does not exist.
    pub fn luma<'b>(&'b self, y: usize, buf: &'b mut [u16]) -> (r: Option<&'b [u16]>)
        requires
            self.wf(),
            self matches Source::Frame(f) ==> (y * f.y_stride <= usize::MAX ==> y * f.y_stride + f.width
                <= usize::MAX),
        ensures
            match self {
                Source::Frame(f) => {
                    let start = y * f.y_stride;
                    &&& r is Some <==> start + f.width <= f.y@.len()
                    &&& r matches Some(s) ==> s@ == f.y@.subrange(start, start + f.width)
                    &&& final(buf)@ == old(buf)@
                },
                Source::Mosaic(m) => {
                    let w = m.spec_grid().output_width as int;
                    &&& r is Some <==> w <= old(buf)@.len() && y < m.spec_grid().output_height
                    &&& r matches Some(s) ==> m.row_written(
                        PlaneKind::Luma,
                        y as int,
                        old(buf)@.subrange(0, w),
                        s@,
                    )
                },
            },
    {
        match self {
            Source::Frame(f) => {
                let (w, stride) = (f.width as usize, f.y_stride as usize);
                let len = f.y.len();
                let start = match y.checked_mul(stride) {
                    Some(s) => s,
                    None => return None,
                };
                if start + w > len {
                    return None;
                }
                Some(vstd::slice::slice_subrange(f.y.as_slice(), start, start + w))
            },
            Source::Mosaic(m) => {
                let w = m.width() as usize;
                if w > buf.len() {
                    return None;
                }
                let (row, _rest) = buf.split_at_mut(w);
                match m.luma_row(y, row) {
                    Some(()) => {},
                    None => return None,
                }
                let out: &[u16] = row;
                Some(out)
            },
        }
    }

    /// Chroma rows `r0` and `r1` of both planes, in the order Cb `r0`, Cb
    /// `r1`, Cr `r0`, Cr `r1`, assembled into `buf` when the source is a
    /// mosaic.
    ///
    /// A frame answers with slices of its planes, or `None` when a plane is
    /// too short; a mosaic fills four chroma-width runs at the start of
    /// `buf`, and answers `None` when `buf` is shorter than that or a row
    /// does not exist.
    pub fn chroma_rows<'b>(&'b self, r0: usize, r1: usize, buf: &'b mut [u16]) -> (r: Option<[&'b [u16]; 4]>)
        requires
            self.wf(),
            self matches Source::Frame(f) ==> {
                let cw = self.spec_chroma_width();
                &&& r0 * f.c_stride <= usize::MAX ==> r0 * f.c_stride + cw <= usize::MAX
                &&& r1 * f.c_stride <= usize::MAX ==> r1 * f.c_stride + cw <= usize::MAX
            },
        ensures
            match self {
                Source::Frame(f) => {
                    let cw = self.spec_chroma_width() as int;
                    let (o0, o1) = (r0 * f.c_stride, r1 * f.c_stride);
                    &&& r is Some <==> {
                        &&& o0 + cw <= f.cb@.len() && o1 + cw <= f.cb@.len()
                        &&& o0 + cw <= f.cr@.len() && o1 + cw <= f.cr@.len()
                    }
                    &&& r matches Some(rows) ==> {
                        &&& rows[0]@ == f.cb@.subrange(o0, o0 + cw)
                        &&& rows[1]@ == f.cb@.subrange(o1, o1 + cw)
                        &&& rows[2]@ == f.cr@.subrange(o0, o0 + cw)
                        &&& rows[3]@ == f.cr@.subrange(o1, o1 + cw)
                    }
                    &&& final(buf)@ == old(buf)@
                },
                Source::Mosaic(m) => {
                    let cw = self.spec_chroma_width() as int;
                    let t0 = m.spec_tiles()[0];
                    let (tcw, tch) = t0.chroma.spec_chroma_size(t0.width, t0.height);
                    let rows = t0.chroma.spec_chroma_size(
                        m.spec_grid().output_width,
                        m.spec_grid().output_height,
                    ).1;
                    &&& r is Some <==> 4 * cw <= old(buf)@.len() && r0 < rows && r1 < rows && tcw > 0
                        && tch > 0
                    &&& r matches Some(out) ==> {
                        &&& m.row_written(PlaneKind::Cb, r0 as int, old(buf)@.subrange(0, cw), out[0]@)
                        &&& m.row_written(PlaneKind::Cb, r1 as int, old(buf)@.subrange(cw, 2 * cw), out[1]@)
                        &&& m.row_written(PlaneKind::Cr, r0 as int, old(buf)@.subrange(2 * cw, 3 * cw), out[2]@)
                        &&& m.row_written(PlaneKind::Cr, r1 as int, old(buf)@.subrange(3 * cw, 4 * cw), out[3]@)
                    }
                },
            },
    {
        let cw = self.chroma_width();
        match self {
            Source::Frame(f) => {
                let stride = f.c_stride as usize;
                let (cb_len, cr_len) = (f.cb.len(), f.cr.len());
                let o0 = match r0.checked_mul(stride) {
                    Some(o) => o,
                    None => return None,
                };
                let o1 = match r1.checked_mul(stride) {
                    Some(o) => o,
                    None => return None,
                };
                if o0 + cw > cb_len || o1 + cw > cb_len || o0 + cw > cr_len || o1 + cw > cr_len {
                    return None;
                }
                Some(
                    [
                        vstd::slice::slice_subrange(f.cb.as_slice(), o0, o0 + cw),
                        vstd::slice::slice_subrange(f.cb.as_slice(), o1, o1 + cw),
                        vstd::slice::slice_subrange(f.cr.as_slice(), o0, o0 + cw),
                        vstd::slice::slice_subrange(f.cr.as_slice(), o1, o1 + cw),
                    ],
                )
            },
            Source::Mosaic(m) => {
                if cw > buf.len() / 4 {
                    return None;
                }
                let ghost b0 = buf@;
                let (b0s, rest) = buf.split_at_mut(cw);
                let (b1s, rest) = rest.split_at_mut(cw);
                let (v0s, rest) = rest.split_at_mut(cw);
                let (v1s, _rest) = rest.split_at_mut(cw);
                proof {
                    assert(b0s@ == b0.subrange(0, cw as int));
                    assert(b1s@ == b0.subrange(cw as int, 2 * cw));
                    assert(v0s@ == b0.subrange(2 * cw, 3 * cw));
                    assert(v1s@ == b0.subrange(3 * cw, 4 * cw));
                }
                match m.chroma_row(false, r0, b0s) {
                    Some(()) => {},
                    None => return None,
                }
                match m.chroma_row(false, r1, b1s) {
                    Some(()) => {},
                    None => return None,
                }
                match m.chroma_row(true, r0, v0s) {
                    Some(()) => {},
                    None => return None,
                }
                match m.chroma_row(true, r1, v1s) {
                    Some(()) => {},
                    None => return None,
                }
                let (c0, c1, c2, c3): (&[u16], &[u16], &[u16], &[u16]) = (b0s, b1s, v0s, v1s);
                Some([c0, c1, c2, c3])
            },
        }
    }
}

} // verus!
