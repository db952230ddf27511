//! What a decoded picture looks like once it leaves the codec.

use vstd::prelude::*;

use crate::error::{Error, Result};

verus! {

/// How the chroma planes are sampled relative to luma.
#[derive(Debug, Clone, Copy, PartialEq, Eq, Structural, Default)]
pub enum ChromaFormat {
    /// No chroma planes at all.
    Monochrome,
    /// Chroma at half resolution in both directions.
    #[default]
    Yuv420,
    /// Chroma at half resolution horizontally only.
    Yuv422,
    /// Chroma at full resolution.
    Yuv444,
}

impl ChromaFormat {
    /// The `chroma_format_idc` that names this sampling.
    pub open spec fn idc(self) -> u8 {
        match self {
            ChromaFormat::Monochrome => 0,
            ChromaFormat::Yuv420 => 1,
            ChromaFormat::Yuv422 => 2,
            ChromaFormat::Yuv444 => 3,
        }
    }

    /// Horizontal chroma shift.
    pub open spec fn spec_x_shift(self) -> u32 {
        match self {
            ChromaFormat::Yuv420 | ChromaFormat::Yuv422 => 1,
            _ => 0,
        }
    }

    /// Vertical chroma shift.
    pub open spec fn spec_y_shift(self) -> u32 {
        match self {
            ChromaFormat::Yuv420 => 1,
            _ => 0,
        }
    }

    /// Chroma plane size for a picture of the given luma size.
    pub open spec fn spec_chroma_size(self, width: u32, height: u32) -> (u32, u32) {
        if self == ChromaFormat::Monochrome {
            (0, 0)
        } else {
            (ceil_shift(width, self.spec_x_shift()), ceil_shift(height, self.spec_y_shift()))
        }
    }

    /// Map an HEVC `chroma_format_idc` onto this enum.
    pub fn from_idc(idc: u8) -> (r: Option<ChromaFormat>)
        ensures
            idc <= 3 ==> r == Some(
                if idc == 0 {
                    ChromaFormat::Monochrome
                } else if idc == 1 {
                    ChromaFormat::Yuv420
                } else if idc == 2 {
                    ChromaFormat::Yuv422
                } else {
                    ChromaFormat::Yuv444
                },
            ),
            idc > 3 ==> r is None,
            r matches Some(c) ==> c.idc() == idc,
    {
        match idc {
            0 => Some(ChromaFormat::Monochrome),
            1 => Some(ChromaFormat::Yuv420),
            2 => Some(ChromaFormat::Yuv422),
            3 => Some(ChromaFormat::Yuv444),
            _ => None,
        }
    }

    /// How much to shift a luma x coordinate to reach the chroma plane.
    pub fn x_shift(self) -> (r: u32)
        ensures
            r == self.spec_x_shift(),
    {
        match self {
            ChromaFormat::Yuv420 | ChromaFormat::Yuv422 => 1,
            _ => 0,
        }
    }

    /// How much to shift a luma y coordinate to reach the chroma plane.
    pub fn y_shift(self) -> (r: u32)
        ensures
            r == self.spec_y_shift(),
    {
        match self {
            ChromaFormat::Yuv420 => 1,
            _ => 0,
        }
    }

    /// The size of a chroma plane for a picture of the given luma size.
    pub fn chroma_size(self, width: u32, height: u32) -> (r: (u32, u32))
        ensures
            r == self.spec_chroma_size(width, height),
    {
        if self == ChromaFormat::Monochrome {
            return (0, 0);
        }
        (div_ceil_shift(width, self.x_shift()), div_ceil_shift(height, self.y_shift()))
    }
}

/// `ceil(v / 2^s)` for a shift of 0 or 1.
pub open spec fn ceil_shift(v: u32, s: u32) -> u32 {
    if s == 0 {
        v
    } else {
        ((v as int + 1) / 2) as u32
    }
}

/// `v.div_ceil(1 << s)` for the shifts chroma sampling uses.
fn div_ceil_shift(v: u32, s: u32) -> (r: u32)
    requires
        s <= 1,
    ensures
        r == ceil_shift(v, s),
{
    if s == 0 {
        v
    } else {
        v / 2 + v % 2
    }
}

/// One decoded picture, in planar YCbCr, one sample per `u16` regardless of
/// bit depth so that 8-bit and 10-bit content share a representation.
#[derive(Debug, Clone, Default)]
pub struct Frame {
    /// Luma width in samples.
    pub width: u32,
    /// Luma height in samples.
    pub height: u32,
    /// Bits actually used in each sample, 8 through 16.
    pub bit_depth: u8,
    /// Chroma sampling.
    pub chroma: ChromaFormat,
    /// Luma plane, `y_stride` samples per row.
    pub y: Vec<u16>,
    /// Cb plane, `c_stride` samples per row. Empty when monochrome.
    pub cb: Vec<u16>,
    /// Cr plane, `c_stride` samples per row. Empty when monochrome.
    pub cr: Vec<u16>,
    /// Samples per row of the luma plane, at least `width`.
    pub y_stride: u32,
    /// Samples per row of each chroma plane.
    pub c_stride: u32,
}

impl Frame {
    /// The planes are as large as the declared geometry needs.
    pub open spec fn valid(&self) -> bool {
        &&& self.width > 0
        &&& self.height > 0
        &&& self.y_stride >= self.width
        &&& self.y@.len() >= self.y_stride as int * self.height as int
        &&& self.chroma != ChromaFormat::Monochrome ==> {
            let (cw, ch) = self.chroma.spec_chroma_size(self.width, self.height);
            &&& self.c_stride >= cw
            &&& self.cb@.len() >= self.c_stride as int * ch as int
            &&& self.cr@.len() >= self.c_stride as int * ch as int
        }
    }

    /// Check that the planes are as large as the declared geometry needs.
    ///
    /// The compositor calls this on everything it is handed, so that a buggy
    /// or malicious decoder cannot make the rest of the crate index past the
    /// end of a plane.
    pub fn validate(&self) -> (r: Result<()>)
        ensures
            r is Ok <==> self.valid(),
            r matches Err(e) ==> e is Malformed,
    {
        if self.width == 0 || self.height == 0 {
            return Err(Error::Malformed("decoded frame has a zero dimension"));
        }
        if self.y_stride < self.width {
            return Err(Error::Malformed("luma stride is narrower than the frame"));
        }
        let need = (self.y_stride as usize).checked_mul(self.height as usize);
        match need {
            Some(n) => {
                if self.y.len() < n {
                    return Err(Error::Malformed("luma plane is shorter than its geometry"));
                }
            },
            None => {
                let _ = self.y.len();
                return Err(Error::Malformed("luma plane is shorter than its geometry"));
            },
        }
        if self.chroma == ChromaFormat::Monochrome {
            return Ok(());
        }
        let (cw, ch) = self.chroma.chroma_size(self.width, self.height);
        if self.c_stride < cw {
            return Err(Error::Malformed("chroma stride is narrower than the frame"));
        }
        let need = (self.c_stride as usize).checked_mul(ch as usize);
        match need {
            Some(n) => {
                if self.cb.len() < n || self.cr.len() < n {
                    return Err(Error::Malformed("chroma plane is shorter than its geometry"));
                }
            },
            None => {
                let _ = self.cb.len();
                return Err(Error::Malformed("chroma plane is shorter than its geometry"));
            },
        }
        Ok(())
    }
}

/// What a parameter set says about the pictures that follow it.
#[derive(Debug, Clone, Copy, PartialEq, Eq)]
pub struct Info {
    /// Luma width in samples.
    pub width: u32,
    /// Luma height in samples.
    pub height: u32,
    /// Luma bit depth.
    pub bit_depth: u8,
    /// Chroma sampling.
    pub chroma: ChromaFormat,
}

} // verus!
