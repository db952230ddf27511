//! Turning decoded YCbCr samples into pixels: where a conversion reads its
//! rows from, and the integer steps of the colour matrix.

pub mod chroma;
pub mod fixed;
pub mod kernel;
pub mod source;

use vstd::prelude::*;

use crate::error::{Error, Result};

verus! {

/// Refuse a sample depth the fixed-point coefficients are not defined for
/// (8 to 16 bits), rather than shifting past the width of the accumulator.
pub fn depth_ok(depth: u8) -> (r: Result<()>)
    ensures
        r is Ok <==> 8 <= depth <= 16,
        r matches Err(e) ==> e is Unsupported,
{
    if 8 <= depth && depth <= 16 {
        return Ok(());
    }
    Err(Error::Unsupported("sample bit depth is outside 8 to 16"))
}

} // verus!
