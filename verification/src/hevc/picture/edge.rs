//! Edge flags stored per 8x8 luma grid cell for the deblocking filter.

use vstd::prelude::*;

verus! {

/// A transform or prediction boundary runs along the cell's left side.
pub const VER: u8 = 1;

/// A transform or prediction boundary runs along the cell's top side.
pub const HOR: u8 = 2;

} // verus!
