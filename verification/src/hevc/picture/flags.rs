//! Bit flags stored per minimum transform block (4x4 luma samples).

use vstd::prelude::*;

verus! {

/// `cu_transquant_bypass_flag` is set for the covering coding unit.
pub const TQ_BYPASS: u8 = 1;

/// `pcm_flag` is set for the covering coding unit.
pub const PCM: u8 = 2;

} // verus!
