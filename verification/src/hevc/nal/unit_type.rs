//! NAL unit types used by this decoder.

use vstd::prelude::*;

verus! {

/// Coded slice of a BLA picture with leading pictures.
pub const BLA_W_LP: u8 = 16;
/// Coded slice of an IDR picture with decodable leading pictures.
pub const IDR_W_RADL: u8 = 19;
/// Coded slice of an IDR picture without leading pictures.
pub const IDR_N_LP: u8 = 20;
/// Last reserved IRAP type.
pub const RSV_IRAP_VCL23: u8 = 23;
/// Video parameter set.
pub const VPS: u8 = 32;
/// Sequence parameter set.
pub const SPS: u8 = 33;
/// Picture parameter set.
pub const PPS: u8 = 34;

} // verus!
