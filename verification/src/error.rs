//! The crate's error type.
//!
//! It carries only `'static` strings and integers, so reporting a failure
//! never allocates.

use vstd::prelude::*;

verus! {

/// Everything that can go wrong while reading a HEIF file.
#[derive(Debug, Clone, PartialEq, Eq)]
#[non_exhaustive]
pub enum Error {
    /// The file ended in the middle of a structure that was still being read.
    Truncated(&'static str),
    /// A structure was present but its contents violate the format.
    Malformed(&'static str),
    /// The file is well formed but asks for something this build cannot do.
    Unsupported(&'static str),
    /// A box required to make sense of the file is absent.
    MissingBox(&'static str),
    /// An item id referenced from elsewhere does not exist.
    MissingItem(u32),
    /// A coded slice named a VPS, SPS or PPS the `hvcC` record did not carry.
    MissingParameterSet(&'static str),
    /// A `dimg` derivation chain refers back to itself.
    CyclicDerivation(u32),
    /// The declared image is larger than the caller's pixel ceiling.
    PixelLimit {
        /// Pixels the file asks for.
        pixels: u64,
        /// Pixels the caller allowed.
        max_pixels: u64,
    },
    /// A box declared a size that cannot be honoured on this machine.
    BoxTooLarge {
        /// The four-character box type.
        boxtype: [u8; 4],
        /// The size the box declared.
        size: u64,
    },
}

/// Shorthand for results carried through this crate.
pub type Result<T> = core::result::Result<T, Error>;

} // verus!
