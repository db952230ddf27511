//! The decoder's own, narrower notion of failure.

use vstd::prelude::*;

verus! {

/// Every failure mode the decoder can report.
#[derive(Debug, Clone, Copy, PartialEq, Eq)]
pub enum Error {
    /// The bitstream ended in the middle of a syntax element.
    Truncated,
    /// A syntax element had a value the specification forbids.
    InvalidData(&'static str),
    /// Syntactically valid, but uses a tool this decoder does not implement.
    Unsupported(&'static str),
    /// A required parameter set was not supplied or referred to an unknown id.
    MissingParameterSet(&'static str),
    /// The picture dimensions would not fit in memory addressable by `usize`.
    TooLarge,
    /// No coded slice NAL units were supplied.
    NoSlices,
}

/// Shorthand used throughout the decoder.
pub type Result<T> = core::result::Result<T, Error>;

} // verus!
