//! The HEVC (ITU-T H.265) still-picture intra decoder's building blocks.

pub mod error;
pub mod bench_api;
pub mod bitmath;
pub mod bits;
pub mod cabac;
pub mod decode;
pub mod filter;
pub mod frame;
pub mod intra;
pub mod nal;
pub mod picture;
pub mod ps;
pub mod scan;

pub use frame::{ChromaFormat, Frame, Info};
