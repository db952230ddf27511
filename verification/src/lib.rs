//! Building blocks of a HEIC/HEIF still-image decoder, each with a
//! machine-checked contract: ISO-BMFF box and `ftyp`/`grid` parsing, HEVC
//! NAL unit and bit reading, the CABAC decoder (and an encoder for tests),
//! the tile and scan geometry, the coding-tree syntax elements (SAO, intra
//! modes, QP, residual coding, PCM), intra prediction, the deblocking and
//! SAO filters, and the integer steps of the colour conversion.
#![allow(unused_imports)]

pub mod boxes;
pub mod color;
pub mod error;
pub mod ftyp;
pub mod grid;
pub mod hevc;
pub mod reader;
