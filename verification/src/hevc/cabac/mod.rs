//! CABAC entropy decoding.

pub mod ctx;
pub mod encoder;
pub mod engine;
pub mod round_trip;
pub mod tables;

pub use ctx::{NUM_CTX, off};
pub use engine::{Cabac, initial_contexts};
