//! Picture and slice data decoding pieces: choosing a picture's slices,
//! tile geometry and substreams, the syntax elements of the coding tree
//! (SAO, intra modes, QP, residual coding, PCM, split flags), reference
//! sample substitution, and the conformance window crop.

pub mod crop;
pub mod ctu;
pub mod geom;
pub mod mode;
pub mod refs;
pub mod residual;
pub mod residual_ctx;
pub mod residual_levels;
pub mod sao_syn;
pub mod state;
pub mod substreams;
pub mod tu;
pub mod units;
