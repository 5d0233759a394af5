//! Model families: configuration, planning and scheduling.
use vstd::prelude::*;

pub mod capture;
pub mod checkpoint;
pub mod family;
pub mod gemma4;
pub mod generate;
pub mod layouts;
pub mod meaning;
pub mod ops;
pub mod prepare;
pub mod prompt;
pub mod residency;
pub mod sampler;
pub mod tempering;
pub mod towers;
pub mod transformer;

verus! {

/// Rows of the residual stream that are computed at once.
pub const CHUNK: usize = 512;

/// Candidates that device-side sampling hands back.
pub const SAMPLE_TOPK: usize = 64;

/// One in single precision.
pub const ONE: u32 = 0x3f80_0000;

} // verus!
