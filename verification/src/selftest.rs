//! Checks of the engine against itself.
pub mod bench;
pub mod kernels;
pub mod lm;
pub mod mock;
pub mod tensor_map;
