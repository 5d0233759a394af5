//! Weight quantization codecs: how the bytes inside a tensor are encoded.
//!
//! [`gguf`] holds the ggml block formats, [`bnb`] the bitsandbytes 4-bit one.
pub mod bnb;
pub mod gguf;
pub mod packing;
