//! The verified core of a local inference engine.
//!
//! Floating point values are carried as IEEE-754 bit patterns and computed on
//! with integer arithmetic, so every result is pinned down to the last bit.

pub mod big;
pub mod decimal;
pub mod ieee;
pub mod json;
pub mod media;
pub mod models;
pub mod num;
pub mod quant;
pub mod rounding;
pub mod selftest;
pub mod settings;
pub mod tensor;
pub mod text;
pub mod tokenizer;
pub mod utf8;
pub mod weights;
