//! The gemma4 family.
pub mod attach;
pub mod audio;
pub mod clipping;
pub mod computes;
pub mod config;
pub mod conformer;
pub mod device;
pub mod encode;
pub mod ending;
pub mod feed;
pub mod framing;
pub mod graph;
pub mod hears;
pub mod identity;
pub mod image;
pub mod index;
pub mod loads;
pub mod plan;
pub mod pool;
pub mod prefill;
pub mod probe;
pub mod reads;
pub mod schedule;
pub mod sees;
pub mod slots;
pub mod subsample;
pub mod tower;
pub mod vision;
