//! The dense decoder family.
pub mod computes;
pub mod config;
pub mod device;
pub mod feed;
pub mod forecast;
pub mod graph;
pub mod lin;
pub mod loads;
pub mod schedule;
pub mod session;
