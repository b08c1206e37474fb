//! A fixed-retention, round-robin time-series store.
//!
//! A file holds a header followed by several archives. Each archive is a
//! circular buffer of points at one resolution; a write lands in the finest
//! archive and is rolled up into the coarser ones.
//!
//! Everything here works on plain byte buffers. Floating-point values are
//! carried as their IEEE-754 bit patterns, so that encoding and decoding
//! are exact.
pub mod codec;
pub mod errors;
pub mod fetch;
pub mod file;
pub mod laws;
pub mod planner;
pub mod stream;
pub mod types;
pub mod wire;
pub mod write;
