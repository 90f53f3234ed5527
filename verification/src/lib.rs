//! A minimal columnar file format: typed, nullable columns are encoded into a
//! self-describing byte string (dictionary + run-length encoding for strings,
//! delta encoding for unsigned integers, a trailing footer with offsets and
//! statistics, and a magic marker), and decoded back, with the round trip
//! proved exact.

pub mod bytes;
pub mod model;
pub mod codec;
pub mod page;
pub mod file;
