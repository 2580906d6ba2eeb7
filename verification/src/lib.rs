//! An associative container whose bucket selection runs through a pluggable,
//! deterministic hash algorithm: a strategy creates a fresh byte-accumulating
//! hasher per operation, the hasher finalizes to a fixed-width digest, and a
//! reducer turns the digest's leading bytes into a bucket index under a byte
//! order fixed at construction.

pub mod box_vec;
pub mod hashing;
pub mod reduce;
pub mod render;
pub mod table;
