//! Multi-pattern search of fixed-length binary needles in binary haystacks,
//! through bit-packed rolling fingerprints and an open-addressing table.

pub mod fingerprint;
pub mod table;
pub mod scan;
pub mod emit;
pub mod reader;
pub mod batch;
