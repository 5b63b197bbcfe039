//! Encoding support: destinations for encoded bytes.

pub mod write;
