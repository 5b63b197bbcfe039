//! Errors reported while encoding or decoding.

use vstd::prelude::*;

verus! {

/// Errors that can occur while encoding.
#[derive(Debug, Clone, Copy, PartialEq, Eq)]
pub enum EncodeError {
    /// The writer ran out of room, or a backpatch range lies outside what was written.
    UnexpectedEnd,
    /// Any other error, with a static description.
    Other(&'static str),
}

/// Errors that can occur while decoding.
#[derive(Debug, Clone, Copy, PartialEq, Eq)]
pub enum DecodeError {
    /// The input ended while `additional` more bytes were still needed.
    UnexpectedEnd { additional: usize },
    /// The decoder's byte allowance does not cover the value being decoded.
    LimitExceeded,
    /// Any other error, with a static description.
    Other(&'static str),
}

} // verus!
