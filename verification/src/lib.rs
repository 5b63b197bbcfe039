//! A compact binary encoding toolkit: byte writers that support backpatching, and a
//! selective ULEB128 integer encoding that is independent of the enclosing configuration.

pub mod attribute;
pub mod enc;
pub mod error;
pub mod uleb128;

pub use uleb128::Uleb128;
mod scenarios;
