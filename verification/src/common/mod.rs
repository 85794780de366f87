//! Shared types: identifiers, errors, bitfields and digests.

pub mod bitfield;
pub mod bits;
pub mod digest;
pub mod error;
pub mod text;
pub mod types;
