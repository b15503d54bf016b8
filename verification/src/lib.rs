//! Offset-indexed extraction of records from a block-compressed archive:
//! offset derivation, delimiter scanning, filtering, and order-preserving
//! aggregation, with the per-segment decompression done by an outside crate.

pub mod bytes;
pub mod decompress;
pub mod emit;
pub mod error;
pub mod filter;
pub mod offsets;
pub mod pipeline;
pub mod scanner;
