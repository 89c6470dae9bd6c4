//! A compressed time-series chunk codec: a bit-level stream writer/reader,
//! a variable-length integer codec layered on it, and a delta-of-delta /
//! XOR-window compression scheme that packs (timestamp, value) samples into
//! a compact byte buffer decodable by a forward-only iterator.
//!
//! Values travel through the codec as their raw 64-bit patterns; callers
//! that work with floating-point samples convert with `f64::to_bits` /
//! `f64::from_bits` at the boundary.
pub mod bitseq;
pub mod bstream;
pub mod xor;
