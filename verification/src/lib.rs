//! Fixed-width bit packing for blocks of 128 unsigned 32-bit integers.
//!
//! A block is packed at a uniform width `num_bits` in `[0, 32]` into exactly
//! `16 * num_bits` bytes, optionally after a delta transform for sorted data.
//! The byte layout interleaves the block over four parallel lanes so that a
//! four-lane SIMD kernel and a scalar kernel emit identical bytes; the layout
//! is pinned down by the spec functions in [`layout`].

pub mod delta;
pub mod facade;
pub mod estimate;
pub mod lanes;
pub mod laws;
pub mod pack;
pub mod unpack;

pub use facade::BitPacker4x;
pub mod layout;
