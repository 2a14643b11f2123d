//! An unstable radix sorting library for fixed-width byte-addressable keys.
//!
//! Elements are sorted by a key of `LEVELS` bytes, read from the most
//! significant byte (level 0) to the least significant byte
//! (level `LEVELS - 1`) through the [`RadixKey`] trait. The sort is driven by
//! a recursive director that counts bytes, consults a tuner for the algorithm
//! best suited to the bucket at hand, partitions, and recurses.

pub mod radix_key;
pub mod radix_key_impl;
pub mod scatter;
pub mod sort_utils;
pub mod sorts;
pub mod tuner;
pub mod director;
pub mod laws;
pub mod plateaus;

pub use radix_key::RadixKey;
pub use director::RadixSort;
