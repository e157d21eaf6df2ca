//! Keccak-256 (the pre-standard `0x01 .. 0x80` padding, not SHA3-256) computed by a
//! streaming byte-to-lane adapter over an in-process Keccak-f[1600] permutation.
pub mod hasher;
pub mod model;
pub mod permutation;

pub use hasher::{keccak256, keccak256check, u64_vec_to_u8_vec, u8_vec_to_u64_vec, KeccakHasher};
