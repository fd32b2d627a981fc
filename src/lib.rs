//! Merkle tree roots and authentication paths over 32-byte Keccak-256 hashes.

pub mod error;
pub mod hash;
pub mod merkle_root;
pub mod merkle_proof;
