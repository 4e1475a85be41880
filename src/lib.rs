//! A Merkle tree over 32-byte values, hashed with Keccak-256, with a root
//! commitment and sibling-hash inclusion proofs.

pub mod hashing;
pub mod merkle;

pub use hashing::{hash_pair, keccak256};
pub use merkle::{MerkleError, MerkleTree};
