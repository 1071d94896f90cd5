//! A sparse Merkle tree over 256-bit keys, with membership proofs and their
//! export to the ICS-23 existence-proof format.

pub mod hash;
pub mod laws;
pub mod merkle_proof;
pub mod path;
pub mod proof_ics23;
pub mod sha256;
pub mod tree;

pub use hash::H256;
pub use proof_ics23::{convert, get_spec};
pub use sha256::Sha256Hasher;
pub use tree::{compute_default_tree, SparseMerkleTree, TreeCache};
