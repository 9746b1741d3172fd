//! A binary hash tree over an ordered list of byte blocks, with membership
//! proofs that a verifier checks against the root digest alone.

pub mod digest;
pub mod laws;
pub mod levels;
pub mod merkle_node;
pub mod merkle_tree;

pub use merkle_node::MerkleNode;
pub use merkle_tree::{MerkleProof, MerkleTree};
