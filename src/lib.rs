//! A binary hash tree over an ordered list of byte strings: construction,
//! append with full rebuild, inclusion proofs and their verification.
pub mod hash;
pub mod tree;

pub use tree::MerkleTree;
