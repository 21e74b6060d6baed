//! A Merkle tree over fixed-size blocks of bytes, with inclusion proofs.

pub mod error;
pub mod hashing;
pub mod model;
pub mod node;
pub mod inclusion;
pub mod tree;

pub use error::MerkleError;
pub use hashing::hash;
pub use node::MerkleNode;
pub use inclusion::{Direction, MerkleProof};
pub use tree::MerkleTree;
