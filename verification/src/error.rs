//! The ways in which building a tree or a proof is refused.

use vstd::prelude::*;

verus! {

/// Why a tree or a proof could not be made.
#[derive(Debug, PartialEq, Eq, Structural)]
pub enum MerkleError {
    /// A tree was asked for with blocks of 0 bytes.
    ZeroLeafSize,
    /// A tree was asked for over no data at all.
    EmptyTree,
    /// A proof was asked for a leaf that the tree does not have.
    InvalidLeafNumber,
}

} // verus!
