//! Inclusion proofs: the hashes beside the path from a leaf up to the root.

use crate::hashing::{combine, hash_pair};
use crate::model::{left_part, lemma_tree_height_bounds, merkle_root, pow2, right_part, subtree_root, tree_height};
use vstd::prelude::*;

verus! {

/// On which side of the path a sibling hash stands.
#[derive(Debug, Clone, Copy, PartialEq, Eq, Structural)]
pub enum Direction {
    Left,
    Right,
}

/// The sibling hashes along the path from the root down to a leaf, each with
/// the side it stands on; the first entry is the one just below the root.
#[derive(Debug)]
pub struct MerkleProof {
    pub(crate) path: Vec<(u64, Direction)>,
}

impl View for MerkleProof {
    type V = Seq<(u64, Direction)>;

    closed spec fn view(&self) -> Seq<(u64, Direction)> {
        self.path@
    }
}

/// The hash one level up from `below`, given the sibling hash beside it.
pub open spec fn step_up(sibling: u64, direction: Direction, below: u64) -> u64 {
    match direction {
        Direction::Left => combine(sibling, below),
        Direction::Right => combine(below, sibling),
    }
}

/// The hash that following `path` up from a leaf hashed `leaf` leads to.
pub open spec fn fold_path(path: Seq<(u64, Direction)>, leaf: u64) -> u64
    decreases path.len(),
{
    if path.len() == 0 {
        leaf
    } else {
        step_up(path[0].0, path[0].1, fold_path(path.skip(1), leaf))
    }
}

/// The proof for leaf `i` of a node of height `h` over `leaves`: at each level
/// the hash of the other child (of the same child again when the node has no
/// right child), from the top down.
pub open spec fn proof_path(leaves: Seq<u64>, h: nat, i: nat) -> Seq<(u64, Direction)>
    decreases h,
{
    if h == 0 {
        Seq::empty()
    } else if i < pow2((h - 1) as nat) {
        let sibling = if leaves.len() > pow2((h - 1) as nat) {
            subtree_root(right_part(leaves, h), (h - 1) as nat)
        } else {
            subtree_root(leaves, (h - 1) as nat)
        };
        seq![(sibling, Direction::Right)] + proof_path(left_part(leaves, h), (h - 1) as nat, i)
    } else {
        seq![(subtree_root(left_part(leaves, h), (h - 1) as nat), Direction::Left)] + proof_path(
            right_part(leaves, h),
            (h - 1) as nat,
            (i - pow2((h - 1) as nat)) as nat,
        )
    }
}

/// Following the proof for leaf `i` of a node up from that leaf's hash leads
/// to the node's hash.
pub proof fn lemma_subtree_path_folds(leaves: Seq<u64>, h: nat, i: nat)
    requires
        leaves.len() <= pow2(h),
        i < leaves.len(),
    ensures
        fold_path(proof_path(leaves, h, i), leaves[i as int]) == subtree_root(leaves, h),
    decreases h,
{
    if h > 0 {
        let hh = (h - 1) as nat;
        let half = pow2(hh);
        assert(pow2(h) == 2 * half);
        let path = proof_path(leaves, h, i);
        if i < half {
            let rest = proof_path(left_part(leaves, h), hh, i);
            assert(left_part(leaves, h)[i as int] == leaves[i as int]);
            lemma_subtree_path_folds(left_part(leaves, h), hh, i);
            assert(path.skip(1) =~= rest);
        } else {
            let j = (i - half) as nat;
            let rest = proof_path(right_part(leaves, h), hh, j);
            assert(right_part(leaves, h)[j as int] == leaves[i as int]);
            lemma_subtree_path_folds(right_part(leaves, h), hh, j);
            assert(path.skip(1) =~= rest);
        }
    }
}

/// The proof that a tree gives for any of its leaves leads, from that leaf's
/// hash, to the tree's root hash.
pub proof fn lemma_proof_leads_to_root(leaves: Seq<u64>, i: nat)
    requires
        i < leaves.len(),
    ensures
        fold_path(proof_path(leaves, tree_height(leaves.len()), i), leaves[i as int]) == merkle_root(
            leaves,
        ),
{
    lemma_tree_height_bounds(leaves.len());
    lemma_subtree_path_folds(leaves, tree_height(leaves.len()), i);
}

impl MerkleProof {
    /// The proof made of `path`.
    pub(crate) fn from_path(path: Vec<(u64, Direction)>) -> (proof: MerkleProof)
        ensures
            proof@ == path@,
    {
        MerkleProof { path }
    }

    /// Whether following the proof up from `leaf_hash` leads to `root_hash`.
    pub fn validate(&self, root_hash: u64, leaf_hash: u64) -> (valid: bool)
        ensures
            valid == (fold_path(self@, leaf_hash) == root_hash),
    {
        let mut actual = leaf_hash;
        let mut i = self.path.len();
        assert(self.path@.skip(i as int) =~= Seq::<(u64, Direction)>::empty());
        // hash following the path until it reaches the root
        while i > 0
            invariant
                i <= self.path@.len(),
                actual == fold_path(self.path@.skip(i as int), leaf_hash),
            decreases i,
        {
            i = i - 1;
            let (sibling_hash, direction) = self.path[i];
            actual = match direction {
                Direction::Left => hash_pair(sibling_hash, actual),
                Direction::Right => hash_pair(actual, sibling_hash),
            };
            assert(self.path@.skip(i as int).skip(1) =~= self.path@.skip(i + 1));
        }
        assert(self.path@.skip(0) =~= self.path@);
        actual == root_hash
    }
}

} // verus!
