//! The nodes of a tree, and what it takes for a node to be the tree over its leaves.

use crate::hashing::{combine, hash_pair};
use crate::model::{left_part, pow2, right_part, subtree_root};
use vstd::prelude::*;

verus! {

/// A node: a leaf (no children) carries the hash of a block of data; an inner
/// node carries the hash of its children's hashes.
#[derive(Debug)]
pub struct MerkleNode {
    pub hash: u64,
    pub left: Option<Box<MerkleNode>>,
    pub right: Option<Box<MerkleNode>>,
}

/// The leaves under a row of nodes, left to right.
pub open spec fn flat_leaves(nodes: Seq<MerkleNode>) -> Seq<u64>
    decreases nodes.len(),
{
    if nodes.len() == 0 {
        Seq::empty()
    } else {
        flat_leaves(nodes.drop_last()) + nodes.last().leaves()
    }
}

/// Under a row of leaf nodes lie exactly their own hashes.
pub proof fn lemma_flat_leaves_of_leaf_nodes(nodes: Seq<MerkleNode>)
    requires
        forall|i: int| 0 <= i < nodes.len() ==> (#[trigger] nodes[i]).is_leaf_node(),
    ensures
        flat_leaves(nodes) =~= nodes.map_values(|n: MerkleNode| n.hash),
    decreases nodes.len(),
{
    if nodes.len() > 0 {
        let init = nodes.drop_last();
        assert forall|i: int| 0 <= i < init.len() implies (#[trigger] init[i]).is_leaf_node() by {
            assert(init[i] == nodes[i]);
        }
        lemma_flat_leaves_of_leaf_nodes(init);
        assert(nodes.last().is_leaf_node());
    }
}

/// Taking one more node of a row adds its leaves at the end.
pub proof fn lemma_flat_leaves_take(nodes: Seq<MerkleNode>, k: int)
    requires
        0 <= k < nodes.len(),
    ensures
        flat_leaves(nodes.take(k + 1)) == flat_leaves(nodes.take(k)) + nodes[k].leaves(),
{
    assert(nodes.take(k + 1).drop_last() =~= nodes.take(k));
}

/// Pushing a node onto a row adds its leaves at the end.
pub proof fn lemma_flat_leaves_push(nodes: Seq<MerkleNode>, node: MerkleNode)
    ensures
        flat_leaves(nodes.push(node)) == flat_leaves(nodes) + node.leaves(),
{
    assert(nodes.push(node).drop_last() =~= nodes);
}

impl MerkleNode {
    /// A node without children.
    pub open spec fn is_leaf_node(self) -> bool {
        self.left is None && self.right is None
    }

    /// The hashes of the leaves under this node, left to right.
    pub open spec fn leaves(self) -> Seq<u64>
        decreases self,
    {
        if self.left is None && self.right is None {
            seq![self.hash]
        } else {
            let l = match self.left {
                Some(n) => n.leaves(),
                None => Seq::empty(),
            };
            let r = match self.right {
                Some(n) => n.leaves(),
                None => Seq::empty(),
            };
            l + r
        }
    }

    /// The number of steps from this node down to a leaf, always going left.
    pub open spec fn left_height(self) -> nat
        decreases self,
    {
        match self.left {
            Some(n) => 1 + n.left_height(),
            None => 0,
        }
    }

    /// This node is the tree of height `h` over its leaves: every leaf lies `h`
    /// levels down, every inner node has a left child, a right child only when
    /// its left child is full, and the hash of its children's hashes (of its
    /// left child's hash twice when it has no right child).
    pub open spec fn wf(self, h: nat) -> bool
        decreases self,
    {
        if h == 0 {
            self.left is None && self.right is None
        } else {
            match self.left {
                None => false,
                Some(l) => {
                    &&& l.wf((h - 1) as nat)
                    &&& match self.right {
                        None => self.hash == combine(l.hash, l.hash),
                        Some(r) => {
                            &&& r.wf((h - 1) as nat)
                            &&& l.leaves().len() == pow2((h - 1) as nat)
                            &&& self.hash == combine(l.hash, r.hash)
                        },
                    }
                },
            }
        }
    }

    /// A node of height `h` holds between 1 and `2^h` leaves, splits them
    /// between its children as `left_part` and `right_part` say, and carries
    /// the hash that `subtree_root` gives them.
    pub proof fn lemma_wf(self, h: nat)
        requires
            self.wf(h),
        ensures
            self.left_height() == h,
            1 <= self.leaves().len() <= pow2(h),
            self.hash == subtree_root(self.leaves(), h),
            h > 0 ==> self.left is Some,
            h > 0 ==> (self.right is Some <==> self.leaves().len() > pow2((h - 1) as nat)),
            h > 0 ==> self.left->0.leaves() == left_part(self.leaves(), h),
            h > 0 && self.right is Some ==> self.right->0.leaves() == right_part(self.leaves(), h),
        decreases self,
    {
        if h > 0 {
            let l = *self.left->0;
            l.lemma_wf((h - 1) as nat);
            let hh = (h - 1) as nat;
            assert(pow2(h) == 2 * pow2(hh));
            match self.right {
                None => {
                    assert(self.leaves() =~= l.leaves());
                },
                Some(rb) => {
                    let r = *rb;
                    r.lemma_wf(hh);
                    let all = self.leaves();
                    assert(all =~= l.leaves() + r.leaves());
                    assert(all.take(pow2(hh) as int) =~= l.leaves());
                    assert(all.skip(pow2(hh) as int) =~= r.leaves());
                },
            }
        }
    }

    /// A node of height `h` is determined by its leaves: building the tree
    /// over the same leaves in any way that keeps the shape gives the same tree.
    pub proof fn lemma_wf_unique(self, other: MerkleNode, h: nat)
        requires
            self.wf(h),
            other.wf(h),
            self.leaves() == other.leaves(),
        ensures
            self == other,
        decreases self,
    {
        self.lemma_wf(h);
        other.lemma_wf(h);
        if h == 0 {
            assert(self.leaves()[0] == self.hash);
            assert(other.leaves()[0] == other.hash);
        } else {
            let hh = (h - 1) as nat;
            let l = *self.left->0;
            l.lemma_wf_unique(*other.left->0, hh);
            if self.right is Some {
                let r = *self.right->0;
                r.lemma_wf_unique(*other.right->0, hh);
            }
        }
    }

    /// A leaf carrying `hash`.
    pub fn new_leaf(hash: u64) -> (node: MerkleNode)
        ensures
            node.hash == hash,
            node.is_leaf_node(),
            node.wf(0),
            node.leaves() == seq![hash],
    {
        MerkleNode { hash, left: None, right: None }
    }

    /// An inner node over `left` and, if given, `right`; without a right child
    /// it hashes the left child's hash twice.
    pub fn new_inner_node(left: MerkleNode, right: Option<MerkleNode>) -> (node: MerkleNode)
        ensures
            node.left == Some(Box::new(left)),
            node.right == (match right {
                Some(r) => Some(Box::new(r)),
                None => None::<Box<MerkleNode>>,
            }),
            node.hash == combine(
                left.hash,
                match right {
                    Some(r) => r.hash,
                    None => left.hash,
                },
            ),
    {
        let left_hash = left.hash;
        let right_hash = match &right {
            Some(right_node) => right_node.hash,
            None => left_hash,
        };
        MerkleNode {
            hash: hash_pair(left_hash, right_hash),
            left: Some(Box::new(left)),
            right: match right {
                Some(r) => Some(Box::new(r)),
                None => None,
            },
        }
    }

    /// Whether this node has no children.
    pub fn is_leaf(&self) -> (leaf: bool)
        ensures
            leaf == self.is_leaf_node(),
    {
        self.left.is_none() && self.right.is_none()
    }

    /// The next node down the rightmost path: the right child if there is
    /// one, else the left child.
    pub open spec fn spine_child(self) -> MerkleNode {
        if self.right is Some {
            *self.right->0
        } else {
            *self.left->0
        }
    }

    /// This node with the child that `spine_child` names taken away.
    pub open spec fn detach_spine_child(self) -> MerkleNode {
        if self.right is Some {
            MerkleNode { right: None, ..self }
        } else {
            MerkleNode { left: None, ..self }
        }
    }

    /// The node `k` steps down the rightmost path.
    pub open spec fn spine(self, k: nat) -> MerkleNode
        decreases k,
    {
        if k == 0 {
            self
        } else {
            self.spine((k - 1) as nat).spine_child()
        }
    }

    /// Down the rightmost path of a node of height `h`, the node `k` steps
    /// down is a node of height `h - k`, and it holds the leaves of its child
    /// on the path after those of its left child, when the path went right.
    pub proof fn lemma_spine_wf(self, h: nat, k: nat)
        requires
            self.wf(h),
            k <= h,
        ensures
            self.spine(k).wf((h - k) as nat),
            k < h ==> self.spine(k).left is Some,
            k < h ==> self.spine(k).leaves() == if self.spine(k).right is Some {
                self.spine(k).left->0.leaves() + self.spine((k + 1) as nat).leaves()
            } else {
                self.spine((k + 1) as nat).leaves()
            },
            k < h && self.spine(k).right is Some ==> self.spine(k).left->0.leaves().len() == pow2(
                (h - k - 1) as nat,
            ),
            k < h ==> self.spine(k).left->0.wf((h - k - 1) as nat),
        decreases k,
    {
        if k > 0 {
            self.lemma_spine_wf(h, (k - 1) as nat);
        }
        if k < h {
            let s = self.spine(k);
            assert(self.spine((k + 1) as nat) == s.spine_child());
            assert(s.wf((h - k) as nat));
            assert(s.left is Some);
            if s.right is None {
                assert(s.leaves() == s.left->0.leaves() + Seq::<u64>::empty());
                assert(s.leaves() =~= s.left->0.leaves());
            }
        }
    }
}

} // verus!
