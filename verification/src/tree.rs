//! The tree: built from data cut into blocks, grown by appending data, searched
//! for a block, and asked for inclusion proofs.

use crate::error::MerkleError;
use crate::hashing::{hash, hash_spec};
use crate::inclusion::{proof_path, Direction, MerkleProof};
use crate::model::{
    blocks, leaf_hashes, lemma_pow2_monotonic, lemma_tree_height_at_most_31, lemma_tree_height_bounds,
    lemma_tree_height_unique, merkle_root, pow2, tree_height,
};
use crate::node::{
    flat_leaves, lemma_flat_leaves_of_leaf_nodes, lemma_flat_leaves_push, lemma_flat_leaves_take,
    MerkleNode,
};
use vstd::prelude::*;
use vstd::std_specs::iter::IteratorSpec;

verus! {

/// A Merkle tree over the blocks of some data. Its leaves are the hashes of
/// the blocks, in order; the tree over them is always the one that pairing
/// them up level by level gives (see `MerkleNode::wf`).
#[derive(Debug)]
pub struct MerkleTree {
    leaf_size: usize,
    root: MerkleNode,
}

impl View for MerkleTree {
    type V = Seq<u64>;

    /// The leaf hashes, left to right.
    closed spec fn view(&self) -> Seq<u64> {
        self.root.leaves()
    }
}

impl MerkleTree {
    #[verifier::type_invariant]
    closed spec fn well_formed(self) -> bool {
        &&& self.leaf_size > 0
        &&& self.root.wf(self.root.left_height())
        &&& self.root.left_height() == tree_height(self.root.leaves().len())
        &&& self.root.leaves().len() <= usize::MAX
    }

    /// The block size that the tree cuts data into.
    pub closed spec fn block_size(self) -> nat {
        self.leaf_size as nat
    }

    /// The height of the tree.
    pub closed spec fn height(self) -> nat {
        self.root.left_height()
    }
}

/// `2^exp`, when it fits in a `usize`.
fn two_to_the(exp: usize) -> (power: usize)
    requires
        pow2(exp as nat) <= usize::MAX,
    ensures
        power == pow2(exp as nat),
{
    let mut power: usize = 1;
    let mut i: usize = 0;
    while i < exp
        invariant
            i <= exp,
            power == pow2(i as nat),
            pow2(exp as nat) <= usize::MAX,
        decreases exp - i,
    {
        proof {
            lemma_pow2_monotonic((i + 1) as nat, exp as nat);
        }
        power = power * 2;
        i = i + 1;
    }
    power
}

/// Cuts `data` into blocks of `leaf_size` bytes (the last one may be shorter)
/// and makes a leaf of the hash of each.
fn get_leaves(data: &[u8], leaf_size: usize) -> (leaves: Vec<MerkleNode>)
    requires
        leaf_size > 0,
    ensures
        forall|i: int| 0 <= i < leaves.len() ==> (#[trigger] leaves@[i]).is_leaf_node(),
        flat_leaves(leaves@) == leaf_hashes(data@, leaf_size as nat),
        leaves.len() == blocks(data@, leaf_size as nat).len(),
{
    let ghost size = leaf_size as nat;
    let mut leaves: Vec<MerkleNode> = Vec::new();
    let ghost mut done: Seq<Seq<u8>> = Seq::empty();
    let mut pos: usize = 0;
    assert(data@.skip(0) =~= data@);
    assert(done + blocks(data@, size) =~= blocks(data@, size));
    while pos < data.len()
        invariant
            size == leaf_size > 0,
            pos <= data.len(),
            leaves.len() == done.len(),
            forall|i: int| 0 <= i < leaves.len() ==> (#[trigger] leaves@[i]).is_leaf_node(),
            forall|i: int| 0 <= i < leaves.len() ==> (#[trigger] leaves@[i]).hash == hash_spec(done[i]),
            done + blocks(data@.skip(pos as int), size) == blocks(data@, size),
        decreases data.len() - pos,
    {
        let remaining = data.len() - pos;
        let block_len = if remaining < leaf_size { remaining } else { leaf_size };
        let block = &data[pos..pos + block_len];
        let leaf = MerkleNode::new_leaf(hash(block));
        proof {
            let rest = data@.skip(pos as int);
            assert(block@ =~= rest.take(block_len as int));
            if remaining <= leaf_size {
                assert(rest.take(block_len as int) =~= rest);
                assert(data@.skip(pos + block_len) =~= Seq::<u8>::empty());
            } else {
                assert(rest.skip(size as int) =~= data@.skip(pos + block_len));
            }
            assert(done.push(block@) + blocks(data@.skip(pos + block_len), size) =~= done + blocks(rest, size));
            done = done.push(block@);
        }
        leaves.push(leaf);
        pos = pos + block_len;
    }
    proof {
        assert(data@.skip(pos as int) =~= Seq::<u8>::empty());
        assert(done =~= blocks(data@, size));
        lemma_flat_leaves_of_leaf_nodes(leaves@);
        assert(flat_leaves(leaves@) =~= leaf_hashes(data@, size));
    }
    leaves
}

impl MerkleTree {
    /// Builds the tree over `data` cut into blocks of `leaf_size` bytes: the
    /// leaves are paired up, left to right, into parents (a last leaf without
    /// a partner gets a parent of its own), and so on up to a single root.
    /// Refused when `leaf_size` is 0 or `data` is empty.
    pub fn new(data: &[u8], leaf_size: usize) -> (res: Result<MerkleTree, MerkleError>)
        ensures
            leaf_size == 0 ==> res matches Err(MerkleError::ZeroLeafSize),
            leaf_size > 0 && data@.len() == 0 ==> res matches Err(MerkleError::EmptyTree),
            leaf_size > 0 && data@.len() > 0 ==> (res matches Ok(tree) && tree@ == leaf_hashes(
                data@,
                leaf_size as nat,
            ) && tree.block_size() == leaf_size),
    {
        if leaf_size == 0 {
            return Err(MerkleError::ZeroLeafSize);
        }
        let mut descendants = get_leaves(data, leaf_size);
        if descendants.len() == 0 {
            return Err(MerkleError::EmptyTree);
        }
        let ghost all = leaf_hashes(data@, leaf_size as nat);
        let ghost n: nat = descendants.len() as nat;
        let ghost mut level: nat = 0;
        proof {
            assert forall|i: int| 0 <= i < descendants.len() implies (#[trigger] descendants@[i]).wf(
                level,
            ) by {
                assert(descendants@[i].is_leaf_node());
            }
            lemma_flat_leaves_of_leaf_nodes(descendants@);
            assert forall|i: int| 0 <= i < descendants.len() - 1 implies (
            #[trigger] descendants@[i]).leaves().len() == pow2(level) by {
                assert(descendants@[i].is_leaf_node());
            }
        }
        while descendants.len() > 1
            invariant
                descendants.len() >= 1,
                n == all.len() <= usize::MAX,
                flat_leaves(descendants@) == all,
                forall|i: int| 0 <= i < descendants.len() ==> (#[trigger] descendants@[i]).wf(level),
                forall|i: int|
                    0 <= i < descendants.len() - 1 ==> (#[trigger] descendants@[i]).leaves().len()
                        == pow2(level),
                descendants.len() == 1 && level > 0 ==> descendants@[0].right is Some,
            decreases descendants.len(),
        {
            let ghost d = descendants@;
            let mut parents: Vec<MerkleNode> = Vec::new();
            let mut pending: Option<MerkleNode> = None;
            assert(d.take(0) =~= Seq::<MerkleNode>::empty());
            // create one parent node for every two children nodes
            for child in it: descendants.into_iter()
                invariant
                    d.len() > 1,
                    it.seq() == d,
                    forall|i: int| 0 <= i < d.len() ==> (#[trigger] d[i]).wf(level),
                    forall|i: int|
                        0 <= i < d.len() - 1 ==> (#[trigger] d[i]).leaves().len() == pow2(level),
                    parents.len() == it.index() / 2,
                    it.index() % 2 == 0 ==> pending is None && flat_leaves(parents@) == flat_leaves(
                        d.take(it.index() as int),
                    ),
                    it.index() % 2 == 1 ==> pending == Some(d[it.index() - 1]) && flat_leaves(
                        parents@,
                    ) == flat_leaves(d.take(it.index() - 1)),
                    forall|i: int| 0 <= i < parents.len() ==> (#[trigger] parents@[i]).wf(level + 1),
                    forall|i: int|
                        0 <= i < parents.len() && 2 * i + 2 < d.len() ==> (
                        #[trigger] parents@[i]).leaves().len() == pow2(level + 1),
                    parents.len() > 0 ==> parents@[0].right is Some,
            {
                let ghost k = it.index() as int;
                match pending {
                    None => {
                        pending = Some(child);
                    },
                    Some(left) => {
                        let parent = MerkleNode::new_inner_node(left, Some(child));
                        proof {
                            assert(child == d[k]);
                            lemma_flat_leaves_take(d, k - 1);
                            lemma_flat_leaves_take(d, k);
                            lemma_flat_leaves_push(parents@, parent);
                            let lh = (level + 1) as nat;
                            assert(pow2(lh) == 2 * pow2(level));
                            assert((lh - 1) as nat == level);
                            assert(parent.leaves() == d[k - 1].leaves() + d[k].leaves());
                            assert(parent.wf(lh));
                        }
                        parents.push(parent);
                        pending = None;
                    },
                }
            }
            let ghost k = d.len() as int;
            match pending {
                Some(left) => {
                    let parent = MerkleNode::new_inner_node(left, None);
                    proof {
                        lemma_flat_leaves_take(d, k - 1);
                        lemma_flat_leaves_push(parents@, parent);
                        let lh = (level + 1) as nat;
                        assert((lh - 1) as nat == level);
                        assert(parent.leaves() =~= d[k - 1].leaves());
                        assert(parent.wf(lh));
                    }
                    parents.push(parent);
                },
                None => {},
            }
            assert(d.take(k) =~= d);
            // continue pairing parents until we reach the root
            descendants = parents;
            proof {
                level = level + 1;
            }
        }
        let ghost last_row = descendants@;
        match descendants.pop() {
            Some(root) => {
                proof {
                    assert(last_row.drop_last() =~= Seq::<MerkleNode>::empty());
                    assert(root == last_row.last());
                    assert(flat_leaves(last_row.drop_last()) == Seq::<u64>::empty());
                    assert(flat_leaves(last_row) =~= root.leaves());
                    root.lemma_wf(level);
                    if level == 0 {
                        assert(pow2(0) == 1);
                    }
                    lemma_tree_height_unique(n, level);
                }
                Ok(MerkleTree { root, leaf_size })
            },
            None => {
                // the loop above leaves exactly one node
                proof {
                    assert(false);
                }
                Err(MerkleError::EmptyTree)
            },
        }
    }

    /// Appends the blocks of `data`, cut at the tree's block size, as new
    /// leaves after the existing ones, one by one. The blocks of `data` start
    /// afresh: a short last block of the tree stays as it is.
    pub fn append(self, data: &[u8]) -> (tree: Self)
        requires
            self@.len() + blocks(data@, self.block_size()).len() <= usize::MAX,
        ensures
            tree@ == self@ + leaf_hashes(data@, self.block_size()),
            tree.block_size() == self.block_size(),
    {
        proof {
            use_type_invariant(&self);
        }
        let leaves = get_leaves(data, self.leaf_size);
        let ghost hashes = leaf_hashes(data@, self.block_size());
        proof {
            lemma_flat_leaves_of_leaf_nodes(leaves@);
            assert(hashes.take(0) =~= Seq::<u64>::empty());
        }
        let mut tree = self;
        for leaf in it: leaves.into_iter()
            invariant
                it.seq() == leaves@,
                hashes.len() == leaves@.len(),
                forall|i: int| 0 <= i < leaves@.len() ==> (#[trigger] leaves@[i]).is_leaf_node(),
                forall|i: int| 0 <= i < leaves@.len() ==> (#[trigger] leaves@[i]).hash == hashes[i],
                self@.len() + hashes.len() <= usize::MAX,
                tree@ == self@ + hashes.take(it.index() as int),
                tree.block_size() == self.block_size(),
        {
            let ghost i = it.index() as int;
            tree = tree.add_one_leaf(leaf);
            proof {
                assert(hashes.take(i + 1) =~= hashes.take(i).push(hashes[i]));
                assert(tree@ =~= self@ + hashes.take(i + 1));
            }
        }
        proof {
            assert(hashes.take(hashes.len() as int) =~= hashes);
        }
        tree
    }

    /// Adds `leaf` as the new rightmost leaf. Walks down the rightmost path,
    /// taking each node apart; then walks back up, putting the nodes together
    /// again, with the new leaf at the bottom of a new branch that joins the
    /// tree at the lowest node that has room for a right child. When no node
    /// has room (the tree was full), the branch becomes the right child of a
    /// new root.
    fn add_one_leaf(self, leaf: MerkleNode) -> (tree: Self)
        requires
            leaf.is_leaf_node(),
            self@.len() + 1 <= usize::MAX,
        ensures
            tree@ == self@.push(leaf.hash),
            tree.block_size() == self.block_size(),
    {
        proof {
            use_type_invariant(&self);
        }
        let depth = self.depth();
        let MerkleTree { leaf_size, root } = self;
        let ghost orig = root;
        let ghost x = leaf.hash;
        let ghost n = orig.leaves().len();
        proof {
            assert forall|j: nat| j <= depth implies #[trigger] orig.spine(j).wf((depth - j) as nat) by {
                orig.lemma_spine_wf(depth as nat, j);
            }
        }
        // walk down the tree, collecting every node that may need to be updated
        let mut parents: Vec<MerkleNode> = Vec::new();
        let mut actual = root;
        for i in 0..depth
            invariant
                orig.wf(depth as nat),
                parents.len() == i,
                actual == orig.spine(i as nat),
                forall|j: int| 0 <= j < i ==> #[trigger] parents@[j] == orig.spine(j as nat).detach_spine_child(),
        {
            proof {
                orig.lemma_spine_wf(depth as nat, i as nat);
            }
            let next = if let Some(node) = actual.right.take() {
                node
            } else {
                actual.left.take().unwrap()
            };
            parents.push(actual);
            actual = *next;
        }
        // insert the new leaf and create a new branch if needed,
        // also updating the hashes on the way up
        let mut prev_node = actual;  // the rightmost leaf
        let mut new_branch = Some(leaf);  // the highest node of the new branch
        proof {
            orig.lemma_spine_wf(depth as nat, depth as nat);
            assert(orig.spine(depth as nat).wf(0));
            assert(prev_node.leaves().len() == 1);
        }
        while parents.len() > 0
            invariant
                orig.wf(depth as nat),
                parents.len() <= depth,
                forall|j: int| 0 <= j < parents.len() ==> #[trigger] parents@[j] == orig.spine(j as nat).detach_spine_child(),
                forall|j: nat| j <= depth ==> #[trigger] orig.spine(j).wf((depth - j) as nat),
                prev_node.wf((depth - parents.len()) as nat),
                new_branch is None ==> prev_node.leaves() == orig.spine(parents.len() as nat).leaves().push(x),
                new_branch is Some ==> {
                    &&& prev_node == orig.spine(parents.len() as nat)
                    &&& prev_node.leaves().len() == pow2((depth - parents.len()) as nat)
                    &&& new_branch->0.wf((depth - parents.len()) as nat)
                    &&& new_branch->0.leaves() == seq![x]
                },
            decreases parents.len(),
        {
            let mut node = parents.pop().unwrap();
            let ghost k = parents.len() as nat;
            let ghost g = (depth - k - 1) as nat;
            let ghost parent = orig.spine(k);
            let ghost child_leaves = orig.spine(k + 1).leaves();
            proof {
                orig.lemma_spine_wf(depth as nat, k);
                assert(orig.spine(k + 1).wf(g));
                assert(pow2(g + 1) == 2 * pow2(g));
                assert((g + 1) as nat == (depth - k) as nat);
            }
            // put the node back together with the updated child
            if node.left.is_none() {
                node.left = Some(Box::new(prev_node));
            } else {
                node.right = Some(Box::new(prev_node));
            }
            match (&node.right, new_branch.take()) {
                (None, Some(top_of_new_branch)) => {
                    // add the new branch on the right and recompute the hash
                    let updated_node = MerkleNode::new_inner_node(
                        *node.left.take().unwrap(),
                        Some(top_of_new_branch),
                    );
                    proof {
                        assert(updated_node.wf(g + 1));
                        assert(updated_node.leaves() =~= parent.leaves().push(x));
                    }
                    node = updated_node;
                    // the new branch has been merged
                    new_branch = None;
                },
                (Some(_), Some(top_of_new_branch)) => {
                    // the new branch cannot be merged yet: extend it one level up
                    let extended = MerkleNode::new_inner_node(top_of_new_branch, None);
                    proof {
                        assert(node == parent);
                        assert(extended.wf(g + 1));
                        assert(extended.leaves() =~= seq![x]);
                        assert(node.leaves().len() == pow2(g + 1));
                    }
                    new_branch = Some(extended);
                },
                (_, None) => {
                    // the new branch has already been merged: recompute the hash
                    let left = *node.left.take().unwrap();
                    let right = match node.right.take() {
                        Some(n) => Some(*n),
                        None => None,
                    };
                    let updated_node = MerkleNode::new_inner_node(left, right);
                    proof {
                        assert(updated_node.wf(g + 1));
                        assert(updated_node.leaves() =~= parent.leaves().push(x));
                    }
                    node = updated_node;
                },
            }
            // this node becomes a child of its parent in the next iteration
            prev_node = node;
        }
        let prev_root = prev_node;
        let new_root = if let Some(top_of_new_branch) = new_branch {
            // the tree was full: the new branch and the old root share a new root
            MerkleNode::new_inner_node(prev_root, Some(top_of_new_branch))
        } else {
            prev_root
        };
        proof {
            lemma_tree_height_bounds(n);
            assert(orig.spine(0) == orig);
            if new_branch is None {
                assert(new_root.wf(depth as nat));
                new_root.lemma_wf(depth as nat);
                assert(depth > 0);
                lemma_tree_height_unique(n + 1, depth as nat);
            } else {
                assert(pow2((depth + 1) as nat) == 2 * pow2(depth as nat));
                assert(new_root.wf((depth + 1) as nat));
                new_root.lemma_wf((depth + 1) as nat);
                assert(new_root.leaves() =~= orig.leaves().push(x));
                lemma_tree_height_unique(n + 1, (depth + 1) as nat);
            }
        }
        MerkleTree { leaf_size, root: new_root }
    }

    /// The height of the tree: the number of steps from the root down to a
    /// leaf, counted along left children.
    fn depth(&self) -> (depth: usize)
        ensures
            depth == self.height(),
    {
        proof {
            use_type_invariant(self);
            lemma_tree_height_bounds(self.root.leaves().len());
            self.root.lemma_wf(self.root.left_height());
        }
        let mut depth: usize = 0;
        let mut actual = &self.root;
        loop
            invariant
                depth + actual.left_height() == self.root.left_height() <= usize::MAX,
            ensures
                depth == self.root.left_height(),
            decreases actual.left_height(),
        {
            match &actual.left {
                Some(node) => {
                    actual = node;
                    depth += 1;
                },
                None => break ,
            }
        }
        depth
    }

    /// Whether one of the blocks of the tree is `data`, by its hash.
    pub fn contains(&self, data: &[u8]) -> (found: bool)
        ensures
            found == self@.contains(hash_spec(data@)),
    {
        let target_hash = hash(data);
        self.contains_hash(&target_hash)
    }

    /// Whether `target_hash` is one of the leaves.
    pub fn contains_hash(&self, target_hash: &u64) -> (found: bool)
        ensures
            found == self@.contains(*target_hash),
    {
        self.contains_hash_recursive(&self.root, target_hash)
    }

    /// Whether `target_hash` is one of the leaves under `node`.
    fn contains_hash_recursive(&self, node: &MerkleNode, target_hash: &u64) -> (found: bool)
        ensures
            found == node.leaves().contains(*target_hash),
        decreases node,
    {
        if node.is_leaf() && node.hash == *target_hash {
            assert(node.leaves()[0] == *target_hash);
            return true;
        }
        let ghost l = if node.left is Some {
            node.left->0.leaves()
        } else {
            Seq::<u64>::empty()
        };
        let ghost r = if node.right is Some {
            node.right->0.leaves()
        } else {
            Seq::<u64>::empty()
        };
        if let Some(left) = &node.left {
            if self.contains_hash_recursive(left, target_hash) {
                let ghost j = choose|j: int| 0 <= j < l.len() && l[j] == *target_hash;
                assert(node.leaves()[j] == *target_hash);
                return true;
            }
        }
        if let Some(right) = &node.right {
            if self.contains_hash_recursive(right, target_hash) {
                let ghost j = choose|j: int| 0 <= j < r.len() && r[j] == *target_hash;
                assert(node.leaves()[l.len() + j] == *target_hash);
                return true;
            }
        }
        proof {
            if !node.is_leaf_node() {
                assert forall|j: int| 0 <= j < node.leaves().len() implies node.leaves()[j]
                    != *target_hash by {
                    if j < l.len() {
                        assert(node.leaves()[j] == l[j]);
                    } else {
                        assert(node.leaves()[j] == r[j - l.len()]);
                    }
                }
            }
        }
        false
    }

    /// The number of leaves: walks down the rightmost path, counting the
    /// leaves of each full left child passed on the way.
    pub fn leaf_count(&self) -> (count: usize)
        ensures
            count == self@.len(),
    {
        proof {
            use_type_invariant(self);
            self.root.lemma_wf(self.root.left_height());
        }
        let mut height = self.depth();
        let mut count: usize = 0;
        let mut node = &self.root;
        while height > 0
            invariant
                node.wf(height as nat),
                count + node.leaves().len() == self@.len() <= usize::MAX,
            decreases height,
        {
            proof {
                node.lemma_wf(height as nat);
                assert(pow2(height as nat) == 2 * pow2((height - 1) as nat));
            }
            match (&node.left, &node.right) {
                (Some(left), Some(right)) => {
                    proof {
                        left.lemma_wf((height - 1) as nat);
                        right.lemma_wf((height - 1) as nat);
                        assert(node.leaves() == left.leaves() + right.leaves());
                    }
                    count = count + two_to_the(height - 1);
                    node = right;
                },
                (Some(left), None) => {
                    proof {
                        assert(node.leaves() =~= left.leaves());
                    }
                    node = left;
                },
                _ => {
                    // an inner node always has a left child
                    proof {
                        assert(false);
                    }
                },
            }
            height = height - 1;
        }
        proof {
            node.lemma_wf(0);
        }
        count + 1
    }

    /// The root hash: the hash that `merkle_root` gives the leaves.
    pub fn get_root_hash(&self) -> (root_hash: u64)
        ensures
            root_hash == merkle_root(self@),
    {
        proof {
            use_type_invariant(self);
            self.root.lemma_wf(self.root.left_height());
        }
        self.root.hash
    }

    /// The proof for leaf number `leaf_number` (counted from 0): walks down
    /// from the root towards that leaf, halving the range of leaf numbers at
    /// each level and keeping the hash of the child it does not take. Refused
    /// when the tree has no such leaf.
    pub fn generate_proof(&self, leaf_number: usize) -> (res: Result<MerkleProof, MerkleError>)
        requires
            self@.len() <= 0x8000_0000,
        ensures
            leaf_number < self@.len() ==> (res matches Ok(proof) && proof@ == proof_path(
                self@,
                tree_height(self@.len()),
                leaf_number as nat,
            )),
            leaf_number >= self@.len() ==> res matches Err(MerkleError::InvalidLeafNumber),
    {
        proof {
            use_type_invariant(self);
            self.root.lemma_wf(self.root.left_height());
            lemma_tree_height_at_most_31(self@.len());
        }
        let ghost all = self@;
        let ghost first = leaf_number as nat;
        let ghost top = self.root.left_height();
        let mut leaf_index = leaf_number;
        let mut depth = self.depth();
        proof {
            lemma_pow2_monotonic(depth as nat, 31);
        }
        if leaf_index >= two_to_the(depth) {
            return Err(MerkleError::InvalidLeafNumber);
        }
        let mut sibling_nodes: Vec<(u64, Direction)> = Vec::new();
        let mut actual_node = &self.root;
        assert(sibling_nodes@ + proof_path(all, top, first) =~= proof_path(all, top, first));
        while depth > 0
            invariant
                all == self@,
                first == leaf_number,
                top == tree_height(all.len()),
                depth <= top <= 31,
                pow2(31) == 0x8000_0000,
                actual_node.wf(depth as nat),
                leaf_index < pow2(depth as nat),
                (leaf_index < actual_node.leaves().len()) == (first < all.len()),
                first < all.len() ==> sibling_nodes@ + proof_path(
                    actual_node.leaves(),
                    depth as nat,
                    leaf_index as nat,
                ) == proof_path(all, top, first),
            decreases depth,
        {
            proof {
                actual_node.lemma_wf(depth as nat);
                lemma_pow2_monotonic(depth as nat, 31);
                assert(pow2(depth as nat) == 2 * pow2((depth - 1) as nat));
            }
            // the two children; a node without a right child stands beside itself
            let (left_node, right_node) = match (&actual_node.left, &actual_node.right) {
                (Some(left), Some(right)) => (left, right),
                (Some(left), None) => (left, left),
                _ => {
                    // an inner node always has a left child
                    proof {
                        assert(false);
                    }
                    return Err(MerkleError::InvalidLeafNumber);
                },
            };
            proof {
                left_node.lemma_wf((depth - 1) as nat);
                right_node.lemma_wf((depth - 1) as nat);
            }
            let remaining_nodes = two_to_the(depth);
            let move_left = leaf_index < remaining_nodes / 2;
            let ghost rest = proof_path(actual_node.leaves(), depth as nat, leaf_index as nat);
            let ghost prev_path = sibling_nodes@;
            if move_left {
                sibling_nodes.push((right_node.hash, Direction::Right));
                proof {
                    assert(sibling_nodes@ + rest.skip(1) =~= prev_path + rest);
                }
                actual_node = left_node;
            } else {
                if actual_node.right.is_none() {
                    // the leaf lies beyond the last leaf of the tree
                    return Err(MerkleError::InvalidLeafNumber);
                }
                sibling_nodes.push((left_node.hash, Direction::Left));
                proof {
                    assert(sibling_nodes@ + rest.skip(1) =~= prev_path + rest);
                }
                actual_node = right_node;
                leaf_index = leaf_index - remaining_nodes / 2;
            }
            depth = depth - 1;
        }
        proof {
            actual_node.lemma_wf(0);
            assert(sibling_nodes@ =~= sibling_nodes@ + Seq::<(u64, Direction)>::empty());
        }
        Ok(MerkleProof::from_path(sibling_nodes))
    }
}

} // verus!
