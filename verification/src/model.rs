//! The mathematical model of a tree: its sequence of leaf hashes, the shape
//! that a sequence of leaves is arranged in, and the root hash of that shape.

use crate::hashing::{combine, hash_spec};
use vstd::arithmetic::div_mod::{lemma_mod_sub_multiples_vanish, lemma_small_mod};
use vstd::prelude::*;

verus! {

/// Two to the power `e`.
pub open spec fn pow2(e: nat) -> nat
    decreases e,
{
    if e == 0 {
        1
    } else {
        2 * pow2((e - 1) as nat)
    }
}

/// The height of the tree over `n` leaves: each level above the leaves pairs
/// up the nodes below it, so it has half as many nodes, rounded up; the root is
/// the first level with a single node.
pub open spec fn tree_height(n: nat) -> nat
    decreases n,
{
    if n <= 1 {
        0
    } else {
        1 + tree_height(((n + 1) / 2) as nat)
    }
}

/// The leaves under the left child of a node of height `h` (`h > 0`) whose
/// leaves are `leaves`: the first `2^(h-1)` of them, or all when there are no more.
pub open spec fn left_part(leaves: Seq<u64>, h: nat) -> Seq<u64> {
    if leaves.len() > pow2((h - 1) as nat) {
        leaves.take(pow2((h - 1) as nat) as int)
    } else {
        leaves
    }
}

/// The leaves under the right child of a node of height `h` (`h > 0`): those
/// after the first `2^(h-1)`; the right child exists only when they are not empty.
pub open spec fn right_part(leaves: Seq<u64>, h: nat) -> Seq<u64> {
    leaves.skip(pow2((h - 1) as nat) as int)
}

/// The hash of a node of height `h` over `leaves` (`1 <= leaves.len() <= 2^h`).
/// A node without a right child hashes its left child's hash twice.
pub open spec fn subtree_root(leaves: Seq<u64>, h: nat) -> u64
    decreases h,
{
    if h == 0 {
        leaves[0]
    } else {
        let l = subtree_root(left_part(leaves, h), (h - 1) as nat);
        if leaves.len() > pow2((h - 1) as nat) {
            combine(l, subtree_root(right_part(leaves, h), (h - 1) as nat))
        } else {
            combine(l, l)
        }
    }
}

/// The root hash of the tree over `leaves`.
pub open spec fn merkle_root(leaves: Seq<u64>) -> u64 {
    subtree_root(leaves, tree_height(leaves.len()))
}

/// Powers of two grow with the exponent.
pub proof fn lemma_pow2_monotonic(a: nat, b: nat)
    requires
        a <= b,
    ensures
        1 <= pow2(a) <= pow2(b),
    decreases b,
{
    if b > 0 {
        if a < b {
            lemma_pow2_monotonic(a, (b - 1) as nat);
        } else {
            lemma_pow2_monotonic((a - 1) as nat, (b - 1) as nat);
        }
    }
}

/// A tree over at most `2^31` leaves is at most 31 levels high.
pub proof fn lemma_tree_height_at_most_31(n: nat)
    requires
        1 <= n <= 0x8000_0000,
    ensures
        tree_height(n) <= 31,
        pow2(31) == 0x8000_0000,
{
    assert(pow2(31) == 0x8000_0000) by {
        reveal_with_fuel(pow2, 32);
    }
    lemma_tree_height_bounds(n);
    if tree_height(n) > 31 {
        lemma_pow2_monotonic(31, (tree_height(n) - 1) as nat);
    }
}

/// `2^(h-1) < n <= 2^h` (or `n == 1` for `h == 0`) pins the height down.
pub proof fn lemma_tree_height_unique(n: nat, h: nat)
    requires
        h == 0 ==> n == 1,
        h > 0 ==> pow2((h - 1) as nat) < n <= pow2(h),
    ensures
        tree_height(n) == h,
    decreases h,
{
    if h > 0 {
        if h == 1 {
            assert(pow2(1) == 2) by { reveal_with_fuel(pow2, 2); }
            assert(tree_height(1) == 0);
        } else {
            let m = ((n + 1) / 2) as nat;
            assert(pow2((h - 1) as nat) == 2 * pow2((h - 2) as nat));
            lemma_tree_height_unique(m, (h - 1) as nat);
        }
    }
}

/// The tree over `n >= 1` leaves is the lowest tree that has room for them.
pub proof fn lemma_tree_height_bounds(n: nat)
    requires
        n >= 1,
    ensures
        n <= pow2(tree_height(n)),
        tree_height(n) > 0 ==> pow2((tree_height(n) - 1) as nat) < n,
        tree_height(n) <= n,
    decreases n,
{
    if n > 1 {
        let m = ((n + 1) / 2) as nat;
        lemma_tree_height_bounds(m);
        let h = tree_height(n);
        assert(h == 1 + tree_height(m));
        assert(pow2(h) == 2 * pow2(tree_height(m)));
        if tree_height(m) > 0 {
            assert(pow2(tree_height(m)) == 2 * pow2((tree_height(m) - 1) as nat));
        } else {
            assert(m == 1);
        }
    }
}

/// `data` cut into blocks of `size` bytes, in order; the last block holds
/// what is left and may be shorter. No blocks when `data` is empty.
pub open spec fn blocks(data: Seq<u8>, size: nat) -> Seq<Seq<u8>>
    decreases data.len(),
{
    if size == 0 || data.len() == 0 {
        Seq::empty()
    } else if data.len() <= size {
        seq![data]
    } else {
        seq![data.take(size as int)] + blocks(data.skip(size as int), size)
    }
}

/// The leaf hashes of `data` cut into blocks of `size` bytes.
pub open spec fn leaf_hashes(data: Seq<u8>, size: nat) -> Seq<u64> {
    blocks(data, size).map_values(|b: Seq<u8>| hash_spec(b))
}

/// Cutting `a + b` into blocks gives the blocks of `a` and then those of `b`,
/// when `a` is a whole number of blocks long. So a tree built over `a` and
/// then appended `b` has the leaves of the tree built over `a + b`.
pub proof fn lemma_blocks_concat(a: Seq<u8>, b: Seq<u8>, size: nat)
    requires
        size > 0,
        a.len() % size == 0,
    ensures
        blocks(a + b, size) == blocks(a, size) + blocks(b, size),
        leaf_hashes(a + b, size) == leaf_hashes(a, size) + leaf_hashes(b, size),
    decreases a.len(),
{
    if a.len() == 0 {
        assert(a + b =~= b);
        assert(blocks(a, size) + blocks(b, size) =~= blocks(b, size));
    } else {
        if a.len() < size {
            lemma_small_mod(a.len(), size);
        }
        assert(a.len() >= size);
        let rest = a.skip(size as int);
        lemma_mod_sub_multiples_vanish(a.len() as int, size as int);
        lemma_blocks_concat(rest, b, size);
        if b.len() == 0 {
            assert(a + b =~= a);
            assert(blocks(a, size) + blocks(b, size) =~= blocks(a, size));
        } else {
            assert((a + b).take(size as int) =~= a.take(size as int));
            assert((a + b).skip(size as int) =~= rest + b);
            if a.len() == size {
                assert(a.take(size as int) =~= a);
                assert(rest =~= Seq::<u8>::empty());
                assert(rest + b =~= b);
            }
            assert(blocks(a + b, size) =~= blocks(a, size) + blocks(b, size));
        }
    }
    assert(leaf_hashes(a + b, size) =~= leaf_hashes(a, size) + leaf_hashes(b, size));
}

/// Every block of the data is a leaf of the tree over it.
pub proof fn lemma_every_block_is_a_leaf(data: Seq<u8>, size: nat, i: int)
    requires
        0 <= i < blocks(data, size).len(),
    ensures
        leaf_hashes(data, size).contains(hash_spec(blocks(data, size)[i])),
{
    assert(leaf_hashes(data, size)[i] == hash_spec(blocks(data, size)[i]));
}

/// Cutting data into blocks loses nothing and adds nothing: the blocks,
/// joined in order, give back the data; every block but the last holds
/// exactly `size` bytes; the last holds what is left: at least one byte, at
/// most `size`, `data.len() - size * (number of blocks - 1)` in all. There are
/// no blocks only when there is no data.
pub proof fn lemma_blocks_cover_data(data: Seq<u8>, size: nat)
    requires
        size > 0,
    ensures
        blocks(data, size).flatten() == data,
        forall|i: int|
            0 <= i < blocks(data, size).len() - 1 ==> (#[trigger] blocks(data, size)[i]).len()
                == size,
        blocks(data, size).len() > 0 ==> 0 < blocks(data, size).last().len() <= size,
        blocks(data, size).len() > 0 ==> blocks(data, size).last().len() == data.len() - size * (
        blocks(data, size).len() - 1),
        blocks(data, size).len() == 0 <==> data.len() == 0,
    decreases data.len(),
{
    let bs = blocks(data, size);
    if data.len() == 0 {
    } else if data.len() <= size {
        assert(bs.drop_first() =~= Seq::<Seq<u8>>::empty());
        assert(bs.flatten() == data + bs.drop_first().flatten());
        assert(bs.flatten() =~= data);
        assert(size * 0 == 0) by (nonlinear_arith);
        assert(bs.len() == 1);
    } else {
        let rest = data.skip(size as int);
        lemma_blocks_cover_data(rest, size);
        let rs = blocks(rest, size);
        let m = rs.len();
        assert(bs == seq![data.take(size as int)] + rs);
        assert(bs.drop_first() =~= rs);
        assert(bs.flatten() == data.take(size as int) + rs.flatten());
        assert(bs.flatten() =~= data);
        assert forall|i: int| 0 <= i < bs.len() - 1 implies (#[trigger] bs[i]).len() == size by {
            if i > 0 {
                assert(bs[i] == rs[i - 1]);
            }
        }
        assert(m >= 1);
        assert(bs.len() == m + 1);
        assert(bs.last() == rs.last());
        assert(size * m == size + size * (m - 1)) by (nonlinear_arith)
            requires
                m >= 1,
        ;
    }
}

} // verus!
