//! The hash function of the tree: std's `DefaultHasher` over a byte slice.

use std::collections::hash_map::DefaultHasher;
use std::hash::{Hash, Hasher};
use vstd::bytes::{lemma_auto_spec_u64_to_from_le_bytes, spec_u64_to_le_bytes, u64_to_le_bytes};
use vstd::prelude::*;
use vstd::std_specs::hash::DefaultHasherAdditionalSpecFns;

verus! {

/// The sequence of writes that `<[u8] as Hash>::hash` leaves in a hasher whose
/// writes so far were `state`, when it feeds in the bytes `data`.
pub uninterp spec fn slice_hash_writes(state: Seq<Seq<u8>>, data: Seq<u8>) -> Seq<Seq<u8>>;

/// Trusted: `<[u8] as std::hash::Hash>::hash`. The writes it makes to the
/// hasher depend on the hasher's earlier writes and on the bytes alone, and,
/// as the `Hash` documentation asks of every implementation ("values which
/// are not equal should cause two different sequences of values to be
/// written"), unequal slices make unequal writes. Which writes those are (a
/// length prefix, then the bytes) is left unsaid.
#[verifier::external_body]
fn feed_bytes(data: &[u8], state: &mut DefaultHasher)
    ensures
        final(state)@ == slice_hash_writes(old(state)@, data@),
        forall|a: Seq<u8>, b: Seq<u8>|
            #[trigger] slice_hash_writes(old(state)@, a) == #[trigger] slice_hash_writes(
                old(state)@,
                b,
            ) ==> a == b,
{
    data.hash(state);
}

/// The writes that feeding `data` into a fresh `DefaultHasher` makes.
pub open spec fn hash_writes(data: Seq<u8>) -> Seq<Seq<u8>> {
    slice_hash_writes(Seq::empty(), data)
}

/// The writes into a fresh hasher tell the bytes fed apart: no two different
/// byte sequences make the same writes.
pub open spec fn writes_tell_bytes_apart() -> bool {
    forall|a: Seq<u8>, b: Seq<u8>| #[trigger] hash_writes(a) == #[trigger] hash_writes(b) ==> a == b
}

/// The hash of a byte sequence: a fresh `DefaultHasher` fed the bytes, then finished.
pub open spec fn hash_spec(data: Seq<u8>) -> u64 {
    DefaultHasher::spec_finish(slice_hash_writes(Seq::empty(), data))
}

/// Hashes a byte slice with a fresh `DefaultHasher`: feeds it all the bytes
/// of `data` and finishes it.
pub fn hash(data: &[u8]) -> (digest: u64)
    ensures
        digest == hash_spec(data@),
        digest == DefaultHasher::spec_finish(slice_hash_writes(Seq::empty(), data@)),
        writes_tell_bytes_apart(),
{
    let mut hasher = DefaultHasher::new();
    feed_bytes(data, &mut hasher);
    hasher.finish()
}

/// The hash of an inner node: the hash of the little-endian bytes of its
/// left child's hash followed by those of its right child's hash.
pub open spec fn combine(left: u64, right: u64) -> u64 {
    hash_spec(spec_u64_to_le_bytes(left) + spec_u64_to_le_bytes(right))
}

/// Hashes the little-endian bytes of `left` followed by those of `right`.
pub fn hash_pair(left: u64, right: u64) -> (digest: u64)
    ensures
        digest == combine(left, right),
{
    let mut bytes = u64_to_le_bytes(left);
    let mut tail = u64_to_le_bytes(right);
    bytes.append(&mut tail);
    hash(bytes.as_slice())
}

/// The hash of `data` is what a fresh `DefaultHasher` finishes with after
/// being fed all of `data`, every byte of it, whatever its length.
pub proof fn lemma_hash_reads_all_bytes(data: Seq<u8>)
    ensures
        hash_spec(data) == DefaultHasher::spec_finish(slice_hash_writes(Seq::empty(), data)),
{
}

/// Data that differs anywhere, in any byte or in its length, is fed into the
/// hasher as different writes.
pub proof fn lemma_different_data_different_writes(a: Seq<u8>, b: Seq<u8>)
    requires
        writes_tell_bytes_apart(),
        a != b,
    ensures
        hash_writes(a) != hash_writes(b),
        hash_spec(a) == DefaultHasher::spec_finish(hash_writes(a)),
        hash_spec(b) == DefaultHasher::spec_finish(hash_writes(b)),
{
}

/// The hash of an inner node is what a fresh `DefaultHasher` finishes with
/// after being fed the 16 bytes of its children's hashes, left then right, in
/// little-endian order; and those writes tell apart any two different pairs
/// of children, the order of the two included.
pub proof fn lemma_combine_reads_both_children(left: u64, right: u64, left2: u64, right2: u64)
    requires
        writes_tell_bytes_apart(),
    ensures
        combine(left, right) == DefaultHasher::spec_finish(
            slice_hash_writes(Seq::empty(), spec_u64_to_le_bytes(left) + spec_u64_to_le_bytes(right)),
        ),
        (left, right) != (left2, right2) ==> hash_writes(
            spec_u64_to_le_bytes(left) + spec_u64_to_le_bytes(right),
        ) != hash_writes(spec_u64_to_le_bytes(left2) + spec_u64_to_le_bytes(right2)),
{
    lemma_auto_spec_u64_to_from_le_bytes();
    let a = spec_u64_to_le_bytes(left) + spec_u64_to_le_bytes(right);
    let b = spec_u64_to_le_bytes(left2) + spec_u64_to_le_bytes(right2);
    if a == b {
        assert(a.take(8) =~= spec_u64_to_le_bytes(left));
        assert(b.take(8) =~= spec_u64_to_le_bytes(left2));
        assert(a.skip(8) =~= spec_u64_to_le_bytes(right));
        assert(b.skip(8) =~= spec_u64_to_le_bytes(right2));
    }
}

} // verus!
