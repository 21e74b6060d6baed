# rusty_merkle

A Merkle tree over a byte stream cut into fixed-size blocks, verified with Verus.

- `src/hashing.rs`: the hash of a byte slice (std's `DefaultHasher`) and of a pair of hashes.
- `src/model.rs`: the model: blocks of data, tree height, the root hash of a sequence of leaves.
- `src/node.rs`: tree nodes and the shape invariant that ties a node to its leaves.
- `src/tree.rs`: `MerkleTree`: build, append, search, root hash, inclusion proofs.
- `src/inclusion.rs`: `MerkleProof`, its validation, and the law that every proof leads to the root.
- `app/main.rs`: reads data from a reader and drives the library.
