use rusty_merkle::{hash, MerkleError, MerkleNode, MerkleTree};

fn pair(left: u64, right: u64) -> u64 {
    let mut bytes = left.to_le_bytes().to_vec();
    bytes.extend_from_slice(&right.to_le_bytes());
    hash(&bytes)
}

fn bytes(n: usize) -> Vec<u8> {
    (0..n).map(|i| (i * 7 + 3) as u8).collect()
}

#[test]
fn hash_depends_on_the_bytes() {
    assert_ne!(hash(&[1]), hash(&[2]));
    assert_ne!(hash(&[]), hash(&[0]));
    assert_eq!(hash(&[1, 2, 3]), hash(&[1, 2, 3]));
}

#[test]
fn leaf_and_inner_nodes() {
    let leaf = MerkleNode::new_leaf(7);
    assert!(leaf.is_leaf());
    assert_eq!(leaf.hash, 7);
    let inner = MerkleNode::new_inner_node(MerkleNode::new_leaf(1), Some(MerkleNode::new_leaf(2)));
    assert!(!inner.is_leaf());
    assert_eq!(inner.hash, pair(1, 2));
    let lonely = MerkleNode::new_inner_node(MerkleNode::new_leaf(5), None);
    assert!(!lonely.is_leaf());
    assert!(lonely.right.is_none());
    assert_eq!(lonely.hash, pair(5, 5));
}

#[test]
fn refused_trees() {
    assert_eq!(MerkleTree::new(&[1, 2, 3], 0).err(), Some(MerkleError::ZeroLeafSize));
    assert_eq!(MerkleTree::new(&[], 0).err(), Some(MerkleError::ZeroLeafSize));
    assert_eq!(MerkleTree::new(&[], 4).err(), Some(MerkleError::EmptyTree));
}

#[test]
fn root_of_one_block_is_its_hash() {
    let tree = MerkleTree::new(&[9, 8, 7], 3).unwrap();
    assert_eq!(tree.get_root_hash(), hash(&[9, 8, 7]));
    assert_eq!(tree.leaf_count(), 1);
    let proof = tree.generate_proof(0).unwrap();
    assert!(proof.validate(tree.get_root_hash(), hash(&[9, 8, 7])));
}

#[test]
fn root_of_two_three_and_five_blocks() {
    let h: Vec<u64> = (1u8..=5).map(|b| hash(&[b])).collect();
    let two = MerkleTree::new(&[1, 2], 1).unwrap();
    assert_eq!(two.get_root_hash(), pair(h[0], h[1]));
    let three = MerkleTree::new(&[1, 2, 3], 1).unwrap();
    assert_eq!(three.get_root_hash(), pair(pair(h[0], h[1]), pair(h[2], h[2])));
    let five = MerkleTree::new(&[1, 2, 3, 4, 5], 1).unwrap();
    let left = pair(pair(h[0], h[1]), pair(h[2], h[3]));
    let lonely = pair(h[4], h[4]);
    assert_eq!(five.get_root_hash(), pair(left, pair(lonely, lonely)));
}

#[test]
fn last_block_may_be_short() {
    let tree = MerkleTree::new(&[1, 2, 3, 4, 5], 2).unwrap();
    assert_eq!(tree.leaf_count(), 3);
    assert!(tree.contains(&[5]));
    assert!(!tree.contains(&[5, 0]));
    let h1 = hash(&[1, 2]);
    let h2 = hash(&[3, 4]);
    let h3 = hash(&[5]);
    assert_eq!(tree.get_root_hash(), pair(pair(h1, h2), pair(h3, h3)));
}

#[test]
fn every_proof_leads_to_the_root() {
    for n in 1..=33usize {
        let data = bytes(n);
        let tree = MerkleTree::new(&data, 1).unwrap();
        let root = tree.get_root_hash();
        for i in 0..n {
            let proof = tree.generate_proof(i).unwrap();
            assert!(proof.validate(root, hash(&data[i..i + 1])), "n = {}, leaf {}", n, i);
        }
    }
}

#[test]
fn proof_for_a_missing_leaf_is_refused() {
    for n in 1..=17usize {
        let tree = MerkleTree::new(&bytes(n), 1).unwrap();
        for i in n..n + 20 {
            assert_eq!(tree.generate_proof(i).err(), Some(MerkleError::InvalidLeafNumber));
        }
    }
}

#[test]
fn proof_does_not_lead_from_another_leaf() {
    let data = bytes(6);
    let tree = MerkleTree::new(&data, 1).unwrap();
    let root = tree.get_root_hash();
    let proof = tree.generate_proof(2).unwrap();
    assert!(proof.validate(root, hash(&data[2..3])));
    assert!(!proof.validate(root, hash(&data[3..4])));
    assert!(!proof.validate(root ^ 1, hash(&data[2..3])));
}

#[test]
fn append_gives_the_tree_of_the_joined_data() {
    let data = bytes(40);
    for leaf_size in 1..=5usize {
        let whole = MerkleTree::new(&data, leaf_size).unwrap();
        let mut split = leaf_size;
        while split < data.len() {
            let grown = MerkleTree::new(&data[..split], leaf_size).unwrap().append(&data[split..]);
            assert_eq!(grown.get_root_hash(), whole.get_root_hash());
            assert_eq!(grown.leaf_count(), whole.leaf_count());
            split += leaf_size;
        }
    }
}

#[test]
fn append_one_block_at_a_time() {
    let data = bytes(30);
    let mut tree = MerkleTree::new(&data[..1], 1).unwrap();
    for i in 1..data.len() {
        tree = tree.append(&data[i..i + 1]);
        let rebuilt = MerkleTree::new(&data[..i + 1], 1).unwrap();
        assert_eq!(tree.get_root_hash(), rebuilt.get_root_hash());
        assert_eq!(tree.leaf_count(), i + 1);
        for j in 0..=i {
            let proof = tree.generate_proof(j).unwrap();
            assert!(proof.validate(tree.get_root_hash(), hash(&data[j..j + 1])));
        }
    }
}

#[test]
fn append_starts_new_blocks() {
    let mut tree = MerkleTree::new(&[1, 2, 3, 4, 5], 2).unwrap();
    tree = tree.append(&[6, 7, 8]);
    assert_eq!(tree.leaf_count(), 5);
    assert!(tree.contains(&[5]));
    assert!(tree.contains(&[6, 7]));
    assert!(tree.contains(&[8]));
    assert!(!tree.contains(&[5, 6]));
}

#[test]
fn append_nothing_changes_nothing() {
    let tree = MerkleTree::new(&bytes(7), 2).unwrap();
    let root = tree.get_root_hash();
    let tree = tree.append(&[]);
    assert_eq!(tree.get_root_hash(), root);
    assert_eq!(tree.leaf_count(), 4);
}

#[test]
fn every_block_is_found() {
    let data = bytes(23);
    let tree = MerkleTree::new(&data, 4).unwrap();
    for block in data.chunks(4) {
        assert!(tree.contains(block));
        assert!(tree.contains_hash(&hash(block)));
    }
    assert!(!tree.contains(&data[1..5]));
}
