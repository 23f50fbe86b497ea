use pasta_merkle::field::FieldElem;
use pasta_merkle::hash::{hashp, hashpd, poseidon_hash};
use pasta_merkle::tree::{build_merkle_tree, MerkleError, MerkleTree};

fn fe(x: u64) -> FieldElem {
    FieldElem::from_u64(x)
}

fn node_hash(t: &MerkleTree, level: usize, index: usize) -> FieldElem {
    t.node_at(level, index).unwrap().hash
}

#[test]
fn scenario_four_leaves_then_append() {
    let mut t = MerkleTree::new();
    let leaves = vec![fe(1), fe(2), fe(3), fe(4)];
    t.build_full_merkle_tree(&leaves);

    assert_eq!(t.level_count(), 3);
    assert_eq!(t.leaf_count(), 4);
    for i in 0..4 {
        assert_eq!(node_hash(&t, 0, i), fe(i as u64 + 1));
    }
    let h12 = hashpd(fe(1), fe(2));
    let h34 = hashpd(fe(3), fe(4));
    assert_eq!(node_hash(&t, 1, 0), h12);
    assert_eq!(node_hash(&t, 1, 1), h34);
    let root4 = hashpd(h12, h34);
    assert_eq!(node_hash(&t, 2, 0), root4);
    assert_eq!(t.get_root(), root4);
    assert_eq!(t.get_merkle_root(), root4);

    // Appending 9 must agree with building the five-leaf tree in one shot.
    t.add_one_leaf(fe(9));
    let mut t5 = MerkleTree::new();
    let leaves5 = vec![fe(1), fe(2), fe(3), fe(4), fe(9)];
    t5.build_full_merkle_tree(&leaves5);
    assert_eq!(t.get_root(), t5.get_root());

    // The five-leaf tree's levels, carries included.
    assert_eq!(t5.level_count(), 4);
    assert_eq!(t5.leaf_count(), 5);
    assert_eq!(node_hash(&t5, 1, 0), h12);
    assert_eq!(node_hash(&t5, 1, 1), h34);
    assert_eq!(node_hash(&t5, 1, 2), fe(9)); // trailing carry
    assert_eq!(node_hash(&t5, 2, 0), root4);
    assert_eq!(node_hash(&t5, 2, 1), fe(9)); // trailing carry again
    let root5 = hashpd(root4, fe(9));
    assert_eq!(t5.get_root(), root5);

    // The level-free builder agrees.
    assert_eq!(build_merkle_tree(leaves5), root5);
}

#[test]
fn build_append_equivalence_any_split() {
    let leaves: Vec<FieldElem> = (1..=7).map(fe).collect();
    let mut full = MerkleTree::new();
    full.build_full_merkle_tree(&leaves);
    let expected = full.get_root();

    for k in 0..=leaves.len() {
        let mut t = MerkleTree::new();
        let prefix: Vec<FieldElem> = leaves[..k].to_vec();
        t.build_full_merkle_tree(&prefix);
        for leaf in &leaves[k..] {
            t.add_one_leaf(*leaf);
        }
        assert_eq!(t.get_root(), expected);
        assert_eq!(t.leaf_count(), leaves.len());
    }
}

#[test]
fn determinism_same_leaves_same_tree() {
    let leaves: Vec<FieldElem> = (10..16).map(fe).collect();
    let mut a = MerkleTree::new();
    let mut b = MerkleTree::new();
    a.build_full_merkle_tree(&leaves);
    b.build_full_merkle_tree(&leaves);
    assert_eq!(a.get_root(), b.get_root());
    assert_eq!(a.level_count(), b.level_count());
    for level in 0..a.level_count() {
        let mut index = 0;
        while let Ok(n) = a.node_at(level, index) {
            assert_eq!(n, b.node_at(level, index).unwrap());
            index += 1;
        }
    }
}

#[test]
fn single_leaf_root_is_leaf() {
    let mut t = MerkleTree::new();
    t.build_full_merkle_tree(&vec![fe(42)]);
    assert_eq!(t.get_root(), fe(42));
    assert_eq!(t.level_count(), 1);
    assert_eq!(t.leaf_count(), 1);
    assert_eq!(build_merkle_tree(vec![fe(42)]), fe(42));
}

#[test]
fn odd_carry_keeps_trailing_hash() {
    let mut t = MerkleTree::new();
    t.build_full_merkle_tree(&vec![fe(1), fe(2), fe(3)]);
    let h12 = hashpd(fe(1), fe(2));
    assert_eq!(node_hash(&t, 1, 0), h12);
    assert_eq!(node_hash(&t, 1, 1), fe(3)); // carried, not hashed
    assert_eq!(t.get_root(), hashpd(h12, fe(3)));
}

#[test]
fn node_links_follow_pairing() {
    let mut t = MerkleTree::new();
    t.build_full_merkle_tree(&vec![fe(1), fe(2), fe(3)]);
    let leaf = t.node_at(0, 1).unwrap();
    assert_eq!(leaf.left, None);
    assert_eq!(leaf.right, None);
    let pair = t.node_at(1, 0).unwrap();
    assert_eq!(pair.left, Some(0));
    assert_eq!(pair.right, Some(1));
    let carried = t.node_at(1, 1).unwrap();
    assert_eq!(carried.left, Some(2));
    assert_eq!(carried.right, None);
}

#[test]
fn node_at_out_of_range() {
    let mut t = MerkleTree::new();
    assert_eq!(t.node_at(0, 0), Err(MerkleError::IndexOutOfRange));
    t.build_full_merkle_tree(&vec![fe(1), fe(2)]);
    assert_eq!(t.node_at(0, 2), Err(MerkleError::IndexOutOfRange));
    assert_eq!(t.node_at(2, 0), Err(MerkleError::IndexOutOfRange));
    assert!(t.node_at(1, 0).is_ok());
}

#[test]
fn create_merkle_tree_rejects_empty_batch() {
    let mut t = MerkleTree::new();
    t.build_full_merkle_tree(&vec![fe(5), fe(6)]);
    let before = t.get_root();
    let r = t.create_merkle_tree(&Vec::new());
    assert_eq!(r, Err(MerkleError::InvalidInput));
    // the existing state is left unmodified
    assert_eq!(t.get_root(), before);
    assert_eq!(t.leaf_count(), 2);

    let r = t.create_merkle_tree(&vec![fe(7), fe(8), fe(9)]);
    let root = r.unwrap().hash;
    assert_eq!(root, t.get_root());
    assert_eq!(t.leaf_count(), 3);
}

#[test]
fn clear_resets_to_identity() {
    let mut t = MerkleTree::new();
    t.build_full_merkle_tree(&vec![fe(1), fe(2), fe(3), fe(4)]);
    t.clear_merkle_tree();
    assert_eq!(t.get_root(), FieldElem::zero());
    assert_eq!(t.leaf_count(), 0);
    assert_eq!(t.level_count(), 0);
    let z = t.get_root();
    assert_eq!((z.l0, z.l1, z.l2, z.l3), (0, 0, 0, 0));
}

#[test]
fn isolation_between_contexts() {
    let mut a = MerkleTree::new();
    let mut b = MerkleTree::new();
    a.build_full_merkle_tree(&vec![fe(1), fe(2), fe(3), fe(4)]);
    b.build_full_merkle_tree(&vec![fe(5), fe(6), fe(7), fe(8)]);
    let root_a = a.get_root();
    b.add_one_leaf(fe(10));
    b.clear_merkle_tree();
    assert_eq!(a.get_root(), root_a);
    assert_eq!(a.leaf_count(), 4);
}

#[test]
fn hash_is_deterministic_and_not_identity() {
    let a = fe(1);
    let b = fe(2);
    assert_eq!(hashpd(a, b), hashpd(a, b));
    assert_ne!(hashp(a), a);
    assert_ne!(hashpd(a, b), a);
    assert_ne!(hashpd(a, b), b);
    let v = vec![a, b];
    assert_eq!(poseidon_hash(&v), hashpd(a, b));
    let w = vec![a];
    assert_eq!(poseidon_hash(&w), hashp(a));
}
