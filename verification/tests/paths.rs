use pasta_merkle::field::FieldElem;
use pasta_merkle::hash::hashpd;
use pasta_merkle::tree::MerkleTree;

fn fe(x: u64) -> FieldElem {
    FieldElem::from_u64(x)
}

#[test]
fn path_lengths_even_and_odd() {
    // Four leaves: height 2, every level evenly paired: exactly 2 * h.
    let mut t = MerkleTree::new();
    t.build_full_merkle_tree(&vec![fe(1), fe(2), fe(3), fe(4)]);
    for i in 0..4 {
        assert_eq!(t.get_merkle_path_impl(i).len(), 4);
    }

    // Three leaves: height 2; the carried leaf's path is shorter.
    let mut t3 = MerkleTree::new();
    t3.build_full_merkle_tree(&vec![fe(1), fe(2), fe(3)]);
    assert_eq!(t3.get_merkle_path_impl(0).len(), 4);
    assert_eq!(t3.get_merkle_path_impl(1).len(), 4);
    assert_eq!(t3.get_merkle_path_impl(2).len(), 3);
}

#[test]
fn path_replay_reproduces_root() {
    let leaves = vec![fe(1), fe(2), fe(3), fe(4)];
    let mut t = MerkleTree::new();
    t.build_full_merkle_tree(&leaves);
    let root = t.get_root();
    for i in 0..4 {
        let p = t.get_merkle_path_impl(i);
        assert_eq!(p.len(), 4);
        // level 0 pair holds the leaf itself
        assert!(p[0] == leaves[i] || p[1] == leaves[i]);
        let up = hashpd(p[0], p[1]);
        // the recomputed ancestor reappears in the next pair
        assert!(p[2] == up || p[3] == up);
        assert_eq!(hashpd(p[2], p[3]), root);
    }
}

#[test]
fn path_of_carried_leaf() {
    // Five leaves: leaf 4 is carried twice, then paired at the top.
    let leaves = vec![fe(1), fe(2), fe(3), fe(4), fe(9)];
    let mut t = MerkleTree::new();
    t.build_full_merkle_tree(&leaves);
    let h12 = hashpd(fe(1), fe(2));
    let h34 = hashpd(fe(3), fe(4));
    let root4 = hashpd(h12, h34);
    let p = t.get_merkle_path_impl(4);
    // two carried levels emit one element each, the top pair emits two
    assert_eq!(p.len(), 4);
    assert_eq!(p[0], fe(9));
    assert_eq!(p[1], fe(9));
    assert_eq!(p[2], root4);
    assert_eq!(p[3], fe(9));
    assert_eq!(hashpd(p[2], p[3]), t.get_root());
}

#[test]
fn path_order_matches_pair_order() {
    let leaves = vec![fe(1), fe(2), fe(3), fe(4)];
    let mut t = MerkleTree::new();
    t.build_full_merkle_tree(&leaves);
    let h12 = hashpd(fe(1), fe(2));
    let h34 = hashpd(fe(3), fe(4));
    // leaf 0 is the left of its pair: self then sibling
    assert_eq!(t.get_merkle_path_impl(0)[..2], [fe(1), fe(2)]);
    // leaf 1 is the right of its pair: sibling then self
    assert_eq!(t.get_merkle_path_impl(1)[..2], [fe(1), fe(2)]);
    assert_eq!(t.get_merkle_path_impl(3)[..2], [fe(3), fe(4)]);
    // at level 1, leaf 3's ancestor is the right of its pair
    assert_eq!(t.get_merkle_path_impl(3)[2..], [h12, h34]);
}

#[test]
fn path_truncation_policy() {
    let mut empty = MerkleTree::new();
    assert_eq!(empty.get_merkle_path_impl(0).len(), 0);

    let mut t = MerkleTree::new();
    t.build_full_merkle_tree(&vec![fe(1), fe(2), fe(3), fe(4)]);
    // a leaf index beyond the leaf count ends extraction at once
    assert_eq!(t.get_merkle_path_impl(4).len(), 0);
    assert_eq!(t.get_merkle_path_impl(100).len(), 0);
}

#[test]
fn path_with_capacity_truncates_and_reports() {
    let mut t = MerkleTree::new();
    t.build_full_merkle_tree(&vec![fe(1), fe(2), fe(3), fe(4)]);
    let full = t.get_merkle_path_impl(0);

    let (out, total) = t.get_merkle_path(0, 2);
    assert_eq!(total, 4); // the required length is reported
    assert_eq!(out.len(), 2); // only what fits is copied
    assert_eq!(out[..], full[..2]);

    let (out, total) = t.get_merkle_path(0, 100);
    assert_eq!(total, 4);
    assert_eq!(out[..], full[..]);

    let (out, total) = t.get_merkle_path(0, 0);
    assert_eq!(total, 4);
    assert_eq!(out.len(), 0);
}
