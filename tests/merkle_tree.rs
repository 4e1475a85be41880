use merkle_airdrop::{hash_pair, keccak256, MerkleError, MerkleTree};

fn leaf(first: u8, last: u8) -> [u8; 32] {
    let mut v = [0u8; 32];
    v[0] = first;
    v[31] = last;
    v
}

fn h(v: &[u8; 32]) -> [u8; 32] {
    keccak256(v.as_slice())
}

fn fold(start: [u8; 32], proof: &[[u8; 32]]) -> [u8; 32] {
    let mut acc = start;
    for p in proof {
        acc = hash_pair(&acc, p);
    }
    acc
}

fn concat(a: &[u8; 32], b: &[u8; 32]) -> Vec<u8> {
    let mut v = a.to_vec();
    v.extend_from_slice(b);
    v
}

fn four_leaves() -> Vec<[u8; 32]> {
    vec![leaf(0x91, 0x77), leaf(0xca, 0x05), leaf(0x9c, 0xf0), leaf(0x6b, 0xec)]
}

#[test]
fn keccak256_of_empty_input() {
    let expected = hex::decode("c5d2460186f7233c927e7db2dcc703c0e500b653ca82273b7bfad8045d85a470")
        .unwrap();
    assert_eq!(keccak256(&[]).to_vec(), expected);
}

#[test]
fn keccak256_differs_from_its_input() {
    let v = leaf(1, 2);
    assert_ne!(h(&v), v);
    assert_ne!(h(&v), h(&leaf(1, 3)));
}

#[test]
fn hash_pair_is_symmetric() {
    let a = leaf(3, 9);
    let b = leaf(7, 1);
    assert_eq!(hash_pair(&a, &b), hash_pair(&b, &a));
    let c = leaf(3, 10);
    assert_eq!(hash_pair(&a, &c), hash_pair(&c, &a));
}

#[test]
fn hash_pair_puts_smaller_value_first() {
    let small = leaf(0x00, 0xff);
    let big = leaf(0x01, 0x00);
    assert_eq!(hash_pair(&big, &small), keccak256(&concat(&small, &big)));
    assert_ne!(hash_pair(&big, &small), keccak256(&concat(&big, &small)));
}

#[test]
fn hash_pair_compares_whole_array() {
    let a = leaf(5, 1);
    let b = leaf(5, 2);
    assert_eq!(hash_pair(&b, &a), keccak256(&concat(&a, &b)));
}

#[test]
fn hash_pair_of_equal_values() {
    let a = leaf(8, 8);
    assert_eq!(hash_pair(&a, &a), keccak256(&concat(&a, &a)));
}

#[test]
fn empty_input_fails() {
    let r = MerkleTree::new(Vec::new());
    assert!(matches!(r, Err(MerkleError::EmptyInput)));
}

#[test]
fn four_leaves_root_and_length() {
    let l = four_leaves();
    let t = MerkleTree::new(l.clone()).unwrap();
    assert_eq!(t.len(), 7);
    let expected = hash_pair(
        &hash_pair(&h(&l[3]), &h(&l[2])),
        &hash_pair(&h(&l[1]), &h(&l[0])),
    );
    assert_eq!(t.get_root(), Some(expected));
}

#[test]
fn single_leaf_tree() {
    let l0 = leaf(0x42, 0x24);
    let t = MerkleTree::new(vec![l0]).unwrap();
    assert_eq!(t.len(), 1);
    assert_eq!(t.get_root(), Some(h(&l0)));
    assert_eq!(t.get_proof(&l0).unwrap(), Vec::<[u8; 32]>::new());
}

#[test]
fn root_is_deterministic() {
    let a = MerkleTree::new(four_leaves()).unwrap();
    let b = MerkleTree::new(four_leaves()).unwrap();
    assert_eq!(a.get_root(), b.get_root());
    assert!(a.get_root().is_some());
}

#[test]
fn every_proof_folds_to_root() {
    for n in 1..10u8 {
        let leaves: Vec<[u8; 32]> = (0..n).map(|k| leaf(k, 0x55)).collect();
        let t = MerkleTree::new(leaves.clone()).unwrap();
        assert_eq!(t.len(), 2 * n as usize - 1);
        let root = t.get_root().unwrap();
        for l in &leaves {
            let proof = t.get_proof(l).unwrap();
            assert_eq!(fold(h(l), &proof), root);
        }
    }
}

#[test]
fn four_leaves_proof_of_first_leaf() {
    let l = four_leaves();
    let t = MerkleTree::new(l.clone()).unwrap();
    let proof = t.get_proof(&l[0]).unwrap();
    let expected = vec![h(&l[1]), hash_pair(&h(&l[3]), &h(&l[2]))];
    assert_eq!(proof, expected);
}

#[test]
fn unknown_leaf_not_found() {
    let t = MerkleTree::new(four_leaves()).unwrap();
    let r = t.get_proof(&leaf(0x11, 0x11));
    assert!(matches!(r, Err(MerkleError::LeafNotFound)));
}

#[test]
fn hashed_leaf_is_not_a_leaf() {
    let l = four_leaves();
    let t = MerkleTree::new(l.clone()).unwrap();
    let r = t.get_proof(&h(&l[0]));
    assert!(matches!(r, Err(MerkleError::LeafNotFound)));
}

#[test]
fn duplicate_leaf_uses_last_occurrence() {
    let a = leaf(0xaa, 1);
    let b = leaf(0xbb, 2);
    let c = leaf(0xcc, 3);
    let t = MerkleTree::new(vec![a, b, a, c]).unwrap();
    assert_eq!(t.len(), 7);
    let proof = t.get_proof(&a).unwrap();
    // The later `a` sits in slot 4, whose sibling is slot 3, holding `c`.
    assert_eq!(proof, vec![h(&c), hash_pair(&h(&b), &h(&a))]);
    assert_eq!(fold(h(&a), &proof), t.get_root().unwrap());
}

#[test]
fn leaf_order_changes_root() {
    let l0 = leaf(1, 0);
    let l1 = leaf(2, 0);
    let l2 = leaf(3, 0);
    let base = MerkleTree::new(vec![l0, l1, l2]).unwrap().get_root();
    let moved = MerkleTree::new(vec![l2, l1, l0]).unwrap().get_root();
    assert_ne!(base, moved);
    let four = MerkleTree::new(four_leaves()).unwrap().get_root();
    let mut reversed = four_leaves();
    reversed.swap(0, 2);
    assert_ne!(four, MerkleTree::new(reversed).unwrap().get_root());
}

#[test]
fn swapping_paired_leaves_keeps_root() {
    let l0 = leaf(1, 0);
    let l1 = leaf(2, 0);
    let l2 = leaf(3, 0);
    let base = MerkleTree::new(vec![l0, l1, l2]).unwrap().get_root();
    let swapped = MerkleTree::new(vec![l1, l0, l2]).unwrap().get_root();
    assert_eq!(base, swapped);
}
