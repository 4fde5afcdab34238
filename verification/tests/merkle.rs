use merkle::{
    build_merkle_tree, build_proof, get_merkle_proof, hash_pair, leaf_hash,
    leaves_from_addresses, try_build_merkle_tree, MerkleNode,
};
use sha3::{Digest, Keccak256};

fn keccak_hex_reference(s: &str) -> String {
    let digest = Keccak256::digest(s.as_bytes());
    let mut out = String::new();
    for b in digest.as_slice() {
        out += &format!("{:02x}", b);
    }
    out
}

fn addresses(list: &[&str]) -> Vec<String> {
    list.iter().map(|a| a.to_string()).collect()
}

#[test]
fn leaf_hash_matches_keccak256() {
    let h = leaf_hash("0xAAA");
    assert_eq!(h, keccak_hex_reference("0xAAA"));
    assert_ne!(h, "0xAAA");
    assert_eq!(h.len(), 64);
}

#[test]
fn hash_pair_matches_keccak256_of_concatenation() {
    let h1 = leaf_hash("0xAAA");
    let h2 = leaf_hash("0xBBB");
    let parent = hash_pair(&h1, &h2);
    let mut joined = h1.clone();
    joined += &h2;
    assert_eq!(parent, keccak_hex_reference(&joined));
    assert_eq!(parent.len(), 64);
}

#[test]
fn hash_pair_is_order_sensitive() {
    let h1 = leaf_hash("0xAAA");
    let h2 = leaf_hash("0xBBB");
    assert_ne!(hash_pair(&h1, &h2), hash_pair(&h2, &h1));
}

#[test]
fn leaves_carry_the_address_hashes_in_order() {
    let addrs = addresses(&["0xAAA", "0xBBB", "0xCCC"]);
    let leaves = leaves_from_addresses(&addrs);
    assert_eq!(leaves.len(), 3);
    for (leaf, addr) in leaves.iter().zip(addrs.iter()) {
        assert_eq!(leaf.hash, leaf_hash(addr));
        assert!(leaf.left.is_none());
        assert!(leaf.right.is_none());
    }
}

#[test]
fn single_leaf_root_is_the_leaf_hash() {
    let addrs = addresses(&["0xAAA"]);
    let leaves = leaves_from_addresses(&addrs);
    let root = build_merkle_tree(leaves);
    assert_eq!(root.hash, leaf_hash("0xAAA"));
    assert!(root.left.is_none());
    assert!(root.right.is_none());
}

#[test]
fn two_leaf_root_and_proofs() {
    let addrs = addresses(&["0xAAA", "0xBBB"]);
    let h1 = leaf_hash("0xAAA");
    let h2 = leaf_hash("0xBBB");
    let root = build_merkle_tree(leaves_from_addresses(&addrs));
    assert_eq!(root.hash, hash_pair(&h1, &h2));
    assert_eq!(get_merkle_proof(&root, &h1), Some(vec![h2.clone()]));
    assert_eq!(get_merkle_proof(&root, &h2), Some(vec![h1.clone()]));
}

#[test]
fn three_leaf_root_carries_the_odd_leaf() {
    let addrs = addresses(&["0xAAA", "0xBBB", "0xCCC"]);
    let ha = leaf_hash("0xAAA");
    let hb = leaf_hash("0xBBB");
    let hc = leaf_hash("0xCCC");
    let root = build_merkle_tree(leaves_from_addresses(&addrs));
    assert_eq!(root.hash, hash_pair(&hash_pair(&ha, &hb), &hc));
}

#[test]
fn building_twice_gives_the_same_root() {
    let addrs = addresses(&["0x1", "0x2", "0x3", "0x4", "0x5"]);
    let root1 = build_merkle_tree(leaves_from_addresses(&addrs));
    let root2 = build_merkle_tree(leaves_from_addresses(&addrs));
    assert_eq!(root1.hash, root2.hash);
}

#[test]
fn swapping_addresses_changes_the_root() {
    let addrs = addresses(&["0x1", "0x2", "0x3", "0x4"]);
    let swapped = addresses(&["0x2", "0x1", "0x3", "0x4"]);
    let root1 = build_merkle_tree(leaves_from_addresses(&addrs));
    let root2 = build_merkle_tree(leaves_from_addresses(&swapped));
    assert_ne!(root1.hash, root2.hash);
}

#[test]
fn proofs_recompute_the_root_for_every_leaf() {
    // Five leaves: the fifth is carried up twice before pairing.
    let names = ["0x1", "0x2", "0x3", "0x4", "0x5"];
    let addrs = addresses(&names);
    let hashes: Vec<String> = names.iter().map(|a| leaf_hash(a)).collect();
    let root = build_merkle_tree(leaves_from_addresses(&addrs));

    let p12 = hash_pair(&hashes[0], &hashes[1]);
    let p34 = hash_pair(&hashes[2], &hashes[3]);
    let p1234 = hash_pair(&p12, &p34);
    assert_eq!(root.hash, hash_pair(&p1234, &hashes[4]));

    // Leaf 1: sibling on the right at every level.
    let proof = get_merkle_proof(&root, &hashes[0]).unwrap();
    assert_eq!(proof, vec![hashes[1].clone(), p34.clone(), hashes[4].clone()]);
    let mut acc = hashes[0].clone();
    for sibling in &proof {
        acc = hash_pair(&acc, sibling);
    }
    assert_eq!(acc, root.hash);

    // Leaf 4: sibling on the left, then on the right, then on the right.
    let proof = get_merkle_proof(&root, &hashes[3]).unwrap();
    assert_eq!(proof, vec![hashes[2].clone(), p12.clone(), hashes[4].clone()]);
    let step1 = hash_pair(&proof[0], &hashes[3]);
    let step2 = hash_pair(&proof[1], &step1);
    let step3 = hash_pair(&step2, &proof[2]);
    assert_eq!(step3, root.hash);

    // Leaf 5, the carried leaf: one sibling, on the left.
    let proof = get_merkle_proof(&root, &hashes[4]).unwrap();
    assert_eq!(proof, vec![p1234.clone()]);
    assert_eq!(hash_pair(&proof[0], &hashes[4]), root.hash);
}

#[test]
fn absent_target_is_distinguished_from_an_empty_proof() {
    let single = build_merkle_tree(leaves_from_addresses(&addresses(&["0xAAA"])));
    let root_hash = single.hash.clone();
    // Found at the root: an explicit empty proof.
    assert_eq!(get_merkle_proof(&single, &root_hash), Some(vec![]));
    // Absent from the tree: no proof at all.
    let absent = leaf_hash("0xBBB");
    assert_eq!(get_merkle_proof(&single, &absent), None);

    let tree = build_merkle_tree(leaves_from_addresses(&addresses(&["0xAAA", "0xBBB"])));
    let absent = leaf_hash("0xCCC");
    assert_eq!(get_merkle_proof(&tree, &absent), None);
}

#[test]
fn build_proof_appends_to_the_given_buffer() {
    let h1 = leaf_hash("0xAAA");
    let h2 = leaf_hash("0xBBB");
    let root = build_merkle_tree(leaves_from_addresses(&addresses(&["0xAAA", "0xBBB"])));
    let mut out = vec!["seed".to_string()];
    assert!(build_proof(&root, &h1, &mut out));
    assert_eq!(out, vec!["seed".to_string(), h2.clone()]);
    let mut out = vec!["seed".to_string()];
    assert!(!build_proof(&root, &leaf_hash("0xCCC"), &mut out));
    assert_eq!(out, vec!["seed".to_string()]);
}

#[test]
fn empty_leaf_list_is_rejected() {
    assert!(try_build_merkle_tree(Vec::new()).is_none());
    let some = try_build_merkle_tree(leaves_from_addresses(&addresses(&["0xAAA"])));
    assert!(some.is_some());
}

#[test]
fn internal_nodes_hash_their_children() {
    let node = MerkleNode::new(leaf_hash("0xAAA"));
    assert!(node.left.is_none() && node.right.is_none());
    let root = build_merkle_tree(leaves_from_addresses(&addresses(&["0xAAA", "0xBBB"])));
    let left = root.left.as_ref().unwrap();
    let right = root.right.as_ref().unwrap();
    assert_eq!(root.hash, hash_pair(&left.hash, &right.hash));
    assert_eq!(left.hash, leaf_hash("0xAAA"));
    assert_eq!(right.hash, leaf_hash("0xBBB"));
}
