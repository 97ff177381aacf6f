use merkletreelib::hash::sha256;
use merkletreelib::tree::{verify_proof, Direction};
use merkletreelib::MerkleTree;

fn concat_hash(l: &[u8; 32], r: &[u8; 32]) -> [u8; 32] {
    let mut data = Vec::new();
    data.extend_from_slice(l);
    data.extend_from_slice(r);
    sha256(&data)
}

fn bytes<'a>(values: &[&'a str]) -> Vec<&'a [u8]> {
    values.iter().map(|v| v.as_bytes()).collect()
}

fn tree_of(values: &[&str]) -> MerkleTree {
    MerkleTree::from_bytes(&bytes(values))
}

#[test]
fn sha256_output_has_correct_length() {
    let hash = sha256(b"test");
    assert_eq!(hash.len(), 32);
}

#[test]
fn sha256_is_deterministic() {
    let h1 = sha256(b"data");
    let h2 = sha256(b"data");
    assert_eq!(h1, h2);
}

#[test]
fn sha256_known_value() {
    let hash = sha256(b"abc");
    let expected = [
        0xba, 0x78, 0x16, 0xbf, 0x8f, 0x01, 0xcf, 0xea, 0x41, 0x41, 0x40, 0xde, 0x5d, 0xae, 0x22,
        0x23, 0xb0, 0x03, 0x61, 0xa3, 0x96, 0x17, 0x7a, 0x9c, 0xb4, 0x10, 0xff, 0x61, 0xf2, 0x00,
        0x15, 0xad,
    ];
    assert_eq!(hash, expected);
}

#[test]
fn merkle_tree_is_deterministic() {
    let data = vec!["a", "b", "c", "d"];
    let t1 = tree_of(&data);
    let t2 = tree_of(&data);
    assert_eq!(t1.get_root(), t2.get_root());
}

#[test]
fn empty_input_has_no_root() {
    let data: Vec<&[u8]> = vec![];
    let tree = MerkleTree::from_bytes(&data);
    assert!(tree.get_root().is_none());
}

#[test]
fn single_element_tree() {
    let data: Vec<&[u8]> = vec![&[42u8]];
    let tree = MerkleTree::from_bytes(&data);
    let expected = sha256(&[42u8]);
    assert_eq!(tree.get_root(), Some(&expected));
}

#[test]
fn multiple_elements_tree_has_root() {
    let data: Vec<&[u8]> = vec![&[1], &[2], &[3], &[4]];
    let tree = MerkleTree::from_bytes(&data);
    assert!(tree.get_root().is_some());
}

#[test]
fn odd_number_of_elements_is_supported() {
    let data: Vec<&[u8]> = vec![&[1], &[2], &[3]];
    let tree = MerkleTree::from_bytes(&data);
    assert!(tree.get_root().is_some());
}

#[test]
fn changing_inputs_changes_root() {
    let base = tree_of(&["a", "b", "c"]);
    assert_ne!(base.get_root(), tree_of(&["c", "b", "a"]).get_root());
    assert_ne!(base.get_root(), tree_of(&["a", "b", "d"]).get_root());
    assert_ne!(base.get_root(), tree_of(&["a", "b"]).get_root());
}

#[test]
fn generate_and_verify_proof_for_each_leaf() {
    let data = vec!["a", "b", "c", "d"];
    let tree = tree_of(&data);
    let root = *tree.get_root().unwrap();
    for value in &data {
        let leaf_hash = sha256(value.as_bytes());
        let proof = tree.generate_proof(&leaf_hash).unwrap();
        assert!(verify_proof(leaf_hash, &proof, root));
    }
}

#[test]
fn proof_for_non_existing_leaf_fails() {
    let values: Vec<&str> = vec!["a", "b", "c"];
    let tree = tree_of(&values);
    let fake_hash = sha256("z".as_bytes());
    let proof = tree.generate_proof(&fake_hash);
    assert!(proof.is_none());
}

#[test]
fn odd_number_of_leaves_padding_case() {
    let values: Vec<&str> = vec!["a", "b", "c"];
    let tree = tree_of(&values);
    let leaf_hash = sha256("c".as_bytes());
    let proof = tree.generate_proof(&leaf_hash).unwrap();
    let root = *tree.get_root().unwrap();
    assert!(verify_proof(leaf_hash, &proof, root));
}

#[test]
fn single_element_has_empty_proof() {
    let values: Vec<&str> = vec!["only"];
    let tree = tree_of(&values);
    let leaf_hash = sha256("only".as_bytes());
    let proof = tree.generate_proof(&leaf_hash).unwrap();
    let root = *tree.get_root().unwrap();
    assert!(proof.is_empty());
    assert!(verify_proof(leaf_hash, &proof, root));
}

#[test]
fn empty_tree_has_no_root_and_no_proofs() {
    let tree = MerkleTree::from_bytes(&[]);
    assert!(tree.get_root().is_none());
    assert!(tree.generate_proof(&[0u8; 32]).is_none());
}

#[test]
fn verify_proof_accepts_valid_single_step_proof() {
    let leaf = sha256("a".as_bytes());
    let sibling = sha256("b".as_bytes());
    let mut data = Vec::new();
    data.extend_from_slice(&leaf);
    data.extend_from_slice(&sibling);
    let root = sha256(&data);
    let proof = vec![(sibling, Direction::Right)];
    assert!(verify_proof(leaf, &proof, root));
}

#[test]
fn verify_proof_fails_if_sibling_hash_is_wrong() {
    let leaf = sha256("a".as_bytes());
    let correct_sibling = sha256("b".as_bytes());
    let wrong_sibling = sha256("x".as_bytes());
    let mut data = Vec::new();
    data.extend_from_slice(&leaf);
    data.extend_from_slice(&correct_sibling);
    let root = sha256(&data);
    let proof = vec![(wrong_sibling, Direction::Right)];
    assert!(!verify_proof(leaf, &proof, root));
}

#[test]
fn verify_proof_fails_if_direction_is_wrong() {
    let leaf = sha256("a".as_bytes());
    let sibling = sha256("b".as_bytes());
    let mut data = Vec::new();
    data.extend_from_slice(&leaf);
    data.extend_from_slice(&sibling);
    let root = sha256(&data);
    let proof = vec![(sibling, Direction::Left)];
    assert!(!verify_proof(leaf, &proof, root));
}

#[test]
fn verify_proof_empty_is_valid_only_when_leaf_equals_root() {
    let leaf = sha256("a".as_bytes());
    let other = sha256("x".as_bytes());
    assert!(verify_proof(leaf, &[], leaf));
    assert!(!verify_proof(leaf, &[], other));
}

#[test]
fn push_produces_same_root_as_from_bytes() {
    let values = vec!["a", "b", "c", "d"];
    let direct_tree = tree_of(&values);
    let mut pushed_tree = MerkleTree::from_bytes(&[]);
    for v in &values {
        pushed_tree.push(v.as_bytes());
    }
    assert_eq!(direct_tree.get_root(), pushed_tree.get_root());
}

#[test]
fn push_changes_root_and_invalidates_old_proof() {
    let mut tree = tree_of(&["a", "b"]);
    let leaf_hash = sha256("a".as_bytes());
    let proof = tree.generate_proof(&leaf_hash).unwrap();
    let old_root: [u8; 32] = *tree.get_root().unwrap();
    tree.push("c".as_bytes());
    let new_root: [u8; 32] = *tree.get_root().unwrap();
    assert_ne!(old_root, new_root);
    assert!(!verify_proof(leaf_hash, &proof, new_root));
}

#[test]
fn merkle_tree_end_to_end_flow() {
    let data = vec!["a", "b", "c"];
    let mut tree = tree_of(&data);
    let leaf_hash = sha256("b".as_bytes());
    let proof = tree.generate_proof(&leaf_hash).unwrap();
    let root_before = *tree.get_root().unwrap();
    assert!(verify_proof(leaf_hash, &proof, root_before));
    tree.push("d".as_bytes());
    let root_after = *tree.get_root().unwrap();
    assert_ne!(root_before, root_after);
    assert!(!verify_proof(leaf_hash, &proof, root_after));
}

#[test]
fn three_leaves_duplicate_the_last() {
    let tree = tree_of(&["a", "b", "c"]);
    let (ha, hb, hc) = (sha256(b"a"), sha256(b"b"), sha256(b"c"));
    let expected = concat_hash(&concat_hash(&ha, &hb), &concat_hash(&hc, &hc));
    assert_eq!(tree.get_root(), Some(&expected));
}

#[test]
fn single_a_root_is_known_sha256_value() {
    let tree = tree_of(&["a"]);
    let expected: [u8; 32] = [
        0xca, 0x97, 0x81, 0x12, 0xca, 0x1b, 0xbd, 0xca, 0xfa, 0xc2, 0x31, 0xb3, 0x9a, 0x23, 0xdc,
        0x4d, 0xa7, 0x86, 0xef, 0xf8, 0x14, 0x7c, 0x4e, 0x72, 0xb9, 0x80, 0x77, 0x85, 0xaf, 0xee,
        0x48, 0xbb,
    ];
    assert_eq!(tree.get_root(), Some(&expected));
}

#[test]
fn two_leaves_root_is_hash_of_concatenation() {
    let tree = tree_of(&["a", "b"]);
    let expected = concat_hash(&sha256(b"a"), &sha256(b"b"));
    assert_eq!(tree.get_root(), Some(&expected));
}

#[test]
fn proof_for_third_of_three_has_exact_steps() {
    let tree = tree_of(&["a", "b", "c"]);
    let (ha, hb, hc) = (sha256(b"a"), sha256(b"b"), sha256(b"c"));
    let proof = tree.generate_proof(&hc).unwrap();
    assert_eq!(proof.len(), 2);
    assert_eq!(proof[0].0, hc);
    assert_eq!(proof[0].1, Direction::Right);
    assert_eq!(proof[1].0, concat_hash(&ha, &hb));
    assert_eq!(proof[1].1, Direction::Left);
}

#[test]
fn duplicate_values_prove_the_first_leaf() {
    let tree = tree_of(&["x", "y", "x", "z"]);
    let (hx, hy, hz) = (sha256(b"x"), sha256(b"y"), sha256(b"z"));
    let proof = tree.generate_proof(&hx).unwrap();
    assert_eq!(proof.len(), 2);
    assert_eq!(proof[0], (hy, Direction::Right));
    assert_eq!(proof[1], (concat_hash(&hx, &hz), Direction::Right));
}

#[test]
fn proof_length_is_number_of_levels() {
    let values = ["a", "b", "c", "d", "e"];
    let tree = tree_of(&values);
    let root = *tree.get_root().unwrap();
    for v in &values {
        let leaf = sha256(v.as_bytes());
        let proof = tree.generate_proof(&leaf).unwrap();
        assert_eq!(proof.len(), 3);
        assert!(verify_proof(leaf, &proof, root));
    }
}

#[test]
fn tampered_proofs_are_rejected() {
    let tree = tree_of(&["a", "b", "c", "d"]);
    let root = *tree.get_root().unwrap();
    let leaf = sha256(b"c");
    let proof = tree.generate_proof(&leaf).unwrap();
    assert!(verify_proof(leaf, &proof, root));
    for step in 0..proof.len() {
        for byte in 0..32 {
            let mut bad = proof.clone();
            bad[step].0[byte] ^= 0x01;
            assert!(!verify_proof(leaf, &bad, root));
        }
        let mut flipped = proof.clone();
        flipped[step].1 = match flipped[step].1 {
            Direction::Left => Direction::Right,
            Direction::Right => Direction::Left,
        };
        assert!(!verify_proof(leaf, &flipped, root));
    }
    let wrong_root = sha256(b"not the root");
    assert!(!verify_proof(leaf, &proof, wrong_root));
}

#[test]
fn push_onto_empty_tree_gives_single_leaf_root() {
    let mut tree = MerkleTree::from_bytes(&[]);
    tree.push(b"v");
    assert_eq!(tree.get_root(), Some(&sha256(b"v")));
    let proof = tree.generate_proof(&sha256(b"v")).unwrap();
    assert!(proof.is_empty());
}
