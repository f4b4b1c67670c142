use data_structures::merkle_tree::construct_merkle_proof;
use data_structures::merkle_tree::construct_tree;
use data_structures::merkle_tree::verify_merkle_proof;
use data_structures::merkle_tree::MerkleError;
use data_structures::merkle_tree::PADDING_SENTINEL;

#[test]
fn test() {
    let values = vec![1, 3, 8];
    let node = construct_tree(values).unwrap();
    let merkle_proof = construct_merkle_proof(&node, 2).unwrap();
    assert!(verify_merkle_proof(node, 8, 2, merkle_proof));
}

#[test]
fn three_items_scenario() {
    let root = construct_tree(vec![1, 3, 8]).unwrap();
    assert_eq!(root.depth(), 2);
    let proof = construct_merkle_proof(&root, 2).unwrap();
    assert_eq!(proof.len(), 2);
    assert!(verify_merkle_proof(root.clone(), 8, 2, proof.clone()));
    assert!(!verify_merkle_proof(root.clone(), 9, 2, proof.clone()));
    assert!(!verify_merkle_proof(root, 8, 1, proof));
}

#[test]
fn empty_input_is_rejected() {
    assert!(matches!(construct_tree(vec![]), Err(MerkleError::InvalidInput)));
}

#[test]
fn index_past_padded_leaves_is_rejected() {
    let root = construct_tree(vec![1, 3, 8]).unwrap();
    assert_eq!(construct_merkle_proof(&root, 4), Err(MerkleError::IndexOutOfRange));
    assert_eq!(construct_merkle_proof(&root, usize::MAX), Err(MerkleError::IndexOutOfRange));
    assert!(construct_merkle_proof(&root, 3).is_ok());
}

#[test]
fn depth_is_ceiling_log2() {
    let expected = [(1usize, 0usize), (2, 1), (3, 2), (4, 2), (5, 3), (8, 3), (9, 4), (16, 4), (17, 5)];
    for (n, depth) in expected {
        let items: Vec<u64> = (0..n as u64).collect();
        let root = construct_tree(items).unwrap();
        assert_eq!(root.depth(), depth);
        for i in 0..(1usize << depth) {
            assert_eq!(construct_merkle_proof(&root, i).unwrap().len(), depth);
        }
    }
}

#[test]
fn every_leaf_is_proved_including_padding() {
    let items: Vec<u64> = vec![10, 20, 30, 40, 50];
    let root = construct_tree(items.clone()).unwrap();
    for i in 0..8usize {
        let value = if i < items.len() { items[i] } else { PADDING_SENTINEL };
        let proof = construct_merkle_proof(&root, i).unwrap();
        assert!(verify_merkle_proof(root.clone(), value, i, proof));
    }
}

#[test]
fn changing_one_proof_entry_is_rejected() {
    let items: Vec<u64> = vec![5, 6, 7, 8, 9, 10, 11];
    let root = construct_tree(items).unwrap();
    let proof = construct_merkle_proof(&root, 5).unwrap();
    assert!(verify_merkle_proof(root.clone(), 10, 5, proof.clone()));
    for j in 0..proof.len() {
        let mut other = proof.clone();
        other[j] = other[j].wrapping_add(1);
        assert!(!verify_merkle_proof(root.clone(), 10, 5, other));
    }
}

#[test]
fn malformed_proofs_are_rejected() {
    let root = construct_tree(vec![1, 2, 3, 4]).unwrap();
    let proof = construct_merkle_proof(&root, 1).unwrap();
    let mut longer = proof.clone();
    longer.push(0);
    assert!(!verify_merkle_proof(root.clone(), 2, 1, longer));
    assert!(!verify_merkle_proof(root.clone(), 2, 1, proof[..1].to_vec()));
    assert!(!verify_merkle_proof(root.clone(), 2, 5, proof.clone()));
    assert!(verify_merkle_proof(root, 2, 1, proof));
}

#[test]
fn building_is_deterministic() {
    let a = construct_tree(vec![4, 5, 6]).unwrap();
    let b = construct_tree(vec![4, 5, 6]).unwrap();
    assert_eq!(a.hash_value(), b.hash_value());
}

#[test]
fn single_item_tree_is_its_leaf() {
    let root = construct_tree(vec![42]).unwrap();
    assert_eq!(root.depth(), 0);
    let proof = construct_merkle_proof(&root, 0).unwrap();
    assert!(proof.is_empty());
    assert!(verify_merkle_proof(root.clone(), 42, 0, proof.clone()));
    assert!(!verify_merkle_proof(root.clone(), 43, 0, proof));
    assert_eq!(construct_merkle_proof(&root, 1), Err(MerkleError::IndexOutOfRange));
}

#[test]
fn root_depends_on_items_and_their_order() {
    let one = construct_tree(vec![1]).unwrap();
    let two = construct_tree(vec![2]).unwrap();
    assert_ne!(one.hash_value(), two.hash_value());
    assert_ne!(one.hash_value(), 1);
    let ab = construct_tree(vec![1, 2]).unwrap();
    let ba = construct_tree(vec![2, 1]).unwrap();
    assert_ne!(ab.hash_value(), ba.hash_value());
}

#[test]
fn padding_leaf_is_the_sentinel_leaf() {
    let three = construct_tree(vec![1, 3, 8]).unwrap();
    let four = construct_tree(vec![1, 3, 8, PADDING_SENTINEL]).unwrap();
    assert_eq!(three.hash_value(), four.hash_value());
    let four_other = construct_tree(vec![1, 3, 8, 7]).unwrap();
    assert_ne!(three.hash_value(), four_other.hash_value());
}
