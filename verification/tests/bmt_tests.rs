use chain_demo::bloom::{BloomFilter, SeededBloomFilter};
use chain_demo::bmt::{BloomMerkleTree, BMT_BLOOM_CAPACITY, BMT_BLOOM_FP_NUM, BMT_BLOOM_FP_DEN};
use chain_demo::digest::{hash_leaf, hash_nodes, HashAlgo};

fn bytes(s: &str) -> Vec<u8> {
    s.as_bytes().to_vec()
}

#[test]
fn test_from_str_vec() {
    let values = vec![bytes("one"), bytes("two"), bytes("three"), bytes("four")];

    let hashes: Vec<Vec<u8>> = values
        .iter()
        .map(|v| hash_leaf(HashAlgo::Sha512, v))
        .collect();

    let count = values.len();
    let tree = BloomMerkleTree::from_vec(HashAlgo::Sha512, values).unwrap();

    let mut bf01 = SeededBloomFilter::new(BMT_BLOOM_CAPACITY, BMT_BLOOM_FP_NUM, BMT_BLOOM_FP_DEN).unwrap();
    bf01.insert(&hashes[0]);
    bf01.insert(&hashes[1]);

    let mut bf23 = SeededBloomFilter::new(BMT_BLOOM_CAPACITY, BMT_BLOOM_FP_NUM, BMT_BLOOM_FP_DEN).unwrap();
    bf23.insert(&hashes[2]);
    bf23.insert(&hashes[3]);

    let h01 = hash_nodes(HashAlgo::Sha512, &hashes[0], &hashes[1], &bf01.to_bytes());
    let h23 = hash_nodes(HashAlgo::Sha512, &hashes[2], &hashes[3], &bf23.to_bytes());

    let bf_root = bf01.union(&bf23).unwrap();
    let root_hash = hash_nodes(HashAlgo::Sha512, &h01, &h23, &bf_root.to_bytes());

    assert_eq!(tree.count(), count);
    assert_eq!(tree.height(), 2);
    assert_eq!(tree.root_hash().as_slice(), root_hash.as_slice());
}

#[test]
fn test_bloom_contains() {
    let values = vec![bytes("one"), bytes("two"), bytes("three"), bytes("four")];

    let hashes: Vec<Vec<u8>> = values
        .iter()
        .map(|v| hash_leaf(HashAlgo::Sha512, v))
        .collect();

    let tree = BloomMerkleTree::from_vec(HashAlgo::Sha512, values).unwrap();
    assert_eq!(tree.contains(hashes[0].clone()), true);
}

#[test]
fn test_valid_proof() {
    let values: Vec<Vec<u8>> = (1u8..10).map(|x| vec![x]).collect();
    let tree = BloomMerkleTree::from_vec(HashAlgo::Sha512, values.clone()).unwrap();
    let root_hash = tree.root_hash().clone();

    for value in values {
        let proof = tree.gen_proof(value);
        let is_valid = proof.map(|p| p.validate(&root_hash)).unwrap_or(false);
        assert!(is_valid);
    }
}

#[test]
fn test_wrong_proof() {
    let values1: Vec<Vec<u8>> = vec![vec![1], vec![2], vec![3], vec![4]];
    let tree1 = BloomMerkleTree::from_vec(HashAlgo::Sha512, values1.clone()).unwrap();

    let values2: Vec<Vec<u8>> = vec![vec![4], vec![5], vec![6], vec![7]];
    let tree2 = BloomMerkleTree::from_vec(HashAlgo::Sha512, values2).unwrap();

    let root_hash = tree2.root_hash().clone();

    for value in values1 {
        let proof = tree1.gen_proof(value);
        let is_valid = proof.map(|p| p.validate(&root_hash)).unwrap_or(false);
        assert_eq!(is_valid, false);
    }
}

#[test]
fn test_tree_iter() {
    let values: Vec<Vec<u8>> = (1u8..10).map(|x| vec![x]).collect();
    let tree = BloomMerkleTree::from_vec(HashAlgo::Sha512, values.clone()).unwrap();
    let iter = tree.iter();
    assert_eq!(values, iter);
}

#[test]
fn absent_hash_reported_absent() {
    let values = vec![bytes("one"), bytes("two"), bytes("three"), bytes("four")];
    let tree = BloomMerkleTree::from_vec(HashAlgo::Sha512, values).unwrap();
    let stranger: Vec<u8> = (0u8..32).map(|x| x.wrapping_mul(97).wrapping_add(13)).collect();
    assert_eq!(tree.contains(stranger), false);
}

#[test]
fn proof_for_absent_value_never_validates() {
    let values = vec![bytes("one"), bytes("two"), bytes("three"), bytes("four")];
    let tree = BloomMerkleTree::from_vec(HashAlgo::Sha512, values).unwrap();
    let root = tree.root_hash().clone();
    match tree.gen_proof(bytes("five")) {
        Some(p) => assert_eq!(p.validate(&root), false),
        None => {}
    }
}

#[test]
fn empty_tree_has_empty_hash_root() {
    let tree = BloomMerkleTree::from_vec(HashAlgo::Sha512, Vec::new()).unwrap();
    assert_eq!(tree.count(), 0);
    assert!(tree.is_empty());
    assert_eq!(tree.height(), 0);
    let empty_hash = chain_demo::digest::hash_empty(HashAlgo::Sha512);
    assert_eq!(tree.root_hash().as_slice(), empty_hash.as_slice());
}
