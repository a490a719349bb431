use ip_marketplace::address::Address;
use ip_marketplace::field::bytes_to_field;
use ip_marketplace::zk_verifier::{step_inputs, ProofNode, ZkVerifier};
use soroban_poseidon::poseidon_hash;
use soroban_sdk::crypto::bn254::Bn254Fr;
use soroban_sdk::{Bytes, Env, U256};

fn addr(name: &str) -> Address {
    Address::from_strkey(name.as_bytes().to_vec())
}

fn hash_of(env: &Env, inputs: &[[u8; 32]]) -> [u8; 32] {
    let mut values = soroban_sdk::Vec::new(env);
    for input in inputs {
        values.push_back(U256::from_be_bytes(env, &Bytes::from_array(env, input)));
    }
    let h = match inputs.len() {
        1 => poseidon_hash::<2, Bn254Fr>(env, &values),
        _ => poseidon_hash::<3, Bn254Fr>(env, &values),
    };
    let mut out = [0u8; 32];
    h.to_be_bytes().copy_into_slice(&mut out);
    out
}

fn hex32(s: &str) -> [u8; 32] {
    let mut out = [0u8; 32];
    for i in 0..32 {
        out[i] = u8::from_str_radix(&s[2 * i..2 * i + 2], 16).unwrap();
    }
    out
}

#[test]
fn single_leaf_root_is_circoms_poseidon_of_the_leaf() {
    let env = Env::default();
    let mut verifier = ZkVerifier::new();
    // circomlib: Poseidon([1]) over BN254.
    let root = hex32("29176100eaa962bdc1fe6c654d6a3c130e96a4d1168b33848b897dc502820133");
    verifier.set_merkle_root(addr("GA"), 3, root);
    assert!(verifier.verify_partial_proof(&env, 3, &vec![1u8], &Vec::new()));
    assert!(verifier.verify_partial_proof(&env, 3, &vec![0u8, 0u8, 1u8], &Vec::new()));
    assert!(!verifier.verify_partial_proof(&env, 3, &vec![2u8], &Vec::new()));
}

#[test]
fn the_leaf_is_hashed_before_comparing() {
    let env = Env::default();
    let mut verifier = ZkVerifier::new();
    let leaf = b"plain".to_vec();
    verifier.set_merkle_root(addr("GA"), 1, bytes_to_field(&leaf));
    assert!(!verifier.verify_partial_proof(&env, 1, &leaf, &Vec::new()));
}

#[test]
fn siblings_are_combined_on_the_side_the_path_gives() {
    let env = Env::default();
    let mut verifier = ZkVerifier::new();
    let leaf0 = b"leaf_zero".to_vec();
    let leaf1 = b"leaf_one".to_vec();
    let h0 = hash_of(&env, &[bytes_to_field(&leaf0)]);
    let h1 = hash_of(&env, &[bytes_to_field(&leaf1)]);
    let root = hash_of(&env, &[h0, h1]);
    verifier.set_merkle_root(addr("GA"), 2, root);

    assert!(!verifier.verify_partial_proof(&env, 2, &leaf0, &vec![ProofNode { sibling: h1, is_left: true }]));
    assert!(!verifier.verify_partial_proof(&env, 2, &leaf1, &vec![ProofNode { sibling: h0, is_left: false }]));
    assert!(!verifier.verify_partial_proof(&env, 2, &leaf0, &vec![ProofNode { sibling: h0, is_left: false }]));
    assert!(verifier.verify_partial_proof(&env, 2, &leaf0, &vec![ProofNode { sibling: h1, is_left: false }]));
}

#[test]
fn a_three_level_path_reaches_the_root() {
    let env = Env::default();
    let mut verifier = ZkVerifier::new();
    let leaves: Vec<Vec<u8>> = (0u8..4).map(|i| vec![b'L', i]).collect();
    let h: Vec<[u8; 32]> = leaves.iter().map(|l| hash_of(&env, &[bytes_to_field(l)])).collect();
    let n01 = hash_of(&env, &[h[0], h[1]]);
    let n23 = hash_of(&env, &[h[2], h[3]]);
    let root = hash_of(&env, &[n01, n23]);
    verifier.set_merkle_root(addr("GA"), 8, root);

    let path2 = vec![ProofNode { sibling: h[3], is_left: false }, ProofNode { sibling: n01, is_left: true }];
    assert!(verifier.verify_partial_proof(&env, 8, &leaves[2], &path2));
    let path1 = vec![ProofNode { sibling: h[0], is_left: true }, ProofNode { sibling: n23, is_left: false }];
    assert!(verifier.verify_partial_proof(&env, 8, &leaves[1], &path1));
    assert!(!verifier.verify_partial_proof(&env, 8, &leaves[0], &path1));
    assert!(!verifier.verify_partial_proof(&env, 8, &leaves[1], &path1[..1].to_vec()));
}

#[test]
fn the_first_setter_owns_the_root() {
    let mut verifier = ZkVerifier::new();
    let a = addr("GA");
    let b = addr("GB");
    assert!(verifier.can_set_merkle_root(&a, 1));
    assert!(verifier.can_set_merkle_root(&b, 1));
    verifier.set_merkle_root(a.clone(), 1, [1u8; 32]);
    assert!(verifier.can_set_merkle_root(&a, 1));
    assert!(!verifier.can_set_merkle_root(&b, 1));
    assert!(verifier.can_set_merkle_root(&b, 2));
    verifier.set_merkle_root(a.clone(), 1, [2u8; 32]);
    assert_eq!(verifier.get_merkle_root(1), Some([2u8; 32]));
    assert!(!verifier.can_set_merkle_root(&b, 1));
    verifier.set_merkle_root(b.clone(), 2, [3u8; 32]);
    assert_eq!(verifier.get_merkle_root(1), Some([2u8; 32]));
    assert_eq!(verifier.get_merkle_root(2), Some([3u8; 32]));
    assert_eq!(verifier.get_merkle_root(3), None);
}

#[test]
fn roots_match_only_byte_for_byte() {
    let mut verifier = ZkVerifier::new();
    let mut root = [0u8; 32];
    root[31] = 9;
    verifier.set_merkle_root(addr("GA"), 4, root);
    assert!(verifier.root_matches(4, &root));
    let mut other = root;
    other[0] = 1;
    assert!(!verifier.root_matches(4, &other));
}

#[test]
fn step_inputs_put_the_sibling_on_its_side() {
    let current = [7u8; 32];
    let sibling = [9u8; 32];
    assert_eq!(step_inputs(&current, &ProofNode { sibling, is_left: true }), (sibling, current));
    assert_eq!(step_inputs(&current, &ProofNode { sibling, is_left: false }), (current, sibling));
}

#[test]
fn each_step_hashes_its_two_inputs() {
    let env = Env::default();
    let mut verifier = ZkVerifier::new();
    let leaf0 = b"leaf_zero".to_vec();
    let leaf1 = b"leaf_one".to_vec();
    let h0 = hash_of(&env, &[bytes_to_field(&leaf0)]);
    let h1 = hash_of(&env, &[bytes_to_field(&leaf1)]);
    // Neither input alone is the node's hash.
    verifier.set_merkle_root(addr("GA"), 5, h0);
    assert!(!verifier.verify_partial_proof(&env, 5, &leaf0, &vec![ProofNode { sibling: h1, is_left: false }]));
    verifier.set_merkle_root(addr("GA"), 5, h1);
    assert!(!verifier.verify_partial_proof(&env, 5, &leaf0, &vec![ProofNode { sibling: h1, is_left: false }]));
}

#[test]
fn a_root_reads_back_across_other_listings_and_refused_requests() {
    let mut verifier = ZkVerifier::new();
    let a = addr("GA");
    let b = addr("GB");
    verifier.set_merkle_root(a.clone(), 1, [1u8; 32]);
    verifier.set_merkle_root(b.clone(), 2, [2u8; 32]);
    verifier.set_merkle_root(a.clone(), 3, [3u8; 32]);
    assert!(!verifier.can_set_merkle_root(&b, 1));
    verifier.set_merkle_root(b.clone(), 2, [4u8; 32]);
    assert_eq!(verifier.get_merkle_root(1), Some([1u8; 32]));
    assert_eq!(verifier.get_merkle_root(2), Some([4u8; 32]));
    assert!(verifier.can_set_merkle_root(&a, 1));
    assert!(!verifier.can_set_merkle_root(&a, 2));
}
