//! Poseidon hashing over the BN254 scalar field, computed by the Soroban host.
use soroban_poseidon::poseidon_hash;
use soroban_sdk::crypto::bn254::Bn254Fr;
use soroban_sdk::{Bytes, Env, U256};
use vstd::prelude::*;

use crate::field::is_bn254_scalar;

verus! {

/// The Soroban environment: the handle through which host functions, such as
/// the Poseidon permutation, are reached.
#[verifier::external_type_specification]
#[verifier::external_body]
pub struct ExEnv(Env);

/// The Poseidon hash (circomlib's parameters over BN254) of the given field
/// elements, each as 32 big-endian bytes; the result is the output of
/// `U256::to_be_bytes` on the hash.
pub uninterp spec fn poseidon_bn254(inputs: Seq<Seq<u8>>) -> Seq<u8>;

/// Calls `soroban_poseidon::poseidon_hash::<2, Bn254Fr>` on one input.
///
/// Claims: the result is `poseidon_bn254` of the input; the host writes a
/// U256 as exactly 32 bytes; the hash is a canonical field element (the host
/// converts the permutation's output with `into_bigint`). Required: the input
/// is below the field order (`compute_hash` asserts it). Left unsaid: the call
/// also panics when the environment's budget runs out, which no argument shows.
#[verifier::external_body]
pub(crate) fn poseidon1(env: &Env, a: &[u8; 32]) -> (h: std::vec::Vec<u8>)
    requires
        is_bn254_scalar(a@),
    ensures
        h@ == poseidon_bn254(seq![a@]),
        h@.len() == 32,
        is_bn254_scalar(h@),
{
    let a = U256::from_be_bytes(env, &Bytes::from_array(env, a));
    let inputs = soroban_sdk::Vec::from_array(env, [a]);
    poseidon_hash::<2, Bn254Fr>(env, &inputs).to_be_bytes().to_alloc_vec()
}

/// Calls `soroban_poseidon::poseidon_hash::<3, Bn254Fr>` on two inputs, in
/// this order.
///
/// Claims: the result is `poseidon_bn254` of the two inputs; it is exactly
/// 32 bytes and a canonical field element, as for `poseidon1`. Required: both
/// inputs are below the field order. Left unsaid: the call also panics when
/// the environment's budget runs out.
#[verifier::external_body]
pub(crate) fn poseidon2(env: &Env, a: &[u8; 32], b: &[u8; 32]) -> (h: std::vec::Vec<u8>)
    requires
        is_bn254_scalar(a@),
        is_bn254_scalar(b@),
    ensures
        h@ == poseidon_bn254(seq![a@, b@]),
        h@.len() == 32,
        is_bn254_scalar(h@),
{
    let a = U256::from_be_bytes(env, &Bytes::from_array(env, a));
    let b = U256::from_be_bytes(env, &Bytes::from_array(env, b));
    let inputs = soroban_sdk::Vec::from_array(env, [a, b]);
    poseidon_hash::<3, Bn254Fr>(env, &inputs).to_be_bytes().to_alloc_vec()
}

} // verus!
