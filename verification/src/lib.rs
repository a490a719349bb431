//! Verified logic of an IP marketplace on Soroban: a registry of IP listings
//! and a Merkle-root verifier with Poseidon inclusion proofs.

pub mod address;
pub mod field;
pub mod ip_registry;
mod owner_index;
pub mod poseidon;
pub mod zk_verifier;
