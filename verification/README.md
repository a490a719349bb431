# ip_marketplace

A verified library for two Soroban contracts of an IP marketplace:

- an **IP registry**: listings (owner, IPFS hash, Merkle root) under
  consecutive ids, an index of each owner's listings in the order in which
  they came to it, ownership transfer, updates, removal and paging;
- a **Merkle-root verifier**: the root recorded per listing by its first
  setter, and the check of a Poseidon (BN254, circomlib parameters) Merkle
  inclusion proof against it.

Layout:

- `src/address.rs`: addresses as strkey bytes, compared byte for byte.
- `src/field.rs`: big-endian 32-byte field elements, zero padding, and the
  check against the BN254 scalar field order.
- `src/owner_index.rs`: the owner index and its operations.
- `src/ip_registry.rs`: the registry state, its operations, their contracts
  over a model (listings by id, ids by owner, event log), and its laws.
- `src/poseidon.rs`: the Soroban environment type and the two calls into
  `soroban-poseidon`, the only trusted code of the library.
- `src/zk_verifier.rs`: roots and owners per listing, proof checking, laws.
- `app/`: the two Soroban contracts, unverified: `require_auth`, conversion
  of host types, ledger storage (each contract stores the calls that changed
  its state and rebuilds the library's state from them), time-to-live
  extension of the stored entries, publishing events, contract errors and
  panics.
- `tests/`: behaviour on concrete values, including known Poseidon values.
