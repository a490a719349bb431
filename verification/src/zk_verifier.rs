//! Merkle roots recorded per listing, and the check of a Merkle inclusion
//! proof against them with Poseidon hashing over BN254.
use soroban_sdk::Env;
use std::collections::HashMap;
use vstd::prelude::*;

use crate::address::Address;
use crate::field::{bytes32_equal, bytes_to_field, is_bn254_scalar, left_pad};
use crate::poseidon::{poseidon1, poseidon2, poseidon_bn254};

verus! {

/// One step of a Merkle inclusion path: the sibling's hash, and whether the
/// sibling stands on the left of the node being proved.
#[derive(Clone, Copy, Debug, PartialEq, Eq)]
pub struct ProofNode {
    pub sibling: [u8; 32],
    pub is_left: bool,
}

/// The hash of a node from the hash `current` of one child and the path
/// step that gives the other child.
pub open spec fn merkle_step(current: Seq<u8>, node: ProofNode) -> Seq<u8> {
    if node.is_left {
        poseidon_bn254(seq![node.sibling@, current])
    } else {
        poseidon_bn254(seq![current, node.sibling@])
    }
}

/// The root that `path` leads to from `leaf`: the leaf, read as a field
/// element, is hashed alone, then combined with each sibling in turn.
pub open spec fn path_root(leaf: Seq<u8>, path: Seq<ProofNode>) -> Seq<u8>
    decreases path.len(),
{
    if path.len() == 0 {
        poseidon_bn254(seq![left_pad(leaf)])
    } else {
        merkle_step(path_root(leaf, path.drop_last()), path.last())
    }
}

/// The two inputs of a path step's hash, left first: the sibling and
/// `current` in the order that `node.is_left` gives.
pub fn step_inputs(current: &[u8; 32], node: &ProofNode) -> (inputs: ([u8; 32], [u8; 32]))
    ensures
        inputs == if node.is_left {
            (node.sibling, *current)
        } else {
            (*current, node.sibling)
        },
{
    if node.is_left {
        (node.sibling, *current)
    } else {
        (*current, node.sibling)
    }
}

/// The Merkle roots of listings, and for each listing the address that first
/// set its root and alone may set it again.
pub struct ZkVerifier {
    roots: HashMap<u64, [u8; 32]>,
    owners: HashMap<u64, Address>,
}

impl ZkVerifier {
    /// The recorded Merkle roots, by listing id.
    pub closed spec fn roots(self) -> Map<u64, Seq<u8>> {
        Map::new(|k: u64| self.roots@.contains_key(k), |k: u64| self.roots@[k]@)
    }

    /// The owner of each listing that has a root.
    pub closed spec fn owners(self) -> Map<u64, Seq<u8>> {
        Map::new(|k: u64| self.owners@.contains_key(k), |k: u64| self.owners@[k]@)
    }

    /// `owner` may set the root of `listing_id`: nobody has set it yet, or
    /// `owner` did.
    pub open spec fn may_set_root(self, listing_id: u64, owner: Seq<u8>) -> bool {
        !self.owners().contains_key(listing_id) || self.owners()[listing_id] == owner
    }

    /// `next` is this state once `owner` sets the root of `listing_id` to
    /// `root`: the root is replaced, and the first setter becomes the owner.
    pub open spec fn root_set(self, next: ZkVerifier, owner: Seq<u8>, listing_id: u64, root: Seq<u8>) -> bool {
        &&& next.roots() == self.roots().insert(listing_id, root)
        &&& next.owners() == if self.owners().contains_key(listing_id) {
            self.owners()
        } else {
            self.owners().insert(listing_id, owner)
        }
    }

    /// No roots and no owners.
    pub fn new() -> (v: ZkVerifier)
        ensures
            v.roots() == Map::<u64, Seq<u8>>::empty(),
            v.owners() == Map::<u64, Seq<u8>>::empty(),
    {
        let v = ZkVerifier { roots: HashMap::new(), owners: HashMap::new() };
        assert(v.roots() =~= Map::<u64, Seq<u8>>::empty());
        assert(v.owners() =~= Map::<u64, Seq<u8>>::empty());
        v
    }

    /// Whether `owner` may set the root of `listing_id`.
    pub fn can_set_merkle_root(&self, owner: &Address, listing_id: u64) -> (r: bool)
        ensures
            r == self.may_set_root(listing_id, owner@),
    {
        match self.owners.get(&listing_id) {
            Some(existing) => existing.same_as(owner),
            None => true,
        }
    }

    /// Records `root` as the Merkle root of `listing_id`. The first caller
    /// for a listing becomes its owner; only the owner may set it again.
    /// The caller has authenticated `owner`.
    pub fn set_merkle_root(&mut self, owner: Address, listing_id: u64, root: [u8; 32])
        requires
            old(self).may_set_root(listing_id, owner@),
        ensures
            old(self).root_set(*final(self), owner@, listing_id, root@),
            old(self).set_root_step(
                SetRootCall { owner: owner@, listing_id, root: root@ },
                *final(self),
            ),
    {
        let ghost before = *self;
        if !self.owners.contains_key(&listing_id) {
            self.owners.insert(listing_id, owner);
        }
        self.roots.insert(listing_id, root);
        assert(self.roots() =~= before.roots().insert(listing_id, root@));
        assert(self.owners() =~= if before.owners().contains_key(listing_id) {
            before.owners()
        } else {
            before.owners().insert(listing_id, owner@)
        });
    }

    /// The Merkle root recorded for `listing_id`, if any.
    pub fn get_merkle_root(&self, listing_id: u64) -> (r: Option<[u8; 32]>)
        ensures
            match r {
                Some(root) => self.roots().contains_key(listing_id) && root@ == self.roots()[listing_id],
                None => !self.roots().contains_key(listing_id),
            },
    {
        match self.roots.get(&listing_id) {
            Some(root) => Some(*root),
            None => None,
        }
    }

    /// Whether `computed` is the root recorded for `listing_id`.
    pub fn root_matches(&self, listing_id: u64, computed: &[u8; 32]) -> (r: bool)
        requires
            self.roots().contains_key(listing_id),
        ensures
            r == (computed@ == self.roots()[listing_id]),
    {
        match self.roots.get(&listing_id) {
            Some(root) => bytes32_equal(computed, root),
            None => false,
        }
    }

    /// Checks a Merkle inclusion proof of `leaf` against the root recorded
    /// for `listing_id`, with Poseidon over BN254 as circom computes it: the
    /// leaf, read as a big-endian field element, is hashed alone, and each
    /// step hashes the running node with its sibling. True exactly when the
    /// root reached is the recorded one.
    pub fn verify_partial_proof(
        &self,
        env: &Env,
        listing_id: u64,
        leaf: &Vec<u8>,
        path: &Vec<ProofNode>,
    ) -> (valid: bool)
        requires
            self.roots().contains_key(listing_id),
            leaf.len() <= 32,
            is_bn254_scalar(left_pad(leaf@)),
            forall|i: int| 0 <= i < path.len() ==> is_bn254_scalar(#[trigger] path@[i].sibling@),
        ensures
            valid == (path_root(leaf@, path@) == self.roots()[listing_id]),
    {
        let leaf_fe = bytes_to_field(leaf);
        let hashed = poseidon1(env, &leaf_fe);
        let mut current = bytes_to_field(&hashed);
        assert(current@ =~= hashed@);
        assert(path@.take(0) =~= Seq::<ProofNode>::empty());
        let mut i: usize = 0;
        while i < path.len()
            invariant
                i <= path.len(),
                is_bn254_scalar(current@),
                current@ == path_root(leaf@, path@.take(i as int)),
                forall|j: int| 0 <= j < path.len() ==> is_bn254_scalar(#[trigger] path@[j].sibling@),
            decreases path.len() - i,
        {
            let node = path[i];
            let (left, right) = step_inputs(&current, &node);
            let hashed = poseidon2(env, &left, &right);
            let next = bytes_to_field(&hashed);
            assert(next@ =~= hashed@);
            assert(path@.take(i + 1).drop_last() =~= path@.take(i as int));
            assert(path@.take(i + 1).last() == path@[i as int]);
            current = next;
            i = i + 1;
        }
        assert(path@.take(path.len() as int) =~= path@);
        self.root_matches(listing_id, &current)
    }
}

/// A request to set the root of `listing_id` to `root`, made by `owner`.
pub struct SetRootCall {
    pub owner: Seq<u8>,
    pub listing_id: u64,
    pub root: Seq<u8>,
}

impl ZkVerifier {
    /// `call` takes this state to `next`: when `owner` may set the root it
    /// is set, as `set_merkle_root` does; otherwise the request is refused
    /// (`can_set_merkle_root` is false and the caller fails) and nothing changes.
    pub open spec fn set_root_step(self, call: SetRootCall, next: ZkVerifier) -> bool {
        if self.may_set_root(call.listing_id, call.owner) {
            self.root_set(next, call.owner, call.listing_id, call.root)
        } else {
            next == self
        }
    }
}

/// `states` is a run of the verifier under `calls`: the `k`-th request takes
/// state `k` to state `k + 1`.
pub open spec fn is_verifier_run(states: Seq<ZkVerifier>, calls: Seq<SetRootCall>) -> bool {
    &&& states.len() == calls.len() + 1
    &&& forall|k: int| 0 <= k < calls.len() ==> states[k].set_root_step(#[trigger] calls[k], states[k + 1])
}

/// A listing's owner, once recorded, stays the same through any request,
/// granted or refused.
pub proof fn law_owner_never_changes_in_a_step(
    before: ZkVerifier,
    call: SetRootCall,
    after: ZkVerifier,
    listing_id: u64,
)
    requires
        before.set_root_step(call, after),
        before.owners().contains_key(listing_id),
    ensures
        after.owners().contains_key(listing_id),
        after.owners()[listing_id] == before.owners()[listing_id],
{
}

/// A listing's owner, once recorded, stays the same along any run.
pub proof fn law_owner_never_changes(
    states: Seq<ZkVerifier>,
    calls: Seq<SetRootCall>,
    i: int,
    j: int,
    listing_id: u64,
)
    requires
        is_verifier_run(states, calls),
        0 <= i <= j <= calls.len(),
        states[i].owners().contains_key(listing_id),
    ensures
        states[j].owners().contains_key(listing_id),
        states[j].owners()[listing_id] == states[i].owners()[listing_id],
    decreases j,
{
    if i < j {
        law_owner_never_changes(states, calls, i, j - 1, listing_id);
        assert(states[j - 1].set_root_step(calls[j - 1], states[j]));
    }
}

/// Read after write, across later requests: a root set at request `i`
/// reads back in every later state until a later request for the same
/// listing is granted.
pub proof fn law_root_persists_until_reset(
    states: Seq<ZkVerifier>,
    calls: Seq<SetRootCall>,
    i: int,
    j: int,
)
    requires
        is_verifier_run(states, calls),
        0 <= i < j <= calls.len(),
        states[i].may_set_root(calls[i].listing_id, calls[i].owner),
        forall|k: int|
            i < k < j && (#[trigger] calls[k]).listing_id == calls[i].listing_id ==> !states[k].may_set_root(
                calls[k].listing_id,
                calls[k].owner,
            ),
    ensures
        states[j].roots().contains_key(calls[i].listing_id),
        states[j].roots()[calls[i].listing_id] == calls[i].root,
    decreases j,
{
    if j == i + 1 {
        assert(states[i].set_root_step(calls[i], states[i + 1]));
    } else {
        law_root_persists_until_reset(states, calls, i, j - 1);
        assert(states[j - 1].set_root_step(calls[j - 1], states[j]));
    }
}

/// Every node of a path is hashed in, in order: the root that a path
/// extended by one node leads to is the Poseidon hash of two inputs, the
/// root the shorter path leads to and the node's sibling, the sibling on the
/// left exactly when `is_left`; an empty path leads to the Poseidon hash of
/// the leaf alone, widened to 32 bytes by leading zeros.
pub proof fn law_path_root_hashes_every_node(leaf: Seq<u8>, path: Seq<ProofNode>, node: ProofNode)
    ensures
        path_root(leaf, path.push(node)) == if node.is_left {
            poseidon_bn254(seq![node.sibling@, path_root(leaf, path)])
        } else {
            poseidon_bn254(seq![path_root(leaf, path), node.sibling@])
        },
        leaf.len() <= 32 ==> path_root(leaf, Seq::<ProofNode>::empty()) == poseidon_bn254(
            seq![Seq::new((32 - leaf.len()) as nat, |i: int| 0u8) + leaf],
        ),
{
    assert(path.push(node).drop_last() =~= path);
}

/// Read after write: once a root is set, it is the root of that listing, and
/// the other listings keep theirs.
pub proof fn law_root_read_after_write(
    before: ZkVerifier,
    after: ZkVerifier,
    owner: Seq<u8>,
    listing_id: u64,
    root: Seq<u8>,
    other: u64,
)
    requires
        before.root_set(after, owner, listing_id, root),
    ensures
        after.roots().contains_key(listing_id),
        after.roots()[listing_id] == root,
        other != listing_id ==> after.roots().contains_key(other) == before.roots().contains_key(other)
            && after.roots()[other] == before.roots()[other],
{
}

/// The first address to set a listing's root owns it for good: after any
/// permitted set, the listing's owner is that first setter, and exactly the
/// owner may set the root again.
pub proof fn law_first_setter_owns_listing(
    before: ZkVerifier,
    after: ZkVerifier,
    owner: Seq<u8>,
    listing_id: u64,
    root: Seq<u8>,
    anyone: Seq<u8>,
)
    requires
        before.may_set_root(listing_id, owner),
        before.root_set(after, owner, listing_id, root),
    ensures
        after.owners().contains_key(listing_id),
        after.owners()[listing_id] == owner,
        before.owners().contains_key(listing_id) ==> after.owners()[listing_id]
            == before.owners()[listing_id],
        after.may_set_root(listing_id, anyone) <==> anyone == owner,
{
}

} // verus!
