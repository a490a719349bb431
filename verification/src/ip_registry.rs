//! A registry of intellectual-property listings: each listing has an owner,
//! an IPFS hash and a Merkle root, and an index keeps, for each owner, the
//! ids of the listings it holds in the order in which they came to it.
use std::collections::HashMap;
use vstd::prelude::*;

use crate::address::{copy_bytes, Address};
use crate::owner_index::{
    law_without_id_keeps_order, lemma_without_id_contains, lemma_without_id_drops_one,
    lemma_without_id_no_duplicates, without_id, OwnerIndex,
};

verus! {

/// Why the registry refused a request.
#[derive(Copy, Clone, Debug, PartialEq, Eq, Structural)]
pub enum ContractError {
    /// An IPFS hash or a Merkle root was empty.
    InvalidInput,
    /// The listing counter is at its largest value: no id is left.
    CounterOverflow,
    /// The caller is not the listing's owner.
    Unauthorized,
    /// No listing has the given id.
    ListingNotFound,
}

impl ContractError {
    /// The error's number on the wire.
    pub fn code(&self) -> (c: u32)
        ensures
            c == match *self {
                ContractError::InvalidInput => 1u32,
                ContractError::CounterOverflow => 2u32,
                ContractError::Unauthorized => 3u32,
                ContractError::ListingNotFound => 4u32,
            },
    {
        match self {
            ContractError::InvalidInput => 1,
            ContractError::CounterOverflow => 2,
            ContractError::Unauthorized => 3,
            ContractError::ListingNotFound => 4,
        }
    }
}

/// A registered listing.
#[derive(Clone, Debug, PartialEq, Eq)]
pub struct Listing {
    pub owner: Address,
    pub ipfs_hash: Vec<u8>,
    pub merkle_root: Vec<u8>,
}

/// What a listing holds, as byte sequences.
#[verifier::ext_equal]
pub struct ListingView {
    pub owner: Seq<u8>,
    pub ipfs_hash: Seq<u8>,
    pub merkle_root: Seq<u8>,
}

impl View for Listing {
    type V = ListingView;

    open spec fn view(&self) -> ListingView {
        ListingView { owner: self.owner@, ipfs_hash: self.ipfs_hash@, merkle_root: self.merkle_root@ }
    }
}

impl Listing {
    /// A copy of this listing.
    pub fn duplicate(&self) -> (l: Listing)
        ensures
            l@ == self@,
    {
        Listing {
            owner: self.owner.duplicate(),
            ipfs_hash: copy_bytes(&self.ipfs_hash),
            merkle_root: copy_bytes(&self.merkle_root),
        }
    }
}

/// Published when a new listing is registered.
#[derive(Clone, Debug, PartialEq, Eq)]
pub struct IpRegistered {
    pub listing_id: u64,
    pub owner: Address,
    pub ipfs_hash: Vec<u8>,
    pub merkle_root: Vec<u8>,
}

/// Published when a listing's hashes are replaced.
#[derive(Clone, Debug, PartialEq, Eq)]
pub struct ListingUpdated {
    pub listing_id: u64,
    pub owner: Address,
}

/// Published when a listing is removed.
#[derive(Clone, Debug, PartialEq, Eq)]
pub struct ListingDeregistered {
    pub listing_id: u64,
    pub owner: Address,
}

/// Published when a listing changes hands.
#[derive(Clone, Debug, PartialEq, Eq)]
pub struct OwnershipTransferred {
    pub listing_id: u64,
    pub old_owner: Address,
    pub new_owner: Address,
}

/// An event the registry records for publication.
#[derive(Clone, Debug, PartialEq, Eq)]
pub enum RegistryEvent {
    IpRegistered(IpRegistered),
    ListingUpdated(ListingUpdated),
    ListingDeregistered(ListingDeregistered),
    OwnershipTransferred(OwnershipTransferred),
}

/// One call of an operation that may change the registry, with its
/// arguments (addresses and hashes as byte sequences) and its answer.
pub enum RegistryCall {
    Register {
        owner: Seq<u8>,
        ipfs_hash: Seq<u8>,
        merkle_root: Seq<u8>,
        result: Result<u64, ContractError>,
    },
    Update {
        owner: Seq<u8>,
        listing_id: u64,
        ipfs_hash: Seq<u8>,
        merkle_root: Seq<u8>,
        result: Result<(), ContractError>,
    },
    Deregister { owner: Seq<u8>, listing_id: u64, result: Result<(), ContractError> },
    Transfer {
        current_owner: Seq<u8>,
        listing_id: u64,
        new_owner: Seq<u8>,
        result: Result<(), ContractError>,
    },
}

/// The registry's state: the listing counter, the listings by id, the owner
/// index, and the events recorded so far, oldest first.
pub struct IpRegistry {
    counter: u64,
    listings: HashMap<u64, Listing>,
    index: OwnerIndex,
    events: Vec<RegistryEvent>,
}

impl IpRegistry {
    /// The last id handed out; 0 before the first registration.
    pub closed spec fn counter(self) -> u64 {
        self.counter
    }

    /// The listings, by id.
    pub closed spec fn listings(self) -> Map<u64, ListingView> {
        Map::new(|k: u64| self.listings@.contains_key(k), |k: u64| self.listings@[k]@)
    }

    /// The ids of the listings `owner` holds, in the order in which they came to it.
    pub closed spec fn owned_ids(self, owner: Seq<u8>) -> Seq<u64> {
        self.index.ids_of(owner)
    }

    /// The events recorded so far, oldest first, for the host to publish.
    pub closed spec fn event_log(self) -> Seq<RegistryEvent> {
        self.events@
    }

    /// The registry's invariant: every id in use is between 1 and the
    /// counter, and each owner's ids are exactly the ids of the listings it
    /// holds, each once.
    pub closed spec fn wf(self) -> bool {
        &&& self.index.wf()
        &&& forall|k: u64| #[trigger] self.listings@.contains_key(k) ==> 1 <= k <= self.counter
        &&& forall|o: Seq<u8>, k: u64|
            #[trigger] self.index.ids_of(o).contains(k) <==> (self.listings@.contains_key(k)
                && self.listings@[k].owner@ == o)
        &&& forall|o: Seq<u8>| #[trigger] self.index.ids_of(o).no_duplicates()
    }

    /// An empty registry.
    pub fn new() -> (r: IpRegistry)
        ensures
            r.wf(),
            r.counter() == 0,
            r.listings() == Map::<u64, ListingView>::empty(),
            forall|o: Seq<u8>| #[trigger] r.owned_ids(o) == Seq::<u64>::empty(),
            r.event_log() == Seq::<RegistryEvent>::empty(),
    {
        IpRegistry::with_counter(0)
    }

    /// A registry with no listings whose counter stands at `counter`: the
    /// next registration gets id `counter + 1`.
    pub fn with_counter(counter: u64) -> (r: IpRegistry)
        ensures
            r.wf(),
            r.counter() == counter,
            r.listings() == Map::<u64, ListingView>::empty(),
            forall|o: Seq<u8>| #[trigger] r.owned_ids(o) == Seq::<u64>::empty(),
            r.event_log() == Seq::<RegistryEvent>::empty(),
    {
        let r = IpRegistry {
            counter,
            listings: HashMap::new(),
            index: OwnerIndex::new(),
            events: Vec::new(),
        };
        assert(r.listings() =~= Map::<u64, ListingView>::empty());
        r
    }

    /// What `register_ip` answers in this state: `InvalidInput` when a hash
    /// is empty, else `CounterOverflow` when no id is left, else the next id.
    pub open spec fn register_result(self, ipfs_hash: Seq<u8>, merkle_root: Seq<u8>) -> Result<
        u64,
        ContractError,
    > {
        if ipfs_hash.len() == 0 || merkle_root.len() == 0 {
            Err(ContractError::InvalidInput)
        } else if self.counter() == u64::MAX {
            Err(ContractError::CounterOverflow)
        } else {
            Ok((self.counter() + 1) as u64)
        }
    }

    /// `next` is this registry once listing `id` is registered to `owner`:
    /// the counter is `id`, the listing is added, and `id` is appended to
    /// `owner`'s ids.
    pub open spec fn registered(
        self,
        next: IpRegistry,
        id: u64,
        owner: Seq<u8>,
        ipfs_hash: Seq<u8>,
        merkle_root: Seq<u8>,
    ) -> bool {
        &&& next.counter() == id
        &&& next.listings() == self.listings().insert(
            id,
            ListingView { owner, ipfs_hash, merkle_root },
        )
        &&& forall|o: Seq<u8>| #[trigger]
            next.owned_ids(o) == if o == owner {
                self.owned_ids(o).push(id)
            } else {
                self.owned_ids(o)
            }
    }

    /// Registers a listing for `owner` and returns its id, the counter's next
    /// value; the listing is appended to `owner`'s ids and `IpRegistered` is
    /// added to the event log. The caller has authenticated `owner`.
    pub fn register_ip(&mut self, owner: Address, ipfs_hash: Vec<u8>, merkle_root: Vec<u8>) -> (r:
        Result<u64, ContractError>)
        requires
            old(self).wf(),
        ensures
            final(self).wf(),
            r == old(self).register_result(ipfs_hash@, merkle_root@),
            old(self).step(
                RegistryCall::Register {
                    owner: owner@,
                    ipfs_hash: ipfs_hash@,
                    merkle_root: merkle_root@,
                    result: r,
                },
                *final(self),
            ),
            match r {
                Ok(id) => {
                    &&& old(self).registered(*final(self), id, owner@, ipfs_hash@, merkle_root@)
                    &&& final(self).event_log() == old(self).event_log().push(
                        RegistryEvent::IpRegistered(
                            IpRegistered { listing_id: id, owner, ipfs_hash, merkle_root },
                        ),
                    )
                },
                Err(_) => *final(self) == *old(self),
            },
    {
        if ipfs_hash.len() == 0 || merkle_root.len() == 0 {
            return Err(ContractError::InvalidInput);
        }
        let id = match self.counter.checked_add(1) {
            Some(id) => id,
            None => return Err(ContractError::CounterOverflow),
        };
        let ghost before = *self;
        self.counter = id;
        let listing = Listing {
            owner: owner.duplicate(),
            ipfs_hash: copy_bytes(&ipfs_hash),
            merkle_root: copy_bytes(&merkle_root),
        };
        self.listings.insert(id, listing);
        self.index.append(&owner, id);
        self.events.push(
            RegistryEvent::IpRegistered(IpRegistered { listing_id: id, owner, ipfs_hash, merkle_root }),
        );
        proof {
            assert(!before.listings@.contains_key(id));
            assert(self.listings() =~= before.listings().insert(
                id,
                ListingView { owner: owner@, ipfs_hash: ipfs_hash@, merkle_root: merkle_root@ },
            ));
            assert forall|o: Seq<u8>, k: u64|
                #[trigger] self.index.ids_of(o).contains(k) <==> (self.listings@.contains_key(k)
                    && self.listings@[k].owner@ == o) by {
                if o == owner@ {
                    assert(self.index.ids_of(o) == before.index.ids_of(o).push(id));
                    if self.index.ids_of(o).contains(k) && k != id {
                        let j = choose|j: int| 0 <= j < self.index.ids_of(o).len() && self.index.ids_of(o)[j] == k;
                        assert(before.index.ids_of(o)[j] == k);
                    }
                    if k == id {
                        assert(self.index.ids_of(o)[before.index.ids_of(o).len() as int] == k);
                    } else if before.index.ids_of(o).contains(k) {
                        let j = choose|j: int| 0 <= j < before.index.ids_of(o).len() && before.index.ids_of(o)[j] == k;
                        assert(self.index.ids_of(o)[j] == k);
                    }
                } else {
                    assert(self.index.ids_of(o) == before.index.ids_of(o));
                    assert(before.index.ids_of(o).contains(k) <==> (before.listings@.contains_key(k)
                        && before.listings@[k].owner@ == o));
                }
            }
            assert forall|o: Seq<u8>| #[trigger] self.index.ids_of(o).no_duplicates() by {
                assert(before.index.ids_of(o).no_duplicates());
                if o == owner@ {
                    assert(!before.index.ids_of(o).contains(id));
                    assert(self.index.ids_of(o) == before.index.ids_of(o).push(id));
                    assert forall|i: int, j: int|
                        0 <= i < self.index.ids_of(o).len() && 0 <= j < self.index.ids_of(o).len() && i != j
                        implies self.index.ids_of(o)[i] != self.index.ids_of(o)[j] by {
                        if i == before.index.ids_of(o).len() {
                            assert(before.index.ids_of(o).contains(before.index.ids_of(o)[j]));
                        } else if j == before.index.ids_of(o).len() {
                            assert(before.index.ids_of(o).contains(before.index.ids_of(o)[i]));
                        }
                    }
                } else {
                    assert(self.index.ids_of(o) == before.index.ids_of(o));
                }
            }
        }
        Ok(id)
    }
    /// What `update_listing` answers in this state: `InvalidInput` when a
    /// hash is empty, else `ListingNotFound` when no listing has the id, else
    /// `Unauthorized` when `owner` does not hold it, else success.
    pub open spec fn update_result(
        self,
        owner: Seq<u8>,
        listing_id: u64,
        ipfs_hash: Seq<u8>,
        merkle_root: Seq<u8>,
    ) -> Result<(), ContractError> {
        if ipfs_hash.len() == 0 || merkle_root.len() == 0 {
            Err(ContractError::InvalidInput)
        } else {
            self.owner_check(owner, listing_id)
        }
    }

    /// Whether `owner` may act on listing `listing_id`: `ListingNotFound`
    /// when no listing has the id, else `Unauthorized` when another holds it.
    pub open spec fn owner_check(self, owner: Seq<u8>, listing_id: u64) -> Result<(), ContractError> {
        if !self.listings().contains_key(listing_id) {
            Err(ContractError::ListingNotFound)
        } else if self.listings()[listing_id].owner != owner {
            Err(ContractError::Unauthorized)
        } else {
            Ok(())
        }
    }

    /// `next` is this registry once listing `listing_id` has its hashes
    /// replaced; its owner, the counter and every owner's ids stay.
    pub open spec fn updated(
        self,
        next: IpRegistry,
        listing_id: u64,
        ipfs_hash: Seq<u8>,
        merkle_root: Seq<u8>,
    ) -> bool {
        &&& next.counter() == self.counter()
        &&& next.listings() == self.listings().insert(
            listing_id,
            ListingView { owner: self.listings()[listing_id].owner, ipfs_hash, merkle_root },
        )
        &&& forall|o: Seq<u8>| #[trigger] next.owned_ids(o) == self.owned_ids(o)
    }

    /// `next` is this registry once listing `listing_id` of `owner` is
    /// removed, and taken out of `owner`'s ids.
    pub open spec fn deregistered(self, next: IpRegistry, owner: Seq<u8>, listing_id: u64) -> bool {
        &&& next.counter() == self.counter()
        &&& next.listings() == self.listings().remove(listing_id)
        &&& forall|o: Seq<u8>| #[trigger]
            next.owned_ids(o) == if o == owner {
                without_id(self.owned_ids(o), listing_id)
            } else {
                self.owned_ids(o)
            }
    }

    /// `next` is this registry once listing `listing_id` passes from
    /// `current_owner` to `new_owner`: the listing's owner changes, its id
    /// is taken out of `current_owner`'s ids and then appended to
    /// `new_owner`'s.
    pub open spec fn transferred(
        self,
        next: IpRegistry,
        current_owner: Seq<u8>,
        listing_id: u64,
        new_owner: Seq<u8>,
    ) -> bool {
        &&& next.counter() == self.counter()
        &&& next.listings() == self.listings().insert(
            listing_id,
            ListingView {
                owner: new_owner,
                ipfs_hash: self.listings()[listing_id].ipfs_hash,
                merkle_root: self.listings()[listing_id].merkle_root,
            },
        )
        &&& forall|o: Seq<u8>| #[trigger]
            next.owned_ids(o) == {
                let kept = if o == current_owner {
                    without_id(self.owned_ids(o), listing_id)
                } else {
                    self.owned_ids(o)
                };
                if o == new_owner {
                    kept.push(listing_id)
                } else {
                    kept
                }
            }
    }

    /// `call` takes this registry to `next`: its answer is the one the
    /// operation gives in this state, a refused call changes nothing, and a
    /// successful one has the operation's effect; `next` keeps the invariant.
    pub open spec fn step(self, call: RegistryCall, next: IpRegistry) -> bool {
        &&& next.wf()
        &&& match call {
            RegistryCall::Register { owner, ipfs_hash, merkle_root, result } => {
                &&& result == self.register_result(ipfs_hash, merkle_root)
                &&& match result {
                    Ok(id) => self.registered(next, id, owner, ipfs_hash, merkle_root),
                    Err(_) => next == self,
                }
            },
            RegistryCall::Update { owner, listing_id, ipfs_hash, merkle_root, result } => {
                &&& result == self.update_result(owner, listing_id, ipfs_hash, merkle_root)
                &&& match result {
                    Ok(_) => self.updated(next, listing_id, ipfs_hash, merkle_root),
                    Err(_) => next == self,
                }
            },
            RegistryCall::Deregister { owner, listing_id, result } => {
                &&& result == self.owner_check(owner, listing_id)
                &&& match result {
                    Ok(_) => self.deregistered(next, owner, listing_id),
                    Err(_) => next == self,
                }
            },
            RegistryCall::Transfer { current_owner, listing_id, new_owner, result } => {
                &&& result == self.owner_check(current_owner, listing_id)
                &&& match result {
                    Ok(_) => self.transferred(next, current_owner, listing_id, new_owner),
                    Err(_) => next == self,
                }
            },
        }
    }

    /// Checks that listing `listing_id` exists and that `owner` holds it.
    fn check_owner(&self, owner: &Address, listing_id: u64) -> (r: Result<(), ContractError>)
        ensures
            r == self.owner_check(owner@, listing_id),
    {
        match self.listings.get(&listing_id) {
            None => Err(ContractError::ListingNotFound),
            Some(listing) => {
                if listing.owner.same_as(owner) {
                    Ok(())
                } else {
                    Err(ContractError::Unauthorized)
                }
            },
        }
    }

    /// Replaces the IPFS hash and Merkle root of listing `listing_id`, which
    /// `owner` holds, and adds `ListingUpdated` to the event log. The caller has
    /// authenticated `owner`.
    pub fn update_listing(
        &mut self,
        owner: Address,
        listing_id: u64,
        ipfs_hash: Vec<u8>,
        merkle_root: Vec<u8>,
    ) -> (r: Result<(), ContractError>)
        requires
            old(self).wf(),
        ensures
            final(self).wf(),
            r == old(self).update_result(owner@, listing_id, ipfs_hash@, merkle_root@),
            old(self).step(
                RegistryCall::Update {
                    owner: owner@,
                    listing_id,
                    ipfs_hash: ipfs_hash@,
                    merkle_root: merkle_root@,
                    result: r,
                },
                *final(self),
            ),
            match r {
                Ok(_) => {
                    &&& old(self).updated(*final(self), listing_id, ipfs_hash@, merkle_root@)
                    &&& final(self).event_log() == old(self).event_log().push(
                        RegistryEvent::ListingUpdated(ListingUpdated { listing_id, owner }),
                    )
                },
                Err(_) => *final(self) == *old(self),
            },
    {
        if ipfs_hash.len() == 0 || merkle_root.len() == 0 {
            return Err(ContractError::InvalidInput);
        }
        let mut listing = match self.listings.get(&listing_id) {
            Some(listing) => listing.duplicate(),
            None => return Err(ContractError::ListingNotFound),
        };
        if !listing.owner.same_as(&owner) {
            return Err(ContractError::Unauthorized);
        }
        let ghost before = *self;
        listing.ipfs_hash = ipfs_hash;
        listing.merkle_root = merkle_root;
        self.listings.insert(listing_id, listing);
        self.events.push(RegistryEvent::ListingUpdated(ListingUpdated { listing_id, owner }));
        proof {
            assert(self.listings() =~= before.listings().insert(
                listing_id,
                ListingView {
                    owner: before.listings()[listing_id].owner,
                    ipfs_hash: ipfs_hash@,
                    merkle_root: merkle_root@,
                },
            ));
            assert forall|o: Seq<u8>, k: u64|
                #[trigger] self.index.ids_of(o).contains(k) <==> (self.listings@.contains_key(k)
                    && self.listings@[k].owner@ == o) by {
                assert(before.index.ids_of(o).contains(k) <==> (before.listings@.contains_key(k)
                    && before.listings@[k].owner@ == o));
            }
        }
        Ok(())
    }

    /// Removes listing `listing_id`, which `owner` holds, takes it out of
    /// `owner`'s ids and adds `ListingDeregistered` to the event log. The caller has
    /// authenticated `owner`.
    pub fn deregister_listing(&mut self, owner: Address, listing_id: u64) -> (r: Result<
        (),
        ContractError,
    >)
        requires
            old(self).wf(),
        ensures
            final(self).wf(),
            r == old(self).owner_check(owner@, listing_id),
            old(self).step(
                RegistryCall::Deregister { owner: owner@, listing_id, result: r },
                *final(self),
            ),
            match r {
                Ok(_) => {
                    &&& old(self).deregistered(*final(self), owner@, listing_id)
                    &&& final(self).event_log() == old(self).event_log().push(
                        RegistryEvent::ListingDeregistered(ListingDeregistered { listing_id, owner }),
                    )
                },
                Err(_) => *final(self) == *old(self),
            },
    {
        match self.check_owner(&owner, listing_id) {
            Ok(()) => {},
            Err(e) => return Err(e),
        }
        let ghost before = *self;
        self.listings.remove(&listing_id);
        self.index.remove_id(&owner, listing_id);
        self.events.push(
            RegistryEvent::ListingDeregistered(ListingDeregistered { listing_id, owner }),
        );
        proof {
            assert(self.listings() =~= before.listings().remove(listing_id));
            assert forall|o: Seq<u8>, k: u64|
                #[trigger] self.index.ids_of(o).contains(k) <==> (self.listings@.contains_key(k)
                    && self.listings@[k].owner@ == o) by {
                assert(before.index.ids_of(o).contains(k) <==> (before.listings@.contains_key(k)
                    && before.listings@[k].owner@ == o));
                if o == owner@ {
                    lemma_without_id_contains(before.index.ids_of(o), listing_id, k);
                } else {
                    assert(before.index.ids_of(o).contains(listing_id) <==> (
                    before.listings@.contains_key(listing_id) && before.listings@[listing_id].owner@
                        == o));
                }
            }
            assert forall|o: Seq<u8>| #[trigger] self.index.ids_of(o).no_duplicates() by {
                assert(before.index.ids_of(o).no_duplicates());
                if o == owner@ {
                    lemma_without_id_no_duplicates(before.index.ids_of(o), listing_id);
                }
            }
        }
        Ok(())
    }

    /// Passes listing `listing_id` from `current_owner`, who holds it, to
    /// `new_owner`: the id is taken out of `current_owner`'s ids and appended
    /// to `new_owner`'s, and `OwnershipTransferred` is added to the event log. The caller
    /// has authenticated `current_owner`.
    pub fn transfer_ownership(
        &mut self,
        current_owner: Address,
        listing_id: u64,
        new_owner: Address,
    ) -> (r: Result<(), ContractError>)
        requires
            old(self).wf(),
        ensures
            final(self).wf(),
            r == old(self).owner_check(current_owner@, listing_id),
            old(self).step(
                RegistryCall::Transfer {
                    current_owner: current_owner@,
                    listing_id,
                    new_owner: new_owner@,
                    result: r,
                },
                *final(self),
            ),
            match r {
                Ok(_) => {
                    &&& old(self).transferred(
                        *final(self),
                        current_owner@,
                        listing_id,
                        new_owner@,
                    )
                    &&& final(self).event_log() == old(self).event_log().push(
                        RegistryEvent::OwnershipTransferred(
                            OwnershipTransferred {
                                listing_id,
                                old_owner: current_owner,
                                new_owner,
                            },
                        ),
                    )
                },
                Err(_) => *final(self) == *old(self),
            },
    {
        let mut listing = match self.listings.get(&listing_id) {
            Some(listing) => listing.duplicate(),
            None => return Err(ContractError::ListingNotFound),
        };
        if !listing.owner.same_as(&current_owner) {
            return Err(ContractError::Unauthorized);
        }
        let ghost before = *self;
        listing.owner = new_owner.duplicate();
        self.listings.insert(listing_id, listing);
        self.index.remove_id(&current_owner, listing_id);
        let ghost middle = self.index;
        self.index.append(&new_owner, listing_id);
        self.events.push(
            RegistryEvent::OwnershipTransferred(
                OwnershipTransferred { listing_id, old_owner: current_owner, new_owner },
            ),
        );
        proof {
            let cur = current_owner@;
            let new = new_owner@;
            assert(self.listings() =~= before.listings().insert(
                listing_id,
                ListingView {
                    owner: new,
                    ipfs_hash: before.listings()[listing_id].ipfs_hash,
                    merkle_root: before.listings()[listing_id].merkle_root,
                },
            ));
            assert forall|o: Seq<u8>, k: u64|
                #[trigger] self.index.ids_of(o).contains(k) <==> (self.listings@.contains_key(k)
                    && self.listings@[k].owner@ == o) by {
                assert(before.index.ids_of(o).contains(k) <==> (before.listings@.contains_key(k)
                    && before.listings@[k].owner@ == o));
                assert(before.index.ids_of(o).contains(listing_id) <==> (
                before.listings@.contains_key(listing_id) && before.listings@[listing_id].owner@
                    == o));
                let kept = middle.ids_of(o);
                if o == cur {
                    lemma_without_id_contains(before.index.ids_of(o), listing_id, k);
                }
                assert(kept.contains(k) <==> ((before.index.ids_of(o).contains(k)) && (o == cur
                    ==> k != listing_id)));
                if o == new {
                    assert(self.index.ids_of(o) == kept.push(listing_id));
                    if kept.push(listing_id).contains(k) && k != listing_id {
                        let j = choose|j: int| 0 <= j < kept.len() + 1 && kept.push(listing_id)[j] == k;
                        assert(kept[j] == k);
                    }
                    if k == listing_id {
                        assert(kept.push(listing_id)[kept.len() as int] == k);
                    } else if kept.contains(k) {
                        let j = choose|j: int| 0 <= j < kept.len() && kept[j] == k;
                        assert(kept.push(listing_id)[j] == k);
                    }
                } else {
                    assert(self.index.ids_of(o) == kept);
                }
            }
            assert forall|o: Seq<u8>| #[trigger] self.index.ids_of(o).no_duplicates() by {
                assert(before.index.ids_of(o).no_duplicates());
                assert(before.index.ids_of(o).contains(listing_id) <==> (
                before.listings@.contains_key(listing_id) && before.listings@[listing_id].owner@
                    == o));
                let kept = middle.ids_of(o);
                if o == cur {
                    lemma_without_id_no_duplicates(before.index.ids_of(o), listing_id);
                    lemma_without_id_contains(before.index.ids_of(o), listing_id, listing_id);
                }
                assert(kept.no_duplicates());
                if o == new {
                    assert(!kept.contains(listing_id));
                    assert(self.index.ids_of(o) == kept.push(listing_id));
                    assert forall|i: int, j: int|
                        0 <= i < kept.len() + 1 && 0 <= j < kept.len() + 1 && i != j
                        implies kept.push(listing_id)[i] != kept.push(listing_id)[j] by {
                        if i == kept.len() {
                            assert(kept.contains(kept[j]));
                        } else if j == kept.len() {
                            assert(kept.contains(kept[i]));
                        }
                    }
                }
            }
        }
        Ok(())
    }
    /// The listing with id `listing_id`, if there is one.
    pub fn get_listing(&self, listing_id: u64) -> (r: Option<Listing>)
        ensures
            match r {
                Some(listing) => self.listings().contains_key(listing_id) && listing@
                    == self.listings()[listing_id],
                None => !self.listings().contains_key(listing_id),
            },
    {
        match self.listings.get(&listing_id) {
            Some(listing) => Some(listing.duplicate()),
            None => None,
        }
    }

    /// The ids of the listings `owner` holds, in the order in which they came to it.
    pub fn list_by_owner(&self, owner: &Address) -> (ids: Vec<u64>)
        requires
            self.wf(),
        ensures
            ids@ == self.owned_ids(owner@),
    {
        self.index.ids_for(owner)
    }

    /// The part of `owner`'s ids that starts at position `offset` (counted
    /// from 0) and holds at most `limit` ids.
    pub fn list_by_owner_page(&self, owner: &Address, offset: u32, limit: u32) -> (page: Vec<u64>)
        requires
            self.wf(),
        ensures
            page@ == page_of(self.owned_ids(owner@), offset, limit),
    {
        let all = self.index.ids_for(owner);
        let len = all.len();
        let start: usize = if (offset as usize) < len {
            offset as usize
        } else {
            len
        };
        let stop: usize = offset.saturating_add(limit) as usize;
        let end: usize = if stop < len {
            stop
        } else {
            len
        };
        let mut page: Vec<u64> = Vec::new();
        let mut i: usize = start;
        while i < end
            invariant
                start <= i <= end,
                end <= len == all@.len(),
                page@ == all@.subrange(start as int, i as int),
            decreases end - i,
        {
            page.push(all[i]);
            assert(all@.subrange(start as int, i + 1) =~= all@.subrange(start as int, i as int).push(all@[i as int]));
            i = i + 1;
        }
        page
    }

    /// The events recorded so far, oldest first.
    pub fn events(&self) -> (events: &Vec<RegistryEvent>)
        ensures
            events@ == self.event_log(),
    {
        &self.events
    }
}

/// The ids from position `min(offset, len)` up to position
/// `min(offset + limit, len)`, where the sum saturates at `u32::MAX`.
pub open spec fn page_of(ids: Seq<u64>, offset: u32, limit: u32) -> Seq<u64> {
    let len = ids.len() as int;
    let stop = if offset + limit > u32::MAX {
        u32::MAX as int
    } else {
        offset + limit
    };
    let start = if offset < len {
        offset as int
    } else {
        len
    };
    let end = if stop < len {
        stop
    } else {
        len
    };
    ids.subrange(start, end)
}

/// Each owner's list holds exactly the ids of the listings it owns, each
/// once; and every id in use lies between 1 and the counter.
pub proof fn law_owner_index_is_exact(registry: IpRegistry, owner: Seq<u8>, listing_id: u64)
    requires
        registry.wf(),
    ensures
        registry.owned_ids(owner).contains(listing_id) <==> (registry.listings().contains_key(
            listing_id,
        ) && registry.listings()[listing_id].owner == owner),
        registry.owned_ids(owner).no_duplicates(),
        registry.listings().contains_key(listing_id) ==> 1 <= listing_id <= registry.counter(),
{
    assert(registry.index.ids_of(owner).contains(listing_id) <==> (
    registry.listings@.contains_key(listing_id) && registry.listings@[listing_id].owner@ == owner));
    assert(registry.listings@.contains_key(listing_id) ==> 1 <= listing_id <= registry.counter);
}

/// A successful registration hands out a fresh id, above every id in use:
/// it never overwrites a listing.
pub proof fn law_registration_id_is_fresh(
    registry: IpRegistry,
    ipfs_hash: Seq<u8>,
    merkle_root: Seq<u8>,
    listing_id: u64,
)
    requires
        registry.wf(),
        registry.register_result(ipfs_hash, merkle_root) == Ok::<u64, ContractError>(listing_id),
    ensures
        !registry.listings().contains_key(listing_id),
        forall|k: u64| #[trigger] registry.listings().contains_key(k) ==> k < listing_id,
{
    assert forall|k: u64| #[trigger] registry.listings().contains_key(k) implies k < listing_id by {
        assert(registry.listings@.contains_key(k));
    }
}

/// `states` is a run of the registry under `calls`: it starts in a valid
/// state, and the `k`-th call takes state `k` to state `k + 1`.
pub open spec fn is_run(states: Seq<IpRegistry>, calls: Seq<RegistryCall>) -> bool {
    &&& states.len() == calls.len() + 1
    &&& states[0].wf()
    &&& forall|k: int| 0 <= k < calls.len() ==> states[k].step(#[trigger] calls[k], states[k + 1])
}

/// The id a call handed out, if it is a successful registration.
pub open spec fn registered_id(call: RegistryCall) -> Option<u64> {
    match call {
        RegistryCall::Register { result: Ok(id), .. } => Some(id),
        _ => None,
    }
}

/// How many of `calls` are successful registrations.
pub open spec fn registrations(calls: Seq<RegistryCall>) -> nat
    decreases calls.len(),
{
    if calls.len() == 0 {
        0
    } else {
        registrations(calls.drop_last()) + if registered_id(calls.last()) is Some {
            1nat
        } else {
            0nat
        }
    }
}

/// A call that changes listing `listing_id` in place: a successful update,
/// removal or transfer of it.
pub open spec fn acts_on(call: RegistryCall, listing_id: u64) -> bool {
    match call {
        RegistryCall::Register { .. } => false,
        RegistryCall::Update { listing_id: id, result, .. } => id == listing_id && result is Ok,
        RegistryCall::Deregister { listing_id: id, result, .. } => id == listing_id && result is Ok,
        RegistryCall::Transfer { listing_id: id, result, .. } => id == listing_id && result is Ok,
    }
}

/// Every state of a run keeps the registry's invariant.
pub proof fn lemma_run_states_valid(states: Seq<IpRegistry>, calls: Seq<RegistryCall>, k: int)
    requires
        is_run(states, calls),
        0 <= k <= calls.len(),
    ensures
        states[k].wf(),
{
    if k > 0 {
        assert(states[k - 1].step(calls[k - 1], states[k]));
    }
}

/// The count of registrations among the first `k + 1` calls.
proof fn lemma_registrations_step(calls: Seq<RegistryCall>, k: int)
    requires
        0 <= k < calls.len(),
    ensures
        registrations(calls.take(k + 1)) == registrations(calls.take(k)) + if registered_id(
            calls[k],
        ) is Some {
            1nat
        } else {
            0nat
        },
{
    assert(calls.take(k + 1).drop_last() =~= calls.take(k));
    assert(calls.take(k + 1).last() == calls[k]);
}

/// The count of registrations never decreases along the calls.
proof fn lemma_registrations_monotone(calls: Seq<RegistryCall>, a: int, b: int)
    requires
        0 <= a <= b <= calls.len(),
    ensures
        registrations(calls.take(a)) <= registrations(calls.take(b)),
    decreases b - a,
{
    if a < b {
        lemma_registrations_step(calls, b - 1);
        lemma_registrations_monotone(calls, a, b - 1);
    }
}

/// Along any run, the counter has grown by the number of successful
/// registrations so far, whatever other calls came between.
pub proof fn law_counter_counts_registrations(states: Seq<IpRegistry>, calls: Seq<RegistryCall>, k: int)
    requires
        is_run(states, calls),
        0 <= k <= calls.len(),
    ensures
        states[k].counter() == states[0].counter() + registrations(calls.take(k)),
    decreases k,
{
    if k == 0 {
        assert(calls.take(0) =~= Seq::<RegistryCall>::empty());
    } else {
        law_counter_counts_registrations(states, calls, k - 1);
        lemma_registrations_step(calls, k - 1);
        assert(states[k - 1].step(calls[k - 1], states[k]));
    }
}

/// Ids follow the calls: the registration at call `i` gets the counter's
/// start plus one more than the registrations before it (from a new
/// registry: 1, 2, 3, ...), above every id handed out before, and not the
/// id of any listing present then.
pub proof fn law_ids_follow_call_order(states: Seq<IpRegistry>, calls: Seq<RegistryCall>, i: int)
    requires
        is_run(states, calls),
        0 <= i < calls.len(),
        registered_id(calls[i]) is Some,
    ensures
        registered_id(calls[i]).unwrap() == states[0].counter() + registrations(calls.take(i)) + 1,
        !states[i].listings().contains_key(registered_id(calls[i]).unwrap()),
        forall|j: int|
            0 <= j < i && (#[trigger] registered_id(calls[j])) is Some ==> registered_id(calls[j]).unwrap()
                < registered_id(calls[i]).unwrap(),
{
    let id = registered_id(calls[i]).unwrap();
    assert(states[i].step(calls[i], states[i + 1]));
    law_counter_counts_registrations(states, calls, i);
    lemma_run_states_valid(states, calls, i);
    match calls[i] {
        RegistryCall::Register { owner, ipfs_hash, merkle_root, result } => {
            law_registration_id_is_fresh(states[i], ipfs_hash, merkle_root, id);
        },
        _ => {},
    }
    assert forall|j: int|
        0 <= j < i && (#[trigger] registered_id(calls[j])) is Some implies registered_id(calls[j]).unwrap()
            < id by {
        assert(states[j].step(calls[j], states[j + 1]));
        law_counter_counts_registrations(states, calls, j);
        lemma_registrations_step(calls, j);
        lemma_registrations_monotone(calls, j + 1, i);
    }
}

/// Read after register, across later calls: once listing `id` is
/// registered at call `i`, it reads back as registered in every later state
/// until a call acts on that id.
pub proof fn law_listing_persists_until_acted_on(
    states: Seq<IpRegistry>,
    calls: Seq<RegistryCall>,
    i: int,
    j: int,
)
    requires
        is_run(states, calls),
        0 <= i < j <= calls.len(),
        registered_id(calls[i]) is Some,
        forall|k: int| i < k < j ==> !acts_on(#[trigger] calls[k], registered_id(calls[i]).unwrap()),
    ensures
        states[j].listings().contains_key(registered_id(calls[i]).unwrap()),
        states[j].listings()[registered_id(calls[i]).unwrap()] == match calls[i] {
            RegistryCall::Register { owner, ipfs_hash, merkle_root, .. } => ListingView {
                owner,
                ipfs_hash,
                merkle_root,
            },
            _ => states[j].listings()[registered_id(calls[i]).unwrap()],
        },
    decreases j,
{
    let id = registered_id(calls[i]).unwrap();
    if j == i + 1 {
        assert(states[i].step(calls[i], states[i + 1]));
    } else {
        law_listing_persists_until_acted_on(states, calls, i, j - 1);
        let k = j - 1;
        assert(states[k].step(calls[k], states[j]));
        assert(!acts_on(calls[k], id));
        lemma_run_states_valid(states, calls, k);
        match calls[k] {
            RegistryCall::Register { owner, ipfs_hash, merkle_root, result } => {
                if let Ok(fresh) = result {
                    law_registration_id_is_fresh(states[k], ipfs_hash, merkle_root, fresh);
                }
            },
            _ => {},
        }
    }
}

/// Read after register: the new listing is found under its id with what was
/// registered, and its id comes last in its owner's list.
pub proof fn law_read_after_register(
    before: IpRegistry,
    after: IpRegistry,
    listing_id: u64,
    owner: Seq<u8>,
    ipfs_hash: Seq<u8>,
    merkle_root: Seq<u8>,
)
    requires
        before.registered(after, listing_id, owner, ipfs_hash, merkle_root),
    ensures
        after.listings().contains_key(listing_id),
        after.listings()[listing_id] == (ListingView { owner, ipfs_hash, merkle_root }),
        after.owned_ids(owner).len() == before.owned_ids(owner).len() + 1,
        after.owned_ids(owner).last() == listing_id,
{
    assert(after.owned_ids(owner) == before.owned_ids(owner).push(listing_id));
}

/// Two successful registrations in a row get consecutive ids.
pub proof fn law_consecutive_registrations_get_consecutive_ids(
    first: IpRegistry,
    second: IpRegistry,
    third: IpRegistry,
    id1: u64,
    id2: u64,
    owner1: Seq<u8>,
    owner2: Seq<u8>,
    hash1: Seq<u8>,
    hash2: Seq<u8>,
    root1: Seq<u8>,
    root2: Seq<u8>,
)
    requires
        first.register_result(hash1, root1) == Ok::<u64, ContractError>(id1),
        first.registered(second, id1, owner1, hash1, root1),
        second.register_result(hash2, root2) == Ok::<u64, ContractError>(id2),
        second.registered(third, id2, owner2, hash2, root2),
    ensures
        id1 == first.counter() + 1,
        id2 == id1 + 1,
{
}

/// A registry's first registration gets id 1.
pub proof fn law_first_id_is_one(registry: IpRegistry, ipfs_hash: Seq<u8>, merkle_root: Seq<u8>)
    requires
        registry.counter() == 0,
        ipfs_hash.len() > 0,
        merkle_root.len() > 0,
    ensures
        registry.register_result(ipfs_hash, merkle_root) == Ok::<u64, ContractError>(1),
{
}

/// An update replaces the two hashes and nothing else: the owner and every
/// owner's list stay as they were.
pub proof fn law_update_keeps_owner(
    before: IpRegistry,
    after: IpRegistry,
    owner: Seq<u8>,
    listing_id: u64,
    ipfs_hash: Seq<u8>,
    merkle_root: Seq<u8>,
)
    requires
        before.update_result(owner, listing_id, ipfs_hash, merkle_root) == Ok::<(), ContractError>(()),
        before.updated(after, listing_id, ipfs_hash, merkle_root),
    ensures
        after.listings()[listing_id] == (ListingView { owner, ipfs_hash, merkle_root }),
        forall|k: u64| k != listing_id ==> after.listings().contains_key(k) == before.listings().contains_key(k)
            && (#[trigger] after.listings()[k]) == before.listings()[k],
        forall|o: Seq<u8>| #[trigger] after.owned_ids(o) == before.owned_ids(o),
{
}

/// After a listing is deregistered it is found nowhere: not under its id,
/// and in no owner's list.
pub proof fn law_deregistered_listing_is_gone(
    before: IpRegistry,
    after: IpRegistry,
    owner: Seq<u8>,
    listing_id: u64,
    anyone: Seq<u8>,
)
    requires
        before.wf(),
        before.owner_check(owner, listing_id) == Ok::<(), ContractError>(()),
        before.deregistered(after, owner, listing_id),
    ensures
        !after.listings().contains_key(listing_id),
        !after.owned_ids(anyone).contains(listing_id),
        after.owned_ids(owner).len() + 1 == before.owned_ids(owner).len(),
{
    law_owner_index_is_exact(before, anyone, listing_id);
    law_owner_index_is_exact(before, owner, listing_id);
    lemma_without_id_contains(before.owned_ids(owner), listing_id, listing_id);
    lemma_without_id_drops_one(before.owned_ids(owner), listing_id);
}

/// A transfer moves the listing and nothing else: it now names the new
/// owner and keeps its hashes, its id comes last in the new owner's list,
/// and it has left the old owner's list when the owners differ.
pub proof fn law_transfer_moves_listing(
    before: IpRegistry,
    after: IpRegistry,
    current_owner: Seq<u8>,
    listing_id: u64,
    new_owner: Seq<u8>,
)
    requires
        before.wf(),
        before.owner_check(current_owner, listing_id) == Ok::<(), ContractError>(()),
        before.transferred(after, current_owner, listing_id, new_owner),
    ensures
        after.listings()[listing_id].owner == new_owner,
        after.listings()[listing_id].ipfs_hash == before.listings()[listing_id].ipfs_hash,
        after.listings()[listing_id].merkle_root == before.listings()[listing_id].merkle_root,
        after.owned_ids(new_owner).last() == listing_id,
        current_owner != new_owner ==> !after.owned_ids(current_owner).contains(listing_id),
        after.listings().dom() == before.listings().dom(),
{
    lemma_without_id_contains(before.owned_ids(current_owner), listing_id, listing_id);
    assert(after.owned_ids(current_owner) == without_id(before.owned_ids(current_owner), listing_id)
        || current_owner == new_owner);
    assert(after.listings().dom() =~= before.listings().dom());
}

/// Removal keeps the order of the rest: after listing `listing_id`, at
/// position `i` of its owner's list, is deregistered, the owner's list is
/// the ids before position `i` followed by those after it.
pub proof fn law_deregister_keeps_order(
    before: IpRegistry,
    after: IpRegistry,
    owner: Seq<u8>,
    listing_id: u64,
    i: int,
)
    requires
        before.wf(),
        before.owner_check(owner, listing_id) == Ok::<(), ContractError>(()),
        before.deregistered(after, owner, listing_id),
        0 <= i < before.owned_ids(owner).len(),
        before.owned_ids(owner)[i] == listing_id,
    ensures
        after.owned_ids(owner) == before.owned_ids(owner).take(i) + before.owned_ids(owner).skip(i + 1),
{
    law_owner_index_is_exact(before, owner, listing_id);
    law_without_id_keeps_order(before.owned_ids(owner), listing_id, i);
}

/// A transfer keeps the order of the rest: the old owner's list loses
/// position `i` and keeps the ids before and after it in order, and the
/// listing comes last in the new owner's list.
pub proof fn law_transfer_keeps_order(
    before: IpRegistry,
    after: IpRegistry,
    current_owner: Seq<u8>,
    listing_id: u64,
    new_owner: Seq<u8>,
    i: int,
)
    requires
        before.wf(),
        before.owner_check(current_owner, listing_id) == Ok::<(), ContractError>(()),
        before.transferred(after, current_owner, listing_id, new_owner),
        0 <= i < before.owned_ids(current_owner).len(),
        before.owned_ids(current_owner)[i] == listing_id,
    ensures
        after.owned_ids(current_owner) == if current_owner == new_owner {
            (before.owned_ids(current_owner).take(i) + before.owned_ids(current_owner).skip(i + 1)).push(
                listing_id,
            )
        } else {
            before.owned_ids(current_owner).take(i) + before.owned_ids(current_owner).skip(i + 1)
        },
        current_owner != new_owner ==> after.owned_ids(new_owner) == before.owned_ids(new_owner).push(
            listing_id,
        ),
{
    law_owner_index_is_exact(before, current_owner, listing_id);
    law_without_id_keeps_order(before.owned_ids(current_owner), listing_id, i);
    assert(after.owned_ids(current_owner) == if current_owner == new_owner {
        without_id(before.owned_ids(current_owner), listing_id).push(listing_id)
    } else {
        without_id(before.owned_ids(current_owner), listing_id)
    });
    assert(after.owned_ids(new_owner) == if new_owner == current_owner {
        without_id(before.owned_ids(new_owner), listing_id).push(listing_id)
    } else {
        before.owned_ids(new_owner).push(listing_id)
    });
}

/// A page holds the ids at consecutive positions from `offset` on
/// (0-indexed): its `k`-th id is the id at position `offset + k`. When the
/// list is no longer than `u32::MAX` (as a host vector is), the page holds
/// `limit` ids, or all from `offset` to the end when fewer remain, and none
/// when `offset` is past the end.
pub proof fn law_page_positions(ids: Seq<u64>, offset: u32, limit: u32)
    ensures
        forall|k: int|
            0 <= k < page_of(ids, offset, limit).len() ==> #[trigger] page_of(ids, offset, limit)[k]
                == ids[offset + k],
        ids.len() <= u32::MAX ==> page_of(ids, offset, limit).len() == if offset >= ids.len() {
            0
        } else if offset + limit <= ids.len() {
            limit as int
        } else {
            ids.len() - offset
        },
{
}

/// A page that fits in the list is exactly the ids at positions `offset`
/// to `offset + limit`; in particular, a page of one id at `offset` is the
/// id at that position. (`offset + limit` must not saturate, which it
/// cannot for a list of at most `u32::MAX` ids.)
pub proof fn law_page_within_list(ids: Seq<u64>, offset: u32, limit: u32)
    requires
        offset + limit <= ids.len(),
        offset + limit <= u32::MAX,
    ensures
        page_of(ids, offset, limit) == ids.subrange(offset as int, offset + limit),
        limit == 1 ==> page_of(ids, offset, limit) == seq![ids[offset as int]],
{
    if limit == 1 {
        assert(ids.subrange(offset as int, offset + 1) =~= seq![ids[offset as int]]);
    }
}

/// Paging from the start with a limit that reaches the end gives the whole list.
pub proof fn law_whole_page_is_whole_list(ids: Seq<u64>, limit: u32)
    requires
        ids.len() <= limit,
    ensures
        page_of(ids, 0, limit) == ids,
{
    assert(ids.subrange(0, ids.len() as int) =~= ids);
}

/// Consecutive pages join up: the page of `first` ids at `offset`
/// followed by the page of `second` ids right after it is the page of
/// `first + second` ids at `offset`.
pub proof fn law_consecutive_pages_concatenate(ids: Seq<u64>, offset: u32, first: u32, second: u32)
    requires
        offset + first + second <= u32::MAX,
    ensures
        page_of(ids, offset, first) + page_of(ids, (offset + first) as u32, second) == page_of(
            ids,
            offset,
            (first + second) as u32,
        ),
{
    let len = ids.len() as int;
    let a = if offset < len { offset as int } else { len };
    let b = if offset + first < len { (offset + first) as int } else { len };
    let c = if offset + first + second < len { (offset + first + second) as int } else { len };
    assert(ids.subrange(a, b) + ids.subrange(b, c) =~= ids.subrange(a, c));
}

} // verus!
