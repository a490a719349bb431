use ip_marketplace::address::Address;
use ip_marketplace::ip_registry::{
    ContractError, IpRegistered, IpRegistry, ListingDeregistered, ListingUpdated,
    OwnershipTransferred, RegistryEvent,
};

fn addr(name: &str) -> Address {
    Address::from_strkey(name.as_bytes().to_vec())
}

fn bytes(s: &[u8]) -> Vec<u8> {
    s.to_vec()
}

/// Every listing appears in its owner's list exactly once, and lists hold nothing else.
fn assert_index_matches(registry: &IpRegistry, owners: &[&Address], max_id: u64) {
    for owner in owners {
        let ids = registry.list_by_owner(owner);
        for id in 1..=max_id {
            let held = match registry.get_listing(id) {
                Some(listing) => listing.owner == **owner,
                None => false,
            };
            let count = ids.iter().filter(|x| **x == id).count();
            assert_eq!(count, if held { 1 } else { 0 });
        }
        assert!(ids.iter().all(|id| *id >= 1 && *id <= max_id));
    }
}

#[test]
fn error_codes_match_the_wire_numbers() {
    assert_eq!(ContractError::InvalidInput.code(), 1);
    assert_eq!(ContractError::CounterOverflow.code(), 2);
    assert_eq!(ContractError::Unauthorized.code(), 3);
    assert_eq!(ContractError::ListingNotFound.code(), 4);
}

#[test]
fn registration_ids_are_consecutive_from_the_counter() {
    let mut registry = IpRegistry::new();
    let a = addr("GA");
    assert_eq!(registry.register_ip(a.clone(), bytes(b"h"), bytes(b"r")), Ok(1));
    assert_eq!(registry.register_ip(a.clone(), bytes(b"h"), bytes(b"r")), Ok(2));
    assert_eq!(registry.register_ip(a.clone(), bytes(b"h"), bytes(b"r")), Ok(3));

    let mut resumed = IpRegistry::with_counter(41);
    assert_eq!(resumed.register_ip(a.clone(), bytes(b"h"), bytes(b"r")), Ok(42));

    let mut last = IpRegistry::with_counter(u64::MAX - 1);
    assert_eq!(last.register_ip(a.clone(), bytes(b"h"), bytes(b"r")), Ok(u64::MAX));
    assert_eq!(
        last.register_ip(a, bytes(b"h"), bytes(b"r")),
        Err(ContractError::CounterOverflow)
    );
}

#[test]
fn invalid_input_is_checked_before_the_counter() {
    let mut registry = IpRegistry::with_counter(u64::MAX);
    let a = addr("GA");
    assert_eq!(
        registry.register_ip(a.clone(), Vec::new(), bytes(b"r")),
        Err(ContractError::InvalidInput)
    );
    assert_eq!(
        registry.register_ip(a.clone(), bytes(b"h"), Vec::new()),
        Err(ContractError::InvalidInput)
    );
    assert_eq!(
        registry.register_ip(a, bytes(b"h"), bytes(b"r")),
        Err(ContractError::CounterOverflow)
    );
}

#[test]
fn update_checks_input_then_existence_then_owner() {
    let mut registry = IpRegistry::new();
    let a = addr("GA");
    let b = addr("GB");
    let id = registry.register_ip(a.clone(), bytes(b"h"), bytes(b"r")).unwrap();
    assert_eq!(
        registry.update_listing(b.clone(), 99, Vec::new(), bytes(b"x")),
        Err(ContractError::InvalidInput)
    );
    assert_eq!(
        registry.update_listing(b.clone(), 99, bytes(b"x"), bytes(b"y")),
        Err(ContractError::ListingNotFound)
    );
    assert_eq!(
        registry.update_listing(b, id, bytes(b"x"), bytes(b"y")),
        Err(ContractError::Unauthorized)
    );
}

#[test]
fn deregister_and_transfer_report_missing_listings() {
    let mut registry = IpRegistry::new();
    let a = addr("GA");
    assert_eq!(registry.deregister_listing(a.clone(), 7), Err(ContractError::ListingNotFound));
    assert_eq!(
        registry.transfer_ownership(a.clone(), 7, addr("GB")),
        Err(ContractError::ListingNotFound)
    );
}

#[test]
fn rejected_requests_leave_the_registry_unchanged() {
    let mut registry = IpRegistry::new();
    let a = addr("GA");
    let b = addr("GB");
    let id = registry.register_ip(a.clone(), bytes(b"h"), bytes(b"r")).unwrap();
    let events_before = registry.events().clone();

    assert!(registry.update_listing(b.clone(), id, bytes(b"x"), bytes(b"y")).is_err());
    assert!(registry.deregister_listing(b.clone(), id).is_err());
    assert!(registry.transfer_ownership(b.clone(), id, b.clone()).is_err());
    assert!(registry.register_ip(b.clone(), Vec::new(), bytes(b"y")).is_err());

    let listing = registry.get_listing(id).unwrap();
    assert_eq!(listing.owner, a);
    assert_eq!(listing.ipfs_hash, bytes(b"h"));
    assert_eq!(listing.merkle_root, bytes(b"r"));
    assert_eq!(registry.list_by_owner(&a), vec![id]);
    assert_eq!(registry.list_by_owner(&b), Vec::<u64>::new());
    assert_eq!(registry.events(), &events_before);
    assert_eq!(registry.register_ip(b, bytes(b"h"), bytes(b"r")), Ok(2));
}

#[test]
fn deregister_removes_the_id_and_keeps_the_order() {
    let mut registry = IpRegistry::new();
    let a = addr("GA");
    for _ in 0..3 {
        registry.register_ip(a.clone(), bytes(b"h"), bytes(b"r")).unwrap();
    }
    registry.deregister_listing(a.clone(), 2).unwrap();
    assert_eq!(registry.list_by_owner(&a), vec![1, 3]);
    assert!(registry.get_listing(2).is_none());
    assert_eq!(registry.deregister_listing(a.clone(), 2), Err(ContractError::ListingNotFound));
    // A deregistered id is never handed out again.
    assert_eq!(registry.register_ip(a.clone(), bytes(b"h"), bytes(b"r")), Ok(4));
    assert_eq!(registry.list_by_owner(&a), vec![1, 3, 4]);
}

#[test]
fn transfer_appends_to_the_new_owner() {
    let mut registry = IpRegistry::new();
    let a = addr("GA");
    let b = addr("GB");
    registry.register_ip(b.clone(), bytes(b"h"), bytes(b"r")).unwrap();
    registry.register_ip(a.clone(), bytes(b"h2"), bytes(b"r2")).unwrap();
    registry.register_ip(b.clone(), bytes(b"h"), bytes(b"r")).unwrap();
    registry.transfer_ownership(a.clone(), 2, b.clone()).unwrap();
    assert_eq!(registry.list_by_owner(&b), vec![1, 3, 2]);
    assert_eq!(registry.list_by_owner(&a), Vec::<u64>::new());
    let listing = registry.get_listing(2).unwrap();
    assert_eq!(listing.owner, b);
    assert_eq!(listing.ipfs_hash, bytes(b"h2"));
    assert_eq!(listing.merkle_root, bytes(b"r2"));
    // The former owner can no longer act on it; the new owner can.
    assert_eq!(registry.deregister_listing(a.clone(), 2), Err(ContractError::Unauthorized));
    assert_eq!(registry.deregister_listing(b.clone(), 2), Ok(()));
}

#[test]
fn transfer_to_oneself_moves_the_id_to_the_end() {
    let mut registry = IpRegistry::new();
    let a = addr("GA");
    registry.register_ip(a.clone(), bytes(b"h"), bytes(b"r")).unwrap();
    registry.register_ip(a.clone(), bytes(b"h"), bytes(b"r")).unwrap();
    registry.transfer_ownership(a.clone(), 1, a.clone()).unwrap();
    assert_eq!(registry.list_by_owner(&a), vec![2, 1]);
    assert_eq!(registry.get_listing(1).unwrap().owner, a);
}

#[test]
fn update_keeps_the_owner_and_the_index() {
    let mut registry = IpRegistry::new();
    let a = addr("GA");
    let id = registry.register_ip(a.clone(), bytes(b"h"), bytes(b"r")).unwrap();
    registry.update_listing(a.clone(), id, bytes(b"h2"), bytes(b"r2")).unwrap();
    let listing = registry.get_listing(id).unwrap();
    assert_eq!(listing.owner, a);
    assert_eq!(listing.ipfs_hash, bytes(b"h2"));
    assert_eq!(listing.merkle_root, bytes(b"r2"));
    assert_eq!(registry.list_by_owner(&a), vec![id]);
}

#[test]
fn every_operation_publishes_its_event() {
    let mut registry = IpRegistry::new();
    let a = addr("GA");
    let b = addr("GB");
    registry.register_ip(a.clone(), bytes(b"h"), bytes(b"r")).unwrap();
    registry.update_listing(a.clone(), 1, bytes(b"h2"), bytes(b"r2")).unwrap();
    registry.transfer_ownership(a.clone(), 1, b.clone()).unwrap();
    registry.deregister_listing(b.clone(), 1).unwrap();
    assert_eq!(
        registry.events(),
        &vec![
            RegistryEvent::IpRegistered(IpRegistered {
                listing_id: 1,
                owner: a.clone(),
                ipfs_hash: bytes(b"h"),
                merkle_root: bytes(b"r"),
            }),
            RegistryEvent::ListingUpdated(ListingUpdated { listing_id: 1, owner: a.clone() }),
            RegistryEvent::OwnershipTransferred(OwnershipTransferred {
                listing_id: 1,
                old_owner: a.clone(),
                new_owner: b.clone(),
            }),
            RegistryEvent::ListingDeregistered(ListingDeregistered { listing_id: 1, owner: b }),
        ]
    );
}

#[test]
fn owner_lists_match_the_listings_after_mixed_operations() {
    let mut registry = IpRegistry::new();
    let a = addr("GA");
    let b = addr("GB");
    let c = addr("GC");
    registry.register_ip(a.clone(), bytes(b"1"), bytes(b"1")).unwrap();
    registry.register_ip(b.clone(), bytes(b"2"), bytes(b"2")).unwrap();
    registry.register_ip(a.clone(), bytes(b"3"), bytes(b"3")).unwrap();
    registry.transfer_ownership(a.clone(), 1, c.clone()).unwrap();
    registry.register_ip(c.clone(), bytes(b"4"), bytes(b"4")).unwrap();
    registry.deregister_listing(b.clone(), 2).unwrap();
    registry.transfer_ownership(c.clone(), 4, a.clone()).unwrap();
    registry.transfer_ownership(a.clone(), 3, a.clone()).unwrap();
    assert_index_matches(&registry, &[&a, &b, &c], 4);
    assert_eq!(registry.list_by_owner(&a), vec![4, 3]);
    assert_eq!(registry.list_by_owner(&c), vec![1]);
}

#[test]
fn pages_at_the_edges() {
    let mut registry = IpRegistry::new();
    let a = addr("GA");
    for _ in 0..5 {
        registry.register_ip(a.clone(), bytes(b"h"), bytes(b"r")).unwrap();
    }
    assert_eq!(registry.list_by_owner_page(&a, 0, 10), vec![1, 2, 3, 4, 5]);
    assert_eq!(registry.list_by_owner_page(&a, 5, 3), Vec::<u64>::new());
    assert_eq!(registry.list_by_owner_page(&a, 9, 3), Vec::<u64>::new());
    assert_eq!(registry.list_by_owner_page(&a, 1, 0), Vec::<u64>::new());
    assert_eq!(registry.list_by_owner_page(&a, 3, u32::MAX), vec![4, 5]);
    assert_eq!(registry.list_by_owner_page(&a, u32::MAX, u32::MAX), Vec::<u64>::new());
    assert_eq!(registry.list_by_owner_page(&addr("GZ"), 0, 3), Vec::<u64>::new());
}

#[test]
fn consecutive_pages_join_into_the_list() {
    let mut registry = IpRegistry::new();
    let a = addr("GA");
    for _ in 0..7 {
        registry.register_ip(a.clone(), bytes(b"h"), bytes(b"r")).unwrap();
    }
    let mut joined = registry.list_by_owner_page(&a, 1, 2);
    joined.extend(registry.list_by_owner_page(&a, 3, 3));
    assert_eq!(joined, registry.list_by_owner_page(&a, 1, 5));
    assert_eq!(joined, vec![2, 3, 4, 5, 6]);
}

#[test]
fn addresses_compare_by_strkey() {
    let a = addr("GA");
    assert!(a.same_as(&addr("GA")));
    assert!(!a.same_as(&addr("GB")));
    assert!(!a.same_as(&addr("GAA")));
    assert_eq!(a.duplicate(), a);
}

#[test]
fn ids_follow_the_calls_whatever_comes_between() {
    let mut registry = IpRegistry::new();
    let a = addr("GA");
    let b = addr("GB");
    assert_eq!(registry.register_ip(a.clone(), bytes(b"h"), bytes(b"r")), Ok(1));
    registry.update_listing(a.clone(), 1, bytes(b"x"), bytes(b"y")).unwrap();
    assert!(registry.register_ip(a.clone(), Vec::new(), bytes(b"r")).is_err());
    assert_eq!(registry.register_ip(b.clone(), bytes(b"h"), bytes(b"r")), Ok(2));
    registry.transfer_ownership(b.clone(), 2, a.clone()).unwrap();
    registry.deregister_listing(a.clone(), 1).unwrap();
    assert!(registry.deregister_listing(b.clone(), 2).is_err());
    assert_eq!(registry.register_ip(b.clone(), bytes(b"h"), bytes(b"r")), Ok(3));
}

#[test]
fn a_listing_reads_back_until_a_call_acts_on_it() {
    let mut registry = IpRegistry::new();
    let a = addr("GA");
    let b = addr("GB");
    let id = registry.register_ip(a.clone(), bytes(b"h"), bytes(b"r")).unwrap();
    let other = registry.register_ip(b.clone(), bytes(b"h2"), bytes(b"r2")).unwrap();
    registry.update_listing(b.clone(), other, bytes(b"x"), bytes(b"y")).unwrap();
    registry.transfer_ownership(b.clone(), other, a.clone()).unwrap();
    registry.deregister_listing(a.clone(), other).unwrap();
    assert!(registry.update_listing(b.clone(), id, bytes(b"x"), bytes(b"y")).is_err());
    let listing = registry.get_listing(id).unwrap();
    assert_eq!(listing.owner, a);
    assert_eq!(listing.ipfs_hash, bytes(b"h"));
    assert_eq!(listing.merkle_root, bytes(b"r"));
}
