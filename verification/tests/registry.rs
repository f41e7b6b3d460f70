use dao_core::account::AccountId;
use dao_core::member::Error;
use dao_core::member_manager::MemberManager;
use dao_core::member_manager::OwnableError;

fn acct(b: u8) -> AccountId {
    AccountId::from_bytes([b; 32])
}

/// A registry whose proposal manager is already configured.
fn registry_with_manager(owner: AccountId, manager: AccountId) -> MemberManager {
    let mut mm = MemberManager::new(owner);
    mm.set_propsal_manager_adress(&owner, manager).unwrap();
    mm
}

#[test]
fn add_member_works() {
    let owner = acct(1);
    let manager = acct(2);
    let frank = acct(3);
    let alice = acct(4);
    let bob = acct(5);
    let mut mm = registry_with_manager(owner, manager);

    // normal adding a member
    let _res = mm.add_member(&manager, &frank, &alice, "alice".to_string(), 0);
    let member_info_list = mm.get_member_list(&frank);
    assert_eq!(member_info_list[0].name, "alice");
    assert_eq!(member_info_list[0].member_address, alice);
    assert_eq!(member_info_list[0].is_electoral_commissioner, false);

    // normal adding two members
    let _res = mm.add_member(&manager, &frank, &bob, "bob".to_string(), 1);
    let member_info_list = mm.get_member_list(&frank);
    assert_eq!(member_info_list[1].name, "bob");
    assert_eq!(member_info_list[1].member_address, bob);
    assert_eq!(member_info_list[1].is_electoral_commissioner, false);

    // duplicated adding
    match mm.add_member(&manager, &frank, &alice, "alice".to_string(), 0) {
        Ok(()) => panic!("This is not expected path."),
        Err(error) => assert_eq!(error, Error::MemberAlreadyExists),
    }
}

#[test]
fn delete_member_works() {
    let owner = acct(1);
    let manager = acct(2);
    let frank = acct(3);
    let alice = acct(4);
    let bob = acct(5);
    let mut mm = registry_with_manager(owner, manager);

    // deleting non-existed member
    match mm.delete_member(&manager, &frank, &alice) {
        Ok(()) => panic!("This is not expected path."),
        Err(error) => assert_eq!(error, Error::MemberDoesNotExist),
    };
    // deleting existed member
    let _res = mm.add_member(&manager, &frank, &alice, "alice".to_string(), 0);
    let _res = mm.add_member(&manager, &frank, &bob, "bob".to_string(), 1);
    match mm.delete_member(&manager, &frank, &bob) {
        Ok(()) => {
            let member_list = mm.get_member_list(&frank);
            assert_eq!(1, member_list.len());
            assert_eq!(alice, member_list[0].member_address);
        },
        Err(_error) => panic!("This is not expected path."),
    }
}

#[test]
fn proposal_manager_gate() {
    let owner = acct(1);
    let manager = acct(2);
    let stranger = acct(9);
    let org = acct(3);
    let alice = acct(4);
    let mut mm = registry_with_manager(owner, manager);

    assert_eq!(
        mm.add_member(&stranger, &org, &alice, "alice".to_string(), 0),
        Err(Error::OnlyFromProposalManagerAddress)
    );
    assert_eq!(
        mm.delete_member(&stranger, &org, &alice),
        Err(Error::OnlyFromProposalManagerAddress)
    );
    assert_eq!(
        mm.dismiss_electoral_commissioner(&stranger, &org),
        Err(Error::OnlyFromProposalManagerAddress)
    );
    assert_eq!(
        mm.add_electoral_commissioner(&stranger, &org, &alice),
        Err(Error::OnlyFromProposalManagerAddress)
    );
}

#[test]
fn owner_gate_on_manager_setter() {
    let owner = acct(1);
    let stranger = acct(9);
    let mut mm = MemberManager::new(owner);
    assert_eq!(
        mm.set_propsal_manager_adress(&stranger, acct(2)),
        Err(OwnableError::CallerIsNotOwner)
    );
    assert_eq!(mm.set_propsal_manager_adress(&owner, acct(2)), Ok(()));
}

#[test]
fn first_member_succeeds_exactly_once() {
    let owner = acct(1);
    let manager = acct(2);
    let org = acct(3);
    let alice = acct(4);
    let bob = acct(5);
    let mut mm = registry_with_manager(owner, manager);

    assert_eq!(mm.add_first_member(&org, &alice, "Alice".to_string(), 0), Ok(()));
    let list = mm.get_member_list(&org);
    assert_eq!(list.len(), 1);
    assert_eq!(list[0].member_id, 0);
    assert!(list[0].is_electoral_commissioner);

    // an immediate retry fails, from any address
    assert_eq!(
        mm.add_first_member(&org, &bob, "Bob".to_string(), 1),
        Err(Error::NotFirstMember)
    );

    // deleting one address of a larger organization does not reopen it
    assert_eq!(mm.add_member(&manager, &org, &bob, "Bob".to_string(), 1), Ok(()));
    assert_eq!(mm.delete_member(&manager, &org, &bob), Ok(()));
    assert_eq!(
        mm.add_first_member(&org, &bob, "Bob".to_string(), 1),
        Err(Error::NotFirstMember)
    );

    // even deleting every member does not reopen it: the id counter
    // has moved, and ids are never reused
    assert_eq!(mm.delete_member(&manager, &org, &alice), Ok(()));
    assert_eq!(mm.get_member_list(&org).len(), 0);
    assert_eq!(
        mm.add_first_member(&org, &bob, "Bob".to_string(), 1),
        Err(Error::NotFirstMember)
    );
}

#[test]
fn failed_scan_leaves_state_unchanged() {
    let owner = acct(1);
    let manager = acct(2);
    let org = acct(3);
    let alice = acct(4);
    let bob = acct(5);
    let mut mm = registry_with_manager(owner, manager);

    // Bob holds slot 0, Alice slot 1; deleting Alice leaves a gap at 1.
    assert_eq!(mm.add_first_member(&org, &bob, "Bob".to_string(), 0), Ok(()));
    assert_eq!(mm.add_member(&manager, &org, &alice, "Alice".to_string(), 1), Ok(()));
    assert_eq!(mm.add_electoral_commissioner(&manager, &org, &alice), Ok(()));
    assert_eq!(mm.delete_member(&manager, &org, &alice), Ok(()));
    assert!(mm.modifier_only_electoral_commissioner(&bob, &org));

    // the gap refuses the reset, and Bob's slot and flag survive it
    assert_eq!(
        mm.dismiss_electoral_commissioner(&manager, &org),
        Err(Error::ElectoralCommissionerDataMismatch)
    );
    assert!(mm.modifier_only_electoral_commissioner(&bob, &org));
    assert!(mm.get_member_list(&org)[0].is_electoral_commissioner);

    // the gap refuses the deletion, and Bob stays registered
    assert_eq!(
        mm.delete_member(&manager, &org, &bob),
        Err(Error::ElectoralCommissionerDataMismatch)
    );
    assert!(mm.modifier_only_member(&bob, &org));
    assert!(mm.modifier_only_electoral_commissioner(&bob, &org));
}

#[test]
fn readd_after_delete() {
    let owner = acct(1);
    let manager = acct(2);
    let org = acct(3);
    let alice = acct(4);
    let bob = acct(5);
    let mut mm = registry_with_manager(owner, manager);

    assert_eq!(mm.add_first_member(&org, &alice, "Alice".to_string(), 0), Ok(()));
    assert_eq!(mm.add_member(&manager, &org, &bob, "Bob".to_string(), 1), Ok(()));
    assert_eq!(
        mm.add_member(&manager, &org, &bob, "Bob".to_string(), 1),
        Err(Error::MemberAlreadyExists)
    );
    assert_eq!(mm.delete_member(&manager, &org, &bob), Ok(()));
    assert_eq!(mm.add_member(&manager, &org, &bob, "Bob".to_string(), 1), Ok(()));
    // the re-added member gets a fresh id: ids are never reused
    let list = mm.get_member_list(&org);
    assert_eq!(list.len(), 2);
    assert_eq!(list[0].member_id, 0);
    assert_eq!(list[1].member_id, 2);
}

#[test]
fn member_list_sorted_and_distinct() {
    let owner = acct(1);
    let manager = acct(2);
    let org = acct(3);
    let mut mm = registry_with_manager(owner, manager);

    assert_eq!(mm.add_first_member(&org, &acct(10), "m0".to_string(), 0), Ok(()));
    for i in 1u8..5u8 {
        assert_eq!(
            mm.add_member(&manager, &org, &acct(10 + i), format!("m{}", i), i as u16),
            Ok(())
        );
    }
    // delete an id in the middle: the gap is silently omitted
    assert_eq!(mm.delete_member(&manager, &org, &acct(12)), Ok(()));
    let list = mm.get_member_list(&org);
    assert_eq!(list.len(), 4);
    let ids: Vec<u16> = list.iter().map(|m| m.member_id).collect();
    assert_eq!(ids, vec![0, 1, 3, 4]);
    for i in 0..list.len() {
        for j in (i + 1)..list.len() {
            assert!(list[i].member_id < list[j].member_id);
            assert_ne!(list[i].member_address, list[j].member_address);
        }
    }
}

#[test]
fn dismiss_clears_every_commissioner() {
    let owner = acct(1);
    let manager = acct(2);
    let org = acct(3);
    let alice = acct(4);
    let bob = acct(5);
    let mut mm = registry_with_manager(owner, manager);

    assert_eq!(mm.add_first_member(&org, &alice, "Alice".to_string(), 0), Ok(()));
    assert_eq!(mm.add_member(&manager, &org, &bob, "Bob".to_string(), 1), Ok(()));
    assert_eq!(mm.add_electoral_commissioner(&manager, &org, &bob), Ok(()));
    assert!(mm.modifier_only_electoral_commissioner(&alice, &org));
    assert!(mm.modifier_only_electoral_commissioner(&bob, &org));

    assert_eq!(mm.dismiss_electoral_commissioner(&manager, &org), Ok(()));
    assert!(!mm.modifier_only_electoral_commissioner(&alice, &org));
    assert!(!mm.modifier_only_electoral_commissioner(&bob, &org));
    for m in mm.get_member_list(&org) {
        assert!(!m.is_electoral_commissioner);
    }
}

#[test]
fn slot_gap_is_fatal_for_mutation_and_silent_for_reading() {
    let owner = acct(1);
    let manager = acct(2);
    let org = acct(3);
    let alice = acct(4);
    let bob = acct(5);
    let mut mm = registry_with_manager(owner, manager);

    // Alice holds slot 0, Bob slot 1.
    assert_eq!(mm.add_first_member(&org, &alice, "Alice".to_string(), 0), Ok(()));
    assert_eq!(mm.add_member(&manager, &org, &bob, "Bob".to_string(), 1), Ok(()));
    assert_eq!(mm.add_electoral_commissioner(&manager, &org, &bob), Ok(()));
    // Deleting Alice clears slot 0 but not the slot counter: a gap remains.
    assert_eq!(mm.delete_member(&manager, &org, &alice), Ok(()));

    // The read predicate stops at the gap: Bob's later slot is unreachable.
    assert!(!mm.modifier_only_electoral_commissioner(&bob, &org));
    // The mutating scans treat the same gap as a hard inconsistency.
    assert_eq!(
        mm.dismiss_electoral_commissioner(&manager, &org),
        Err(Error::ElectoralCommissionerDataMismatch)
    );
    assert_eq!(
        mm.delete_member(&manager, &org, &bob),
        Err(Error::ElectoralCommissionerDataMismatch)
    );
}

#[test]
fn membership_predicate_and_lookup() {
    let owner = acct(1);
    let manager = acct(2);
    let org = acct(3);
    let other_org = acct(7);
    let alice = acct(4);
    let mut mm = registry_with_manager(owner, manager);

    assert!(!mm.modifier_only_member(&alice, &org));
    assert_eq!(mm.add_first_member(&org, &alice, "Alice".to_string(), 0), Ok(()));
    assert!(mm.modifier_only_member(&alice, &org));
    // membership is per organization
    assert!(!mm.modifier_only_member(&alice, &other_org));
    let info = mm.get_member_info(&org, &alice).unwrap();
    assert_eq!(info.name, "Alice");
    assert_eq!(info.member_address, alice);
    assert!(mm.get_member_info(&other_org, &alice).is_none());
}
