use dao_core::account::AccountId;
use dao_core::dao::DaoContract;
use dao_core::dao::Error;
use dao_core::dao::LuggageStatus;
use dao_core::dao::TokenType;
use dao_core::member_manager::MemberManager;

fn acct(b: u8) -> AccountId {
    AccountId::from_bytes([b; 32])
}

fn coordinator(manager: AccountId) -> DaoContract {
    DaoContract::new(
        manager,
        "O".to_string(),
        "https://example.invalid/o".to_string(),
        "a test organization".to_string(),
    )
}

#[test]
fn approval_is_manager_gated() {
    let manager = acct(1);
    let stranger = acct(2);
    let mut dao = coordinator(manager);
    assert!(!dao.get_dao_info().is_approved);
    assert_eq!(
        dao.change_aproval(&stranger, true),
        Err(Error::ThisFunctionCanBeCalledFromDaoManager)
    );
    assert!(!dao.get_dao_info().is_approved);
    assert_eq!(dao.change_aproval(&manager, true), Ok(()));
    assert!(dao.get_dao_info().is_approved);
    assert_eq!(dao.get_dao_info().name, "O");
}

#[test]
fn token_registration_and_listing() {
    let manager = acct(1);
    let t1 = acct(10);
    let mut dao = coordinator(manager);
    assert_eq!(
        dao.add_dao_token(&acct(2), TokenType::FungibleAsset, t1),
        Err(Error::ThisFunctionCanBeCalledFromDaoManager)
    );
    assert_eq!(dao.add_dao_token(&manager, TokenType::FungibleAsset, t1), Ok(()));
    let list = dao.get_token_list();
    assert_eq!(list.len(), 1);
    assert_eq!(list[0].token_type, TokenType::FungibleAsset);
    assert_eq!(list[0].token_address, t1);
}

#[test]
fn latest_registration_wins_by_address() {
    let manager = acct(1);
    let t1 = acct(10);
    let mut dao = coordinator(manager);
    assert_eq!(dao.add_dao_token(&manager, TokenType::GovernanceToken, t1), Ok(()));
    assert_eq!(dao.add_dao_token(&manager, TokenType::FungibleAsset, t1), Ok(()));
    // the id-keyed list keeps both registrations
    assert_eq!(dao.get_token_list().len(), 2);
    // lookup by address sees the latest one
    let resolved = dao.change_token_sales_status(&manager, &t1, true).unwrap();
    assert_eq!(resolved.token_type, TokenType::FungibleAsset);
}

#[test]
fn sale_status_errors() {
    let manager = acct(1);
    let gov = acct(10);
    let unknown = acct(11);
    let mut dao = coordinator(manager);
    assert_eq!(dao.add_dao_token(&manager, TokenType::GovernanceToken, gov), Ok(()));

    assert_eq!(
        dao.change_token_sales_status(&acct(2), &gov, true),
        Err(Error::ThisFunctionCanBeCalledFromDaoManager)
    );
    assert_eq!(
        dao.change_token_sales_status(&manager, &unknown, true),
        Err(Error::TheTokenDoesNotExist)
    );
    assert_eq!(
        dao.change_token_sales_status(&manager, &gov, true),
        Err(Error::InvalidOperation)
    );
    assert_eq!(DaoContract::sale_status_outcome(true), Ok(()));
    assert_eq!(
        DaoContract::sale_status_outcome(false),
        Err(Error::ChangingTokenStatusIsFailure)
    );
}

#[test]
fn withdraw_dispatch_and_errors() {
    let manager = acct(1);
    let nft = acct(10);
    let mut dao = coordinator(manager);
    assert_eq!(dao.add_dao_token(&manager, TokenType::NonFungibleAsset, nft), Ok(()));
    let resolved = dao.withdraw_token_proceeds(&manager, &nft).unwrap();
    assert_eq!(resolved.token_address, nft);
    assert_eq!(
        dao.withdraw_token_proceeds(&manager, &acct(11)),
        Err(Error::TheTokenDoesNotExist)
    );
    assert_eq!(DaoContract::withdraw_outcome(false), Err(Error::WithdrawingIsFailure));
    assert_eq!(DaoContract::withdraw_outcome(true), Ok(()));
}

#[test]
fn treasury_donate_and_transfer() {
    let manager = acct(1);
    let anyone = acct(9);
    let receiver = acct(3);
    let mut dao = coordinator(manager);
    assert_eq!(dao.get_contract_balance(), 0);
    // anyone may donate
    assert_eq!(dao.donate_to_the_dao(100), Ok(()));
    assert_eq!(dao.get_contract_balance(), 100);

    assert_eq!(
        dao.distribute_dao_treasury(&anyone, &receiver, 10),
        Err(Error::ThisFunctionCanBeCalledFromDaoManager)
    );
    assert_eq!(dao.distribute_dao_treasury(&manager, &receiver, 30), Ok(()));
    assert_eq!(dao.get_contract_balance(), 70);
    assert_eq!(
        dao.distribute_dao_treasury(&manager, &receiver, 1000),
        Err(Error::TransferingContractBalanceIsFailure)
    );
    assert_eq!(dao.get_contract_balance(), 70);
}

#[test]
fn luggage_custody_handoff() {
    let owner = acct(1);
    let manager = acct(2);
    let org = acct(3);
    let alice = acct(4);
    let bob = acct(5);
    let outsider = acct(6);

    let mut mm = MemberManager::new(owner);
    mm.set_propsal_manager_adress(&owner, manager).unwrap();
    assert_eq!(mm.add_first_member(&org, &alice, "Alice".to_string(), 0), Ok(()));
    assert_eq!(mm.add_member(&manager, &org, &bob, "Bob".to_string(), 1), Ok(()));

    let mut dao = coordinator(manager);
    assert_eq!(
        dao.register_luggage_info_of_arraival(
            &acct(9),
            "O".to_string(),
            "box".to_string(),
            "Alice".to_string(),
            5,
        ),
        Err(Error::ThisFunctionCanBeCalledFromDaoManager)
    );
    assert_eq!(
        dao.register_luggage_info_of_arraival(
            &manager,
            "O".to_string(),
            "box".to_string(),
            "Alice".to_string(),
            5,
        ),
        Ok(())
    );
    assert_eq!(dao.luggage.len(), 1);
    assert_eq!(dao.luggage[0].info.id, 0);
    assert!(matches!(dao.luggage[0].status, LuggageStatus::Alive));
    assert_eq!(dao.luggage[0].info.registered_at, 5);

    // a non-member may not pick anything up
    assert_eq!(
        dao.register_luggage_info_of_recipt(&mm, &outsider, &org, 0),
        Err(Error::OnlyMemberDoes)
    );
    // an unknown id does not resolve
    assert_eq!(
        dao.register_luggage_info_of_recipt(&mm, &alice, &org, 7),
        Err(Error::ThisLuggageDoesNotExists)
    );
    // identity is matched by registered name, not by account
    assert_eq!(
        dao.register_luggage_info_of_recipt(&mm, &bob, &org, 0),
        Err(Error::NotYourLuggage)
    );
    // the named recipient picks it up: the record moves, unchanged
    assert_eq!(dao.register_luggage_info_of_recipt(&mm, &alice, &org, 0), Ok(()));
    assert!(matches!(dao.luggage[0].status, LuggageStatus::Dead));
    assert_eq!(dao.luggage[0].info.contents, "box");
    assert_eq!(dao.luggage[0].info.recipient_name, "Alice");
    // a second receipt of the same id finds nothing awaiting
    assert_eq!(
        dao.register_luggage_info_of_recipt(&mm, &alice, &org, 0),
        Err(Error::ThisLuggageDoesNotExists)
    );
}

#[test]
fn token_and_luggage_scenario() {
    let owner = acct(1);
    let manager = acct(2);
    let org = acct(3);
    let alice = acct(4);
    let t1 = acct(10);

    let mut mm = MemberManager::new(owner);
    mm.set_propsal_manager_adress(&owner, manager).unwrap();
    assert_eq!(mm.add_first_member(&org, &alice, "Alice".to_string(), 0), Ok(()));

    let mut dao = coordinator(manager);
    assert_eq!(dao.add_dao_token(&manager, TokenType::FungibleAsset, t1), Ok(()));
    let list = dao.get_token_list();
    assert_eq!(list.len(), 1);
    assert_eq!(list[0].token_type, TokenType::FungibleAsset);
    assert_eq!(list[0].token_address, t1);

    assert_eq!(
        dao.register_luggage_info_of_arraival(
            &manager,
            "O".to_string(),
            "box".to_string(),
            "Alice".to_string(),
            1,
        ),
        Ok(())
    );
    assert_eq!(dao.register_luggage_info_of_recipt(&mm, &alice, &org, 0), Ok(()));
    assert!(matches!(dao.luggage[0].status, LuggageStatus::Dead));
}
