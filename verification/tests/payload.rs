use dao_core::account::AccountId;
use dao_core::codec::account_from_text;
use dao_core::dao::DaoContract;
use dao_core::dao::Error;
use dao_core::dao::TokenType;
use dao_core::distribution::parse_distribution;
use dao_core::distribution::parse_u128;

fn acct(b: u8) -> AccountId {
    AccountId::from_bytes([b; 32])
}

/// Check-encodes an account: 1 prefix byte, the 32 identifier bytes,
/// 2 trailing bytes.
fn encode_account(id: [u8; 32]) -> String {
    let mut raw: Vec<u8> = Vec::with_capacity(35);
    raw.push(42);
    raw.extend_from_slice(&id);
    raw.push(7);
    raw.push(9);
    bs58::encode(raw).into_string()
}

#[test]
fn account_text_round_trip() {
    let id = [0xABu8; 32];
    let text = encode_account(id);
    let decoded = account_from_text(&text).unwrap();
    assert_eq!(decoded, AccountId::from_bytes(id));
}

#[test]
fn account_text_rejects_bad_input() {
    // '0', 'O', 'I' and 'l' are not base-58 characters
    assert!(account_from_text("0OIl").is_none());
    // valid base 58, but not 35 bytes long
    let short = bs58::encode([1u8, 2, 3]).into_string();
    assert!(account_from_text(&short).is_none());
    assert!(account_from_text("").is_none());
}

#[test]
fn amount_parsing() {
    assert_eq!(parse_u128("0"), Some(0));
    assert_eq!(parse_u128("100"), Some(100));
    assert_eq!(
        parse_u128("340282366920938463463374607431768211455"),
        Some(u128::MAX)
    );
    // one past the greatest amount overflows
    assert_eq!(parse_u128("340282366920938463463374607431768211456"), None);
    assert_eq!(parse_u128(""), None);
    assert_eq!(parse_u128("12a"), None);
    assert_eq!(parse_u128("-5"), None);
    assert_eq!(parse_u128("+5"), None);
}

#[test]
fn distribution_plan_two_records() {
    let a = encode_account([0x11u8; 32]);
    let b = encode_account([0x22u8; 32]);
    let payload = format!("{}#100?{}#200", a, b);
    let (dispatches, complete) = parse_distribution(&payload);
    assert!(complete);
    assert_eq!(dispatches.len(), 2);
    assert_eq!(dispatches[0].recipient, acct(0x11));
    assert_eq!(dispatches[0].amount, 100);
    assert_eq!(dispatches[1].recipient, acct(0x22));
    assert_eq!(dispatches[1].amount, 200);
}

#[test]
fn distribution_plan_keeps_prefix_of_malformed_payload() {
    let a = encode_account([0x11u8; 32]);
    let b = encode_account([0x22u8; 32]);
    // the second record is missing its amount field
    let payload = format!("{}#100?{}", a, b);
    let (dispatches, complete) = parse_distribution(&payload);
    assert!(!complete);
    assert_eq!(dispatches.len(), 1);
    assert_eq!(dispatches[0].recipient, acct(0x11));
    assert_eq!(dispatches[0].amount, 100);

    // a record with two separators is malformed too
    let payload = format!("{}#1#2", a);
    let (dispatches, complete) = parse_distribution(&payload);
    assert!(!complete);
    assert_eq!(dispatches.len(), 0);

    // so is an undecodable recipient
    let (dispatches, complete) = parse_distribution("notbase58!#5");
    assert!(!complete);
    assert_eq!(dispatches.len(), 0);
}

#[test]
fn distribute_governance_token_plans_batch() {
    let manager = acct(1);
    let gov = acct(10);
    let fungible = acct(11);
    let mut dao = DaoContract::new(
        manager,
        "O".to_string(),
        "https://example.invalid/o".to_string(),
        "a test organization".to_string(),
    );
    assert_eq!(dao.add_dao_token(&manager, TokenType::GovernanceToken, gov), Ok(()));
    assert_eq!(dao.add_dao_token(&manager, TokenType::FungibleAsset, fungible), Ok(()));

    let a = encode_account([0x11u8; 32]);
    let b = encode_account([0x22u8; 32]);
    let payload = format!("{}#100?{}#200", a, b);

    assert!(matches!(
        dao.distribute_governance_token(&acct(9), &gov, &payload),
        Err(Error::ThisFunctionCanBeCalledFromDaoManager)
    ));
    assert!(matches!(
        dao.distribute_governance_token(&manager, &acct(12), &payload),
        Err(Error::TheTokenDoesNotExist)
    ));
    assert!(matches!(
        dao.distribute_governance_token(&manager, &fungible, &payload),
        Err(Error::InvalidOperation)
    ));

    let plan = dao.distribute_governance_token(&manager, &gov, &payload).unwrap();
    assert!(plan.complete);
    assert_eq!(plan.dispatches.len(), 2);
    assert_eq!(plan.dispatches[0].amount, 100);
    assert_eq!(plan.dispatches[1].amount, 200);

    // a malformed tail still plans the record before it
    let partial = format!("{}#100?{}", a, b);
    let plan = dao.distribute_governance_token(&manager, &gov, &partial).unwrap();
    assert!(!plan.complete);
    assert_eq!(plan.dispatches.len(), 1);
    assert_eq!(plan.dispatches[0].amount, 100);
}

#[test]
fn distribution_outcome_translation() {
    // a downstream failure outweighs the malformed tail
    assert_eq!(
        DaoContract::distribution_outcome(false, true),
        Err(Error::DistributionIsFailure)
    );
    assert_eq!(
        DaoContract::distribution_outcome(true, true),
        Err(Error::DistributionIsFailure)
    );
    assert_eq!(
        DaoContract::distribution_outcome(false, false),
        Err(Error::WrongCsvData)
    );
    assert_eq!(DaoContract::distribution_outcome(true, false), Ok(()));
}
