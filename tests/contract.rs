use deposit_ledger::{Contract, LedgerError, StorageKey, TransferRequest};

const CUSTODIAN: &str = "mt";

fn s(x: &str) -> String {
    x.to_string()
}

fn deposit(c: &mut Contract, from: &str, owner: &str, token: &str, amount: u128) -> Result<Vec<u128>, LedgerError> {
    c.mt_on_transfer(
        &s(from),
        s(owner),
        vec![s(owner)],
        vec![s(token)],
        vec![amount],
        s("Random message"),
    )
}

fn balance(c: &Contract, account: &str, token: &str) -> Option<u128> {
    c.get_token_balance_for_account(&s(account), &s(token))
}

fn tokens(c: &Contract, account: &str) -> Vec<(String, u128)> {
    c.get_tokens_for_account(s(account), &None, &None)
}

fn withdraw(c: &mut Contract, account: &str, token: &str) -> Result<TransferRequest, LedgerError> {
    c.withdraw_token(&s(account), s(token))
}

#[test]
fn test_contract_is_operational() {
    let mut c = Contract::new(s(CUSTODIAN));

    assert_eq!(deposit(&mut c, CUSTODIAN, "alice", "1", 50), Ok(vec![0]));
    assert_eq!(balance(&c, "alice", "1"), Some(50));
    assert_eq!(deposit(&mut c, CUSTODIAN, "alice", "2", 30), Ok(vec![0]));
    assert_eq!(balance(&c, "alice", "2"), Some(30));

    let alice = tokens(&c, "alice");
    assert_eq!(alice.len(), 2, "Expected 2 tokens for Alice, got {}", alice.len());
    assert!(alice.contains(&(s("1"), 50)), "Expected token 1 with balance 50");
    assert!(alice.contains(&(s("2"), 30)), "Expected token 2 with balance 30");

    assert_eq!(deposit(&mut c, CUSTODIAN, "bob", "1", 10), Ok(vec![0]));
    assert_eq!(balance(&c, "bob", "1"), Some(10));

    // Alice withdraws token 2 and the transfer succeeds.
    let req = withdraw(&mut c, "alice", "2").expect("Token withdrawal failed");
    assert_eq!(req.amount, 30);
    assert_eq!(c.withdraw_callback(true, req.token_id, req.amount, req.receiver_id), Ok(0));
    assert_eq!(balance(&c, "alice", "2"), None);
    assert!(withdraw(&mut c, "alice", "2").is_err(), "Token withdrawal should fail");

    // Bob withdraws token 1 and his ledger goes.
    let req = withdraw(&mut c, "bob", "1").expect("Token withdrawal failed");
    assert_eq!(c.withdraw_callback(true, req.token_id, req.amount, req.receiver_id), Ok(0));
    let bob = tokens(&c, "bob");
    assert!(bob.is_empty(), "Expected Bob's token balance array to be empty after withdrawal, got {:?}", bob);
    assert!(withdraw(&mut c, "bob", "1").is_err(), "Token withdrawal should fail");

    // A deposit relayed by another multi-token contract is refused.
    assert_eq!(deposit(&mut c, "faulty_mt", "bob", "1", 10), Err(LedgerError::UntrustedSender));
    assert_eq!(balance(&c, "contract", "1"), None);
    let bob = tokens(&c, "bob");
    assert!(bob.is_empty(), "Expected contract's token map to be empty for faulty token, got {:?}", bob);

    // While a withdrawal is in flight the balance reads zero.
    assert_eq!(deposit(&mut c, CUSTODIAN, "alice", "1", 20), Ok(vec![0]));
    assert_eq!(balance(&c, "alice", "1"), Some(70));
    let _pending = withdraw(&mut c, "alice", "1").expect("Token withdrawal failed");
    assert_eq!(balance(&c, "alice", "1"), Some(0), "Balance never reached 0");
}

#[test]
fn credit_is_additive() {
    let mut c = Contract::new(s(CUSTODIAN));
    assert!(deposit(&mut c, CUSTODIAN, "a", "X", 7).is_ok());
    assert!(deposit(&mut c, CUSTODIAN, "a", "X", 5).is_ok());
    assert_eq!(balance(&c, "a", "X"), Some(12));
}

#[test]
fn withdraw_zeroes_balance_before_callback() {
    let mut c = Contract::new(s(CUSTODIAN));
    deposit(&mut c, CUSTODIAN, "a", "X", 42).unwrap();
    let req = withdraw(&mut c, "a", "X").unwrap();
    assert_eq!(req.contract_id, CUSTODIAN);
    assert_eq!(req.receiver_id, "a");
    assert_eq!(req.token_id, "X");
    assert_eq!(req.amount, 42);
    assert_eq!(balance(&c, "a", "X"), Some(0));
    assert_eq!(tokens(&c, "a"), vec![(s("X"), 0)]);
}

#[test]
fn successful_callback_removes_entry() {
    let mut c = Contract::new(s(CUSTODIAN));
    deposit(&mut c, CUSTODIAN, "a", "X", 3).unwrap();
    deposit(&mut c, CUSTODIAN, "a", "Y", 4).unwrap();
    withdraw(&mut c, "a", "X").unwrap();
    assert_eq!(c.withdraw_callback(true, s("X"), 3, s("a")), Ok(0));
    assert_eq!(balance(&c, "a", "X"), None);
    assert_eq!(tokens(&c, "a"), vec![(s("Y"), 4)]);
    withdraw(&mut c, "a", "Y").unwrap();
    assert_eq!(c.withdraw_callback(true, s("Y"), 4, s("a")), Ok(0));
    assert_eq!(tokens(&c, "a"), Vec::<(String, u128)>::new());
}

#[test]
fn failed_callback_restores_balance() {
    let mut c = Contract::new(s(CUSTODIAN));
    deposit(&mut c, CUSTODIAN, "a", "X", 9).unwrap();
    let req = withdraw(&mut c, "a", "X").unwrap();
    assert_eq!(c.withdraw_callback(false, req.token_id, req.amount, req.receiver_id), Ok(9));
    assert_eq!(balance(&c, "a", "X"), Some(9));
    let again = withdraw(&mut c, "a", "X").unwrap();
    assert_eq!(again.amount, 9);
}

#[test]
fn second_withdraw_while_pending_is_refused() {
    let mut c = Contract::new(s(CUSTODIAN));
    deposit(&mut c, CUSTODIAN, "a", "X", 9).unwrap();
    withdraw(&mut c, "a", "X").unwrap();
    assert_eq!(withdraw(&mut c, "a", "X").unwrap_err(), LedgerError::ZeroBalance);
    assert_eq!(balance(&c, "a", "X"), Some(0));
    assert_eq!(tokens(&c, "a"), vec![(s("X"), 0)]);
}

#[test]
fn untrusted_sender_is_refused() {
    let mut c = Contract::new(s(CUSTODIAN));
    deposit(&mut c, CUSTODIAN, "a", "X", 1).unwrap();
    assert_eq!(deposit(&mut c, "other", "a", "X", 5), Err(LedgerError::UntrustedSender));
    assert_eq!(deposit(&mut c, "other", "b", "Y", 5), Err(LedgerError::UntrustedSender));
    assert_eq!(balance(&c, "a", "X"), Some(1));
    assert_eq!(tokens(&c, "b"), Vec::<(String, u128)>::new());
}

#[test]
fn scenario_full_withdrawal_empties_ledger() {
    let mut c = Contract::new(s(CUSTODIAN));
    deposit(&mut c, CUSTODIAN, "A", "X", 100).unwrap();
    assert_eq!(balance(&c, "A", "X"), Some(100));
    let req = withdraw(&mut c, "A", "X").unwrap();
    assert_eq!(balance(&c, "A", "X"), Some(0));
    assert_eq!(c.withdraw_callback(true, req.token_id, req.amount, req.receiver_id), Ok(0));
    assert_eq!(balance(&c, "A", "X"), None);
    assert_eq!(tokens(&c, "A"), Vec::<(String, u128)>::new());
}

#[test]
fn scenario_failure_then_retry() {
    let mut c = Contract::new(s(CUSTODIAN));
    deposit(&mut c, CUSTODIAN, "B", "Y", 50).unwrap();
    let req = withdraw(&mut c, "B", "Y").unwrap();
    assert_eq!(c.withdraw_callback(false, req.token_id, req.amount, req.receiver_id), Ok(50));
    assert_eq!(balance(&c, "B", "Y"), Some(50));
    let req = withdraw(&mut c, "B", "Y").unwrap();
    assert_eq!(req.amount, 50);
    assert_eq!(c.withdraw_callback(true, req.token_id, req.amount, req.receiver_id), Ok(0));
    assert_eq!(balance(&c, "B", "Y"), None);
}

#[test]
fn deposit_with_several_tokens_is_refused() {
    let mut c = Contract::new(s(CUSTODIAN));
    let r = c.mt_on_transfer(&s(CUSTODIAN), s("a"), vec![s("a")], vec![s("X"), s("Y")], vec![1], s(""));
    assert_eq!(r, Err(LedgerError::MultipleTokens));
    let r = c.mt_on_transfer(&s(CUSTODIAN), s("a"), vec![s("a")], vec![], vec![1], s(""));
    assert_eq!(r, Err(LedgerError::MultipleTokens));
    assert_eq!(tokens(&c, "a"), Vec::<(String, u128)>::new());
}

#[test]
fn deposit_with_wrong_lengths_is_refused() {
    let mut c = Contract::new(s(CUSTODIAN));
    let r = c.mt_on_transfer(&s(CUSTODIAN), s("a"), vec![s("a"), s("b")], vec![s("X")], vec![1], s(""));
    assert_eq!(r, Err(LedgerError::InvalidInputLength));
    let r = c.mt_on_transfer(&s(CUSTODIAN), s("a"), vec![s("a")], vec![s("X")], vec![1, 2], s(""));
    assert_eq!(r, Err(LedgerError::InvalidInputLength));
    assert_eq!(tokens(&c, "a"), Vec::<(String, u128)>::new());
}

#[test]
fn zero_deposit_is_refused() {
    let mut c = Contract::new(s(CUSTODIAN));
    assert_eq!(deposit(&mut c, CUSTODIAN, "a", "X", 0), Err(LedgerError::ZeroAmount));
    assert_eq!(balance(&c, "a", "X"), None);
}

#[test]
fn overflowing_deposit_is_refused() {
    let mut c = Contract::new(s(CUSTODIAN));
    deposit(&mut c, CUSTODIAN, "a", "X", u128::MAX - 1).unwrap();
    assert_eq!(deposit(&mut c, CUSTODIAN, "a", "X", 2), Err(LedgerError::Overflow));
    assert_eq!(balance(&c, "a", "X"), Some(u128::MAX - 1));
    assert_eq!(deposit(&mut c, CUSTODIAN, "a", "X", 1), Ok(vec![0]));
    assert_eq!(balance(&c, "a", "X"), Some(u128::MAX));
}

#[test]
fn withdraw_without_ledger_is_refused() {
    let mut c = Contract::new(s(CUSTODIAN));
    assert_eq!(withdraw(&mut c, "nobody", "X").unwrap_err(), LedgerError::NoTokensForAccount);
    deposit(&mut c, CUSTODIAN, "a", "X", 1).unwrap();
    assert_eq!(withdraw(&mut c, "a", "Y").unwrap_err(), LedgerError::ZeroBalance);
}

#[test]
fn callback_without_entry_is_refused() {
    let mut c = Contract::new(s(CUSTODIAN));
    assert_eq!(c.withdraw_callback(true, s("X"), 5, s("a")), Err(LedgerError::MissingEntry));
    assert_eq!(c.withdraw_callback(false, s("X"), 5, s("a")), Err(LedgerError::MissingEntry));
    deposit(&mut c, CUSTODIAN, "a", "X", 1).unwrap();
    assert_eq!(c.withdraw_callback(false, s("Y"), 5, s("a")), Err(LedgerError::MissingEntry));
    assert_eq!(balance(&c, "a", "Y"), None);
    assert_eq!(tokens(&c, "a"), vec![(s("X"), 1)]);
}

#[test]
fn listing_pages_in_deposit_order() {
    let mut c = Contract::new(s(CUSTODIAN));
    for (t, v) in [("t1", 1u128), ("t2", 2), ("t3", 3), ("t4", 4)] {
        deposit(&mut c, CUSTODIAN, "a", t, v).unwrap();
    }
    let all = vec![(s("t1"), 1), (s("t2"), 2), (s("t3"), 3), (s("t4"), 4)];
    assert_eq!(c.get_tokens_for_account(s("a"), &None, &None), all);
    assert_eq!(c.get_tokens_for_account(s("a"), &Some(1), &Some(2)), vec![(s("t2"), 2), (s("t3"), 3)]);
    assert_eq!(c.get_tokens_for_account(s("a"), &Some(2), &None), vec![(s("t3"), 3), (s("t4"), 4)]);
    assert_eq!(c.get_tokens_for_account(s("a"), &None, &Some(1)), vec![(s("t1"), 1)]);
    assert_eq!(c.get_tokens_for_account(s("a"), &Some(3), &Some(10)), vec![(s("t4"), 4)]);
    assert_eq!(c.get_tokens_for_account(s("a"), &Some(4), &None), Vec::<(String, u128)>::new());
    assert_eq!(c.get_tokens_for_account(s("a"), &Some(99), &Some(5)), Vec::<(String, u128)>::new());
    assert_eq!(c.get_tokens_for_account(s("a"), &Some(0), &Some(0)), Vec::<(String, u128)>::new());
    assert_eq!(c.get_tokens_for_account(s("a"), &Some(1), &Some(u32::MAX)), all[1..].to_vec());
}

#[test]
fn removal_keeps_listing_order() {
    let mut c = Contract::new(s(CUSTODIAN));
    for t in ["t1", "t2", "t3"] {
        deposit(&mut c, CUSTODIAN, "a", t, 1).unwrap();
    }
    withdraw(&mut c, "a", "t2").unwrap();
    c.withdraw_callback(true, s("t2"), 1, s("a")).unwrap();
    assert_eq!(tokens(&c, "a"), vec![(s("t1"), 1), (s("t3"), 1)]);
    deposit(&mut c, CUSTODIAN, "a", "t2", 8).unwrap();
    assert_eq!(tokens(&c, "a"), vec![(s("t1"), 1), (s("t3"), 1), (s("t2"), 8)]);
}

#[test]
fn accounts_are_kept_apart() {
    let mut c = Contract::new(s(CUSTODIAN));
    deposit(&mut c, CUSTODIAN, "a", "X", 1).unwrap();
    deposit(&mut c, CUSTODIAN, "b", "X", 2).unwrap();
    withdraw(&mut c, "a", "X").unwrap();
    assert_eq!(balance(&c, "b", "X"), Some(2));
    c.withdraw_callback(true, s("X"), 1, s("a")).unwrap();
    assert_eq!(tokens(&c, "a"), Vec::<(String, u128)>::new());
    assert_eq!(tokens(&c, "b"), vec![(s("X"), 2)]);
}

#[test]
fn custodian_is_fixed_at_construction() {
    let c = Contract::new(s("intents.near"));
    assert_eq!(c.intents_contract_id(), "intents.near");
}

#[test]
fn storage_key_prefix_is_variant_index() {
    assert_eq!(StorageKey::Balances.into_storage_key(), vec![0u8]);
}

#[test]
fn error_messages_describe_the_refusal() {
    assert_eq!(LedgerError::ZeroBalance.message(), "Token balance is zero");
    assert_eq!(LedgerError::NoTokensForAccount.message(), "No tokens found for account");
    assert_eq!(LedgerError::MultipleTokens.message(), "This contract only accepts one token at a time");
}

#[test]
fn snapshot_round_trip() {
    let mut c = Contract::new(s(CUSTODIAN));
    deposit(&mut c, CUSTODIAN, "a", "X", 1).unwrap();
    deposit(&mut c, CUSTODIAN, "b", "Y", 2).unwrap();
    deposit(&mut c, CUSTODIAN, "a", "Z", 3).unwrap();
    let snap = c.snapshot();
    assert_eq!(
        snap,
        vec![(s("a"), vec![(s("X"), 1), (s("Z"), 3)]), (s("b"), vec![(s("Y"), 2)])]
    );
    let back = Contract::from_snapshot(s(CUSTODIAN), snap).unwrap();
    assert_eq!(back.intents_contract_id(), CUSTODIAN);
    assert_eq!(balance(&back, "a", "Z"), Some(3));
    assert_eq!(tokens(&back, "b"), vec![(s("Y"), 2)]);
}

#[test]
fn invalid_snapshot_is_refused() {
    let twice = vec![(s("a"), vec![(s("X"), 1)]), (s("a"), vec![(s("Y"), 2)])];
    assert!(Contract::from_snapshot(s(CUSTODIAN), twice).is_none());
    let empty_ledger = vec![(s("a"), Vec::new())];
    assert!(Contract::from_snapshot(s(CUSTODIAN), empty_ledger).is_none());
    let token_twice = vec![(s("a"), vec![(s("X"), 1), (s("X"), 2)])];
    assert!(Contract::from_snapshot(s(CUSTODIAN), token_twice).is_none());
    assert!(Contract::from_snapshot(s(CUSTODIAN), Vec::new()).is_some());
}
