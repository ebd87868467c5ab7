use vban::{AccountId, Error, Vban};

fn alice() -> AccountId {
    AccountId::from_bytes([0x01; 32])
}

fn bob() -> AccountId {
    AccountId::from_bytes([0x02; 32])
}

fn charlie() -> AccountId {
    AccountId::from_bytes([0x03; 32])
}

#[test]
fn new_works() {
    let contract = Vban::new(alice(), 777);
    assert_eq!(contract.total_supply(), 777);
}

#[test]
fn balance_works() {
    let contract = Vban::new(alice(), 100);
    assert_eq!(contract.total_supply(), 100);
    assert_eq!(contract.balance_of(alice()), 100);
    assert_eq!(contract.balance_of(bob()), 0);
}

#[test]
fn transfer_works() {
    let mut contract = Vban::new(alice(), 100);
    assert_eq!(contract.balance_of(alice()), 100);
    assert!(contract.transfer(alice(), bob(), 10).is_ok());
    assert_eq!(contract.balance_of(bob()), 10);
    assert!(contract.transfer(alice(), bob(), 100).is_err());
}

#[test]
fn construction_credits_constructor_only() {
    let contract = Vban::new(bob(), 5000);
    assert_eq!(contract.total_supply(), 5000);
    assert_eq!(contract.balance_of(bob()), 5000);
    assert_eq!(contract.balance_of(alice()), 0);
    assert_eq!(contract.balance_of(charlie()), 0);
}

#[test]
fn construction_with_largest_supply() {
    let contract = Vban::new(alice(), u128::MAX);
    assert_eq!(contract.total_supply(), u128::MAX);
    assert_eq!(contract.balance_of(alice()), u128::MAX);
}

#[test]
fn insufficient_transfer_changes_nothing() {
    let mut contract = Vban::new(alice(), 100);
    assert_eq!(contract.transfer(alice(), bob(), 1000), Err(Error::InsufficientBalance));
    assert_eq!(contract.balance_of(alice()), 100);
    assert_eq!(contract.balance_of(bob()), 0);
}

#[test]
fn transfer_updates_both_sides() {
    let mut contract = Vban::new(alice(), 100);
    assert_eq!(contract.transfer(alice(), bob(), 10), Ok(()));
    assert_eq!(contract.balance_of(alice()), 90);
    assert_eq!(contract.balance_of(bob()), 10);
}

#[test]
fn self_transfer_is_no_op() {
    let mut contract = Vban::new(alice(), 100);
    assert_eq!(contract.transfer(alice(), alice(), 10), Ok(()));
    assert_eq!(contract.balance_of(alice()), 100);
}

#[test]
fn zero_transfer_succeeds_and_changes_nothing() {
    let mut contract = Vban::new(alice(), 100);
    assert_eq!(contract.transfer(bob(), charlie(), 0), Ok(()));
    assert_eq!(contract.transfer(alice(), bob(), 0), Ok(()));
    assert_eq!(contract.balance_of(alice()), 100);
    assert_eq!(contract.balance_of(bob()), 0);
    assert_eq!(contract.balance_of(charlie()), 0);
}

#[test]
fn exact_balance_transfer_drains_to_zero() {
    let mut contract = Vban::new(alice(), 100);
    assert_eq!(contract.transfer(alice(), bob(), 100), Ok(()));
    assert_eq!(contract.balance_of(alice()), 0);
    assert_eq!(contract.balance_of(bob()), 100);
    assert_eq!(contract.transfer(alice(), bob(), 1), Err(Error::InsufficientBalance));
}

#[test]
fn balances_sum_to_supply_after_transfers() {
    let mut contract = Vban::new(alice(), 1000);
    assert_eq!(contract.transfer(alice(), bob(), 300), Ok(()));
    assert_eq!(contract.transfer(bob(), charlie(), 120), Ok(()));
    assert_eq!(contract.transfer(charlie(), alice(), 20), Ok(()));
    assert_eq!(contract.transfer(bob(), alice(), 500), Err(Error::InsufficientBalance));
    let sum = contract.balance_of(alice()) + contract.balance_of(bob()) + contract.balance_of(charlie());
    assert_eq!(contract.balance_of(alice()), 720);
    assert_eq!(contract.balance_of(bob()), 180);
    assert_eq!(contract.balance_of(charlie()), 100);
    assert_eq!(sum, contract.total_supply());
}

#[test]
fn largest_supply_moves_without_overflow() {
    let mut contract = Vban::new(alice(), u128::MAX);
    assert_eq!(contract.transfer(alice(), bob(), u128::MAX - 1), Ok(()));
    assert_eq!(contract.transfer(alice(), bob(), 1), Ok(()));
    assert_eq!(contract.balance_of(alice()), 0);
    assert_eq!(contract.balance_of(bob()), u128::MAX);
}

#[test]
fn account_identity_compares_every_byte() {
    let mut last = [0x01; 32];
    last[31] = 0x09;
    assert!(alice().same_as(&alice()));
    assert!(!alice().same_as(&bob()));
    assert!(!alice().same_as(&AccountId::from_bytes(last)));
}
