//! Tests of the monetary primitives and the collection utilities.

use toy_payments::types::{ClientId, ClientState, MonetaryAmount, TransactionHistory};
use toy_payments::utils::{OrDefault, PushImmut, RemoveImmut};

#[test]
fn checked_arithmetic_is_exact() {
    let a = MonetaryAmount::new(15000);
    let b = MonetaryAmount::new(2500);
    assert_eq!(a.checked_add(b), Some(MonetaryAmount::new(17500)));
    assert_eq!(a.checked_sub(b), Some(MonetaryAmount::new(12500)));
    assert_eq!(b.checked_sub(a), Some(MonetaryAmount::new(-12500)));
}

#[test]
fn checked_arithmetic_reports_overflow() {
    let top = MonetaryAmount::new(i64::MAX);
    let one = MonetaryAmount::new(1);
    assert_eq!(top.checked_add(one), None);
    let bottom = MonetaryAmount::new(i64::MIN);
    assert_eq!(bottom.checked_sub(one), None);
}

#[test]
fn get_or_default_finds_stored_state() {
    let client = ClientId::new(3);
    let state = ClientState {
        available: MonetaryAmount::new(10),
        held: MonetaryAmount::new(20),
        total: MonetaryAmount::new(30),
        is_locked: false,
        history: TransactionHistory::default(),
    };
    let ledger = vec![(client, state)];
    let found = ledger.get_or_default(&client);
    assert_eq!(found.available, MonetaryAmount::new(10));
    assert_eq!(found.held, MonetaryAmount::new(20));
    assert_eq!(found.total, MonetaryAmount::new(30));
}

#[test]
fn get_or_default_hands_out_empty_state() {
    let ledger: Vec<(ClientId, ClientState)> = Vec::new();
    let state = ledger.get_or_default(&ClientId::new(9));
    assert_eq!(state.available, MonetaryAmount::new(0));
    assert_eq!(state.held, MonetaryAmount::new(0));
    assert_eq!(state.total, MonetaryAmount::new(0));
    assert_eq!(state.is_locked, false);
    assert!(state.history.account_activity.is_empty());
}

#[test]
fn push_leaves_the_receiver_untouched() {
    let v: Vec<u32> = vec![1, 2];
    let w = PushImmut::push(&v, 3);
    assert_eq!(v, vec![1, 2]);
    assert_eq!(w, vec![1, 2, 3]);
}

#[test]
fn remove_idx_leaves_the_receiver_untouched() {
    let v: Vec<u32> = vec![1, 2, 3];
    let w = v.remove_idx(1);
    assert_eq!(v, vec![1, 2, 3]);
    assert_eq!(w, vec![1, 3]);
}
