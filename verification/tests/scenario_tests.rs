//! End-to-end scenarios over the engine and the rendered output.

use toy_payments::io::output_csv;
use toy_payments::test_support::{assert_unsorted_eq, create_csv};
use toy_payments::transactions::create_ledger;
use toy_payments::types::{
    AccountActivity, ClientId, ClientLedger, DisputeManagement, MonetaryAmount, Transaction,
    TransactionId,
};

fn deposit(c: u16, t: u32, units: i64) -> Transaction {
    Transaction::Activity(AccountActivity::Deposit(
        ClientId::new(c),
        TransactionId::new(t),
        MonetaryAmount::new(units),
    ))
}

fn withdrawal(c: u16, t: u32, units: i64) -> Transaction {
    Transaction::Activity(AccountActivity::Withdrawal(
        ClientId::new(c),
        TransactionId::new(t),
        MonetaryAmount::new(units),
    ))
}

fn dispute(c: u16, t: u32) -> Transaction {
    Transaction::Dispute(DisputeManagement::Dispute(ClientId::new(c), TransactionId::new(t)))
}

fn resolve(c: u16, t: u32) -> Transaction {
    Transaction::Dispute(DisputeManagement::Resolve(ClientId::new(c), TransactionId::new(t)))
}

fn chargeback(c: u16, t: u32) -> Transaction {
    Transaction::Dispute(DisputeManagement::Chargeback(ClientId::new(c), TransactionId::new(t)))
}

fn row_for(ledger: Vec<ClientLedger>, c: u16) -> ClientLedger {
    ledger.into_iter().find(|x| x.id == ClientId::new(c)).unwrap()
}

#[test]
fn deposit_then_withdrawal_within_funds() {
    let ledger = create_ledger(vec![deposit(1, 1, 50000), withdrawal(1, 2, 30000)]);
    let row = row_for(ledger.0, 1);
    assert_eq!(row.available, MonetaryAmount::new(20000));
    assert_eq!(row.held, MonetaryAmount::new(0));
    assert_eq!(row.total, MonetaryAmount::new(20000));
    assert_eq!(row.is_locked, false);
}

#[test]
fn withdrawal_exceeding_funds_is_dropped() {
    let ledger = create_ledger(vec![deposit(1, 1, 100000), withdrawal(1, 2, 200000)]);
    let row = row_for(ledger.0, 1);
    assert_eq!(row.available, MonetaryAmount::new(100000));
    assert_eq!(row.total, MonetaryAmount::new(100000));
    assert_eq!(row.held, MonetaryAmount::new(0));
}

#[test]
fn dispute_resolve_round_trip_restores_values() {
    let disputed = create_ledger(vec![deposit(1, 1, 50000), dispute(1, 1)]);
    let row = row_for(disputed.0, 1);
    assert_eq!(row.available, MonetaryAmount::new(0));
    assert_eq!(row.held, MonetaryAmount::new(50000));
    assert_eq!(row.total, MonetaryAmount::new(50000));

    let resolved = create_ledger(vec![deposit(1, 1, 50000), dispute(1, 1), resolve(1, 1)]);
    let row = row_for(resolved.0, 1);
    assert_eq!(row.available, MonetaryAmount::new(50000));
    assert_eq!(row.held, MonetaryAmount::new(0));
    assert_eq!(row.total, MonetaryAmount::new(50000));
}

#[test]
fn chargeback_empties_and_locks() {
    let ledger = create_ledger(vec![deposit(1, 1, 50000), dispute(1, 1), chargeback(1, 1)]);
    let row = row_for(ledger.0, 1);
    assert_eq!(row.available, MonetaryAmount::new(0));
    assert_eq!(row.held, MonetaryAmount::new(0));
    assert_eq!(row.total, MonetaryAmount::new(0));
    assert_eq!(row.is_locked, true);
}

#[test]
fn retroactive_backfill_applies_rejected_withdrawal() {
    let ledger = create_ledger(vec![
        deposit(1, 1, 2500000),
        deposit(1, 2, 100000),
        dispute(1, 2),
        withdrawal(1, 3, 2550000),
        resolve(1, 2),
    ]);
    let row = row_for(ledger.0, 1);
    assert_eq!(row.available, MonetaryAmount::new(50000));
    assert_eq!(row.held, MonetaryAmount::new(0));
    assert_eq!(row.total, MonetaryAmount::new(50000));
    assert_eq!(row.is_locked, false);
}

#[test]
fn withdrawal_rejected_before_dispute_is_never_backfilled() {
    // The withdrawal is attempted while an unrelated dispute is open, but the
    // dispute that is later resolved was opened only afterwards: its id is
    // not in the rejection's snapshot, so no backfill happens for it.
    let ledger = create_ledger(vec![
        deposit(1, 1, 2000000),
        deposit(1, 2, 500000),
        dispute(1, 1),
        withdrawal(1, 3, 1000000),
        dispute(1, 2),
        resolve(1, 2),
    ]);
    let row = row_for(ledger.0, 1);
    // The resolve of the second dispute frees its funds, but the rejected
    // withdrawal's snapshot holds only the first dispute, so it stays
    // unapplied.
    assert_eq!(row.available, MonetaryAmount::new(500000));
    assert_eq!(row.held, MonetaryAmount::new(2000000));
    assert_eq!(row.total, MonetaryAmount::new(2500000));
}

#[test]
fn backfills_chain_across_successive_resolves() {
    // The first resolve backfills one rejected withdrawal; the second frees
    // enough again for the remaining one, because each resolve re-runs the
    // pass over the already-shrunk rejected list.
    let ledger = create_ledger(vec![
        deposit(1, 1, 1000000),
        deposit(1, 2, 600000),
        deposit(1, 3, 1500000),
        dispute(1, 2),
        dispute(1, 3),
        withdrawal(1, 4, 1500000),
        withdrawal(1, 5, 1100000),
        resolve(1, 2),
        resolve(1, 3),
    ]);
    let row = row_for(ledger.0, 1);
    assert_eq!(row.available, MonetaryAmount::new(500000));
    assert_eq!(row.held, MonetaryAmount::new(0));
    assert_eq!(row.total, MonetaryAmount::new(500000));
}

#[test]
fn empty_stream_yields_empty_ledger() {
    let ledger = create_ledger(vec![]);
    assert!(ledger.0.is_empty());
}

#[test]
fn claim_for_unknown_client_creates_default_row() {
    // A client whose only transactions are ineffective claims still appeared
    // in the stream: the ledger reports it with the default all-zero,
    // unlocked state.
    let ledger = create_ledger(vec![dispute(7, 1), resolve(7, 1), chargeback(7, 1)]);
    assert_eq!(ledger.0.len(), 1);
    let row = row_for(ledger.0, 7);
    assert_eq!(row.available, MonetaryAmount::new(0));
    assert_eq!(row.held, MonetaryAmount::new(0));
    assert_eq!(row.total, MonetaryAmount::new(0));
    assert_eq!(row.is_locked, false);
}

#[test]
fn locked_account_ignores_everything() {
    let ledger = create_ledger(vec![
        deposit(1, 1, 50000),
        dispute(1, 1),
        chargeback(1, 1),
        deposit(1, 2, 70000),
        withdrawal(1, 3, 10000),
        dispute(1, 2),
        resolve(1, 1),
    ]);
    let row = row_for(ledger.0, 1);
    assert_eq!(row.available, MonetaryAmount::new(0));
    assert_eq!(row.held, MonetaryAmount::new(0));
    assert_eq!(row.total, MonetaryAmount::new(0));
    assert_eq!(row.is_locked, true);
}

#[test]
fn output_renders_four_decimal_places() {
    let ledger = create_ledger(vec![deposit(1, 1, 15000)]);
    let text = output_csv(ledger.0);
    assert_eq!(text, "client,available,held,total,locked\n1,1.5000,0.0000,1.5000,false\n");
}

#[test]
fn output_renders_negative_amounts() {
    // A deposit is withdrawn, disputed and charged back: the account ends
    // below zero, as the original deposit already left.
    let ledger = create_ledger(vec![
        deposit(1, 1, 500000),
        withdrawal(1, 2, 500000),
        dispute(1, 1),
        chargeback(1, 1),
    ]);
    let row = row_for(ledger.0.clone(), 1);
    assert_eq!(row.available, MonetaryAmount::new(-500000));
    assert_eq!(row.total, MonetaryAmount::new(-500000));
    assert_eq!(row.is_locked, true);
    let text = output_csv(ledger.0);
    assert_eq!(text, "client,available,held,total,locked\n1,-50.0000,0.0000,-50.0000,true\n");
}

#[test]
fn output_matches_expected_rows_in_any_order() {
    let ledger = create_ledger(vec![deposit(2, 1, 20000), deposit(1, 2, 15000)]);
    let text = output_csv(ledger.0);
    let expected = create_csv(vec![
        ["1", "1.5000", "0.0000", "1.5000", "false"],
        ["2", "2.0000", "0.0000", "2.0000", "false"],
    ]);
    assert!(assert_unsorted_eq(&text, &expected));
}

#[test]
fn disputing_a_withdrawal_changes_nothing() {
    let ledger = create_ledger(vec![
        deposit(1, 1, 100000),
        withdrawal(1, 2, 30000),
        dispute(1, 2),
    ]);
    let row = row_for(ledger.0, 1);
    assert_eq!(row.available, MonetaryAmount::new(70000));
    assert_eq!(row.held, MonetaryAmount::new(0));
    assert_eq!(row.total, MonetaryAmount::new(70000));
}

#[test]
fn repeated_dispute_has_single_effect() {
    let once = create_ledger(vec![deposit(1, 1, 50000), dispute(1, 1)]);
    let thrice = create_ledger(vec![
        deposit(1, 1, 50000),
        dispute(1, 1),
        dispute(1, 1),
        dispute(1, 1),
    ]);
    let row_once = row_for(once.0, 1);
    let row_thrice = row_for(thrice.0, 1);
    assert_eq!(row_once.available, row_thrice.available);
    assert_eq!(row_once.held, row_thrice.held);
    assert_eq!(row_once.total, row_thrice.total);
    assert_eq!(row_once.is_locked, row_thrice.is_locked);
}

#[test]
fn balances_always_split_into_available_and_held() {
    let ledger = create_ledger(vec![
        deposit(1, 1, 100000),
        deposit(1, 2, 30000),
        dispute(1, 2),
        withdrawal(1, 3, 120000),
        resolve(1, 2),
        deposit(2, 4, 5),
        withdrawal(2, 5, 5),
    ]);
    for row in ledger.0 {
        assert_eq!(
            row.total.value(),
            row.available.value() + row.held.value()
        );
    }
}
