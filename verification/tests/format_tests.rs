//! Tests of text rendering and input-row decoding.

use toy_payments::io::{ClientLedgerEntity, TxRowEntity, TxTypeEntity};
use toy_payments::text::{amount_string, bool_string, u64_string};
use toy_payments::types::{
    AccountActivity, ClientId, ClientLedger, DisputeManagement, MonetaryAmount, Transaction,
    TransactionId,
};

#[test]
fn u64_renders_decimal_digits() {
    assert_eq!(u64_string(0), "0");
    assert_eq!(u64_string(7), "7");
    assert_eq!(u64_string(10), "10");
    assert_eq!(u64_string(65535), "65535");
    assert_eq!(u64_string(1000000007), "1000000007");
}

#[test]
fn amounts_render_with_four_decimals() {
    assert_eq!(amount_string(MonetaryAmount::new(0)), "0.0000");
    assert_eq!(amount_string(MonetaryAmount::new(1)), "0.0001");
    assert_eq!(amount_string(MonetaryAmount::new(15000)), "1.5000");
    assert_eq!(amount_string(MonetaryAmount::new(-500000)), "-50.0000");
    assert_eq!(amount_string(MonetaryAmount::new(123456789)), "12345.6789");
    assert_eq!(amount_string(MonetaryAmount::new(-1)), "-0.0001");
}

#[test]
fn booleans_render_as_literals() {
    assert_eq!(bool_string(true), "true");
    assert_eq!(bool_string(false), "false");
}

#[test]
fn rows_decode_into_domain_transactions() {
    let dep = TxRowEntity {
        tx_type: TxTypeEntity::Deposit,
        client: 1,
        tx: 9,
        amount: Some(MonetaryAmount::new(25000)),
    };
    assert_eq!(
        dep.into_domain(),
        Transaction::Activity(AccountActivity::Deposit(
            ClientId::new(1),
            TransactionId::new(9),
            MonetaryAmount::new(25000),
        ))
    );

    let wd = TxRowEntity {
        tx_type: TxTypeEntity::Withdrawal,
        client: 2,
        tx: 10,
        amount: Some(MonetaryAmount::new(100)),
    };
    assert_eq!(
        wd.into_domain(),
        Transaction::Activity(AccountActivity::Withdrawal(
            ClientId::new(2),
            TransactionId::new(10),
            MonetaryAmount::new(100),
        ))
    );

    let dis = TxRowEntity { tx_type: TxTypeEntity::Dispute, client: 3, tx: 11, amount: None };
    assert_eq!(
        dis.into_domain(),
        Transaction::Dispute(DisputeManagement::Dispute(ClientId::new(3), TransactionId::new(11)))
    );

    let res = TxRowEntity { tx_type: TxTypeEntity::Resolve, client: 3, tx: 11, amount: None };
    assert_eq!(
        res.into_domain(),
        Transaction::Dispute(DisputeManagement::Resolve(ClientId::new(3), TransactionId::new(11)))
    );

    let cb = TxRowEntity { tx_type: TxTypeEntity::ChargeBack, client: 3, tx: 11, amount: None };
    assert_eq!(
        cb.into_domain(),
        Transaction::Dispute(DisputeManagement::Chargeback(
            ClientId::new(3),
            TransactionId::new(11),
        ))
    );
}

#[test]
fn ledger_rows_flatten_into_entities() {
    let row = ClientLedger {
        id: ClientId::new(4),
        available: MonetaryAmount::new(10),
        held: MonetaryAmount::new(20),
        total: MonetaryAmount::new(30),
        is_locked: true,
    };
    let entity = ClientLedgerEntity::from_ledger(row);
    assert_eq!(entity.client, 4);
    assert_eq!(entity.available, MonetaryAmount::new(10));
    assert_eq!(entity.held, MonetaryAmount::new(20));
    assert_eq!(entity.total, MonetaryAmount::new(30));
    assert_eq!(entity.locked, true);
}
