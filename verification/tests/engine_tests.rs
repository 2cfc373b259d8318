//! Tests of the per-transaction rules of the ledger engine, driven through
//! the fold with a prepared initial ledger.

use toy_payments::transactions::create_ledger_with_init;
use toy_payments::types::{
    AccountActivity, ClientId, ClientState, DisputeManagement, MonetaryAmount, Transaction,
    TransactionHistory, TransactionId,
};

#[test]
fn cannot_withdraw_under_avail() {
    let client_id = ClientId::new(1);

    let init_state = ClientState {
        total: MonetaryAmount::new(100000),
        available: MonetaryAmount::new(50000),
        held: MonetaryAmount::new(50000),
        history: TransactionHistory::default(),
        is_locked: false,
    };
    let init_ledger = vec![(client_id, init_state.clone())];

    let transactions = vec![Transaction::Activity(AccountActivity::Withdrawal(
        client_id,
        TransactionId::new(1),
        MonetaryAmount::new(60000),
    ))];

    let final_ledger = create_ledger_with_init(init_ledger, transactions);

    let client_ledger = final_ledger
        .0
        .into_iter()
        .find(|x| x.id == client_id)
        .unwrap();

    assert_eq!(client_ledger.total, MonetaryAmount::new(100000));
    assert_eq!(client_ledger.available, MonetaryAmount::new(50000));
    assert_eq!(client_ledger.held, MonetaryAmount::new(50000));
}

#[test]
fn can_withdraw_within_avail() {
    let client_id = ClientId::new(1);

    let init_state = ClientState {
        total: MonetaryAmount::new(100000),
        available: MonetaryAmount::new(50000),
        held: MonetaryAmount::new(50000),
        history: TransactionHistory::default(),
        is_locked: false,
    };
    let init_ledger = vec![(client_id, init_state.clone())];

    let transactions = vec![Transaction::Activity(AccountActivity::Withdrawal(
        client_id,
        TransactionId::new(1),
        MonetaryAmount::new(50000),
    ))];

    let final_ledger = create_ledger_with_init(init_ledger, transactions);

    let client_ledger = final_ledger
        .0
        .into_iter()
        .find(|x| x.id == client_id)
        .unwrap();

    assert_eq!(client_ledger.total, MonetaryAmount::new(50000));
    assert_eq!(client_ledger.available, MonetaryAmount::new(0));
    assert_eq!(client_ledger.held, MonetaryAmount::new(50000));
}

#[test]
fn deposit_increases_total_and_avail() {
    let client_id = ClientId::new(1);

    let init_state = ClientState {
        total: MonetaryAmount::new(100000),
        available: MonetaryAmount::new(50000),
        held: MonetaryAmount::new(50000),
        history: TransactionHistory::default(),
        is_locked: false,
    };
    let init_ledger = vec![(client_id, init_state.clone())];

    let transactions = vec![Transaction::Activity(AccountActivity::Deposit(
        client_id,
        TransactionId::new(1),
        MonetaryAmount::new(50000),
    ))];

    let final_ledger = create_ledger_with_init(init_ledger, transactions);

    let client_ledger = final_ledger
        .0
        .into_iter()
        .find(|x| x.id == client_id)
        .unwrap();

    assert_eq!(client_ledger.total, MonetaryAmount::new(150000));
    assert_eq!(client_ledger.available, MonetaryAmount::new(100000));
    assert_eq!(client_ledger.held, MonetaryAmount::new(50000));
}

#[test]
fn disputed_deposit_reduces_avail() {
    let client_id = ClientId::new(1);

    let init_state = ClientState {
        total: MonetaryAmount::new(100000),
        available: MonetaryAmount::new(100000),
        held: MonetaryAmount::new(0),
        history: TransactionHistory::default(),
        is_locked: false,
    };
    let init_ledger = vec![(client_id, init_state.clone())];

    let transactions = vec![
        Transaction::Activity(AccountActivity::Deposit(
            client_id,
            TransactionId::new(1),
            MonetaryAmount::new(50000),
        )),
        Transaction::Dispute(DisputeManagement::Dispute(client_id, TransactionId::new(1))),
    ];

    let final_ledger = create_ledger_with_init(init_ledger, transactions);

    let client_ledger = final_ledger
        .0
        .into_iter()
        .find(|x| x.id == client_id)
        .unwrap();

    assert_eq!(client_ledger.available, MonetaryAmount::new(100000));
}

#[test]
fn disputed_deposit_does_not_reduce_total() {
    let client_id = ClientId::new(1);

    let init_state = ClientState {
        total: MonetaryAmount::new(100000),
        available: MonetaryAmount::new(100000),
        held: MonetaryAmount::new(0),
        history: TransactionHistory::default(),
        is_locked: false,
    };
    let init_ledger = vec![(client_id, init_state.clone())];

    let transactions = vec![
        Transaction::Activity(AccountActivity::Deposit(
            client_id,
            TransactionId::new(1),
            MonetaryAmount::new(50000),
        )),
        Transaction::Dispute(DisputeManagement::Dispute(client_id, TransactionId::new(1))),
    ];

    let final_ledger = create_ledger_with_init(init_ledger, transactions);

    let client_ledger = final_ledger
        .0
        .into_iter()
        .find(|x| x.id == client_id)
        .unwrap();

    assert_eq!(client_ledger.total, MonetaryAmount::new(150000));
}

#[test]
fn dispute_will_increase_held_amount() {
    let client_id = ClientId::new(1);

    let init_state = ClientState {
        total: MonetaryAmount::new(100000),
        available: MonetaryAmount::new(100000),
        held: MonetaryAmount::new(0),
        history: TransactionHistory::default(),
        is_locked: false,
    };
    let init_ledger = vec![(client_id, init_state.clone())];

    let transactions = vec![
        Transaction::Activity(AccountActivity::Deposit(
            client_id,
            TransactionId::new(1),
            MonetaryAmount::new(50000),
        )),
        Transaction::Dispute(DisputeManagement::Dispute(client_id, TransactionId::new(1))),
    ];

    let final_ledger = create_ledger_with_init(init_ledger, transactions);

    let client_ledger = final_ledger
        .0
        .into_iter()
        .find(|x| x.id == client_id)
        .unwrap();

    assert_eq!(client_ledger.held, MonetaryAmount::new(50000));
}

#[test]
fn disputes_against_withdrawals_are_ignored() {
    let client_id = ClientId::new(1);

    let init_state = ClientState {
        total: MonetaryAmount::new(100000),
        available: MonetaryAmount::new(100000),
        held: MonetaryAmount::new(0),
        history: TransactionHistory::default(),
        is_locked: false,
    };
    let init_ledger = vec![(client_id, init_state.clone())];

    let transactions = vec![
        Transaction::Activity(AccountActivity::Withdrawal(
            client_id,
            TransactionId::new(1),
            MonetaryAmount::new(50000),
        )),
        Transaction::Dispute(DisputeManagement::Dispute(client_id, TransactionId::new(1))),
    ];

    let final_ledger = create_ledger_with_init(init_ledger, transactions);

    let client_ledger = final_ledger
        .0
        .into_iter()
        .find(|x| x.id == client_id)
        .unwrap();

    assert_eq!(client_ledger.total, MonetaryAmount::new(50000));
    assert_eq!(client_ledger.available, MonetaryAmount::new(50000));
    assert_eq!(client_ledger.held, MonetaryAmount::new(0));
}

#[test]
fn dispute_will_ignore_incorrect_tx() {
    let client_id = ClientId::new(1);

    let init_state = ClientState {
        total: MonetaryAmount::new(100000),
        available: MonetaryAmount::new(100000),
        held: MonetaryAmount::new(0),
        history: TransactionHistory::default(),
        is_locked: false,
    };
    let init_ledger = vec![(client_id, init_state.clone())];

    let transactions = vec![
        Transaction::Activity(AccountActivity::Deposit(
            client_id,
            TransactionId::new(1),
            MonetaryAmount::new(50000),
        )),
        Transaction::Dispute(DisputeManagement::Dispute(client_id, TransactionId::new(2))),
    ];

    let final_ledger = create_ledger_with_init(init_ledger, transactions);

    let client_ledger = final_ledger
        .0
        .into_iter()
        .find(|x| x.id == client_id)
        .unwrap();

    assert_eq!(client_ledger.total, MonetaryAmount::new(150000));
    assert_eq!(client_ledger.available, MonetaryAmount::new(150000));
    assert_eq!(client_ledger.held, MonetaryAmount::new(0));
}

#[test]
fn dispute_is_one_per_tx() {
    let client_id = ClientId::new(1);

    let init_state = ClientState {
        total: MonetaryAmount::new(100000),
        available: MonetaryAmount::new(100000),
        held: MonetaryAmount::new(0),
        history: TransactionHistory::default(),
        is_locked: false,
    };
    let init_ledger = vec![(client_id, init_state.clone())];

    let transactions = vec![
        Transaction::Activity(AccountActivity::Deposit(
            client_id,
            TransactionId::new(1),
            MonetaryAmount::new(50000),
        )),
        Transaction::Dispute(DisputeManagement::Dispute(client_id, TransactionId::new(1))),
        Transaction::Dispute(DisputeManagement::Dispute(client_id, TransactionId::new(1))),
    ];

    let final_ledger = create_ledger_with_init(init_ledger, transactions);

    let client_ledger = final_ledger
        .0
        .into_iter()
        .find(|x| x.id == client_id)
        .unwrap();

    assert_eq!(client_ledger.total, MonetaryAmount::new(150000));
    assert_eq!(client_ledger.available, MonetaryAmount::new(100000));
    assert_eq!(client_ledger.held, MonetaryAmount::new(50000));
}

#[test]
fn resolve_will_release_held_funds() {
    let client_id = ClientId::new(1);

    let init_state = ClientState {
        total: MonetaryAmount::new(100000),
        available: MonetaryAmount::new(100000),
        held: MonetaryAmount::new(0),
        history: TransactionHistory::default(),
        is_locked: false,
    };
    let init_ledger = vec![(client_id, init_state.clone())];

    let transactions = vec![
        Transaction::Activity(AccountActivity::Deposit(
            client_id,
            TransactionId::new(1),
            MonetaryAmount::new(50000),
        )),
        Transaction::Dispute(DisputeManagement::Dispute(client_id, TransactionId::new(1))),
        Transaction::Dispute(DisputeManagement::Resolve(client_id, TransactionId::new(1))),
    ];

    let final_ledger = create_ledger_with_init(init_ledger, transactions);

    let client_ledger = final_ledger
        .0
        .into_iter()
        .find(|x| x.id == client_id)
        .unwrap();

    assert_eq!(client_ledger.total, MonetaryAmount::new(150000));
    assert_eq!(client_ledger.available, MonetaryAmount::new(150000));
    assert_eq!(client_ledger.held, MonetaryAmount::new(0));
}

#[test]
fn resolve_against_undisputed_tx_is_ignored() {
    let client_id = ClientId::new(1);

    let init_state = ClientState {
        total: MonetaryAmount::new(100000),
        available: MonetaryAmount::new(100000),
        held: MonetaryAmount::new(0),
        history: TransactionHistory::default(),
        is_locked: false,
    };
    let init_ledger = vec![(client_id, init_state.clone())];

    let transactions = vec![
        Transaction::Activity(AccountActivity::Deposit(
            client_id,
            TransactionId::new(1),
            MonetaryAmount::new(50000),
        )),
        Transaction::Dispute(DisputeManagement::Resolve(client_id, TransactionId::new(1))),
    ];

    let final_ledger = create_ledger_with_init(init_ledger, transactions);

    let client_ledger = final_ledger
        .0
        .into_iter()
        .find(|x| x.id == client_id)
        .unwrap();

    assert_eq!(client_ledger.total, MonetaryAmount::new(150000));
    assert_eq!(client_ledger.available, MonetaryAmount::new(150000));
    assert_eq!(client_ledger.held, MonetaryAmount::new(0));
}

#[test]
fn resolve_against_non_tx_is_ignored() {
    let client_id = ClientId::new(1);

    let init_state = ClientState {
        total: MonetaryAmount::new(100000),
        available: MonetaryAmount::new(100000),
        held: MonetaryAmount::new(0),
        history: TransactionHistory::default(),
        is_locked: false,
    };
    let init_ledger = vec![(client_id, init_state.clone())];

    let transactions = vec![
        Transaction::Activity(AccountActivity::Deposit(
            client_id,
            TransactionId::new(1),
            MonetaryAmount::new(50000),
        )),
        Transaction::Dispute(DisputeManagement::Dispute(client_id, TransactionId::new(1))),
        Transaction::Dispute(DisputeManagement::Resolve(client_id, TransactionId::new(2))),
    ];

    let final_ledger = create_ledger_with_init(init_ledger, transactions);

    let client_ledger = final_ledger
        .0
        .into_iter()
        .find(|x| x.id == client_id)
        .unwrap();

    assert_eq!(client_ledger.total, MonetaryAmount::new(150000));
    assert_eq!(client_ledger.available, MonetaryAmount::new(100000));
    assert_eq!(client_ledger.held, MonetaryAmount::new(50000));
}

#[test]
fn chargeback_locks_account() {
    let client_id = ClientId::new(1);

    let init_state = ClientState {
        total: MonetaryAmount::new(100000),
        available: MonetaryAmount::new(100000),
        held: MonetaryAmount::new(0),
        history: TransactionHistory::default(),
        is_locked: false,
    };
    let init_ledger = vec![(client_id, init_state.clone())];

    let transactions = vec![
        Transaction::Activity(AccountActivity::Deposit(
            client_id,
            TransactionId::new(1),
            MonetaryAmount::new(50000),
        )),
        Transaction::Dispute(DisputeManagement::Dispute(client_id, TransactionId::new(1))),
        Transaction::Dispute(DisputeManagement::Chargeback(
            client_id,
            TransactionId::new(1),
        )),
    ];

    let final_ledger = create_ledger_with_init(init_ledger, transactions);

    let client_ledger = final_ledger
        .0
        .into_iter()
        .find(|x| x.id == client_id)
        .unwrap();

    assert_eq!(client_ledger.is_locked, true);
}

#[test]
fn chargeback_reduces_total() {
    let client_id = ClientId::new(1);

    let init_state = ClientState {
        total: MonetaryAmount::new(100000),
        available: MonetaryAmount::new(100000),
        held: MonetaryAmount::new(0),
        history: TransactionHistory::default(),
        is_locked: false,
    };
    let init_ledger = vec![(client_id, init_state.clone())];

    let transactions = vec![
        Transaction::Activity(AccountActivity::Deposit(
            client_id,
            TransactionId::new(1),
            MonetaryAmount::new(50000),
        )),
        Transaction::Dispute(DisputeManagement::Dispute(client_id, TransactionId::new(1))),
        Transaction::Dispute(DisputeManagement::Chargeback(
            client_id,
            TransactionId::new(1),
        )),
    ];

    let final_ledger = create_ledger_with_init(init_ledger, transactions);

    let client_ledger = final_ledger
        .0
        .into_iter()
        .find(|x| x.id == client_id)
        .unwrap();

    assert_eq!(client_ledger.total, MonetaryAmount::new(100000));
}

#[test]
fn chargeback_reduces_held() {
    let client_id = ClientId::new(1);

    let init_state = ClientState {
        total: MonetaryAmount::new(100000),
        available: MonetaryAmount::new(100000),
        held: MonetaryAmount::new(0),
        history: TransactionHistory::default(),
        is_locked: false,
    };
    let init_ledger = vec![(client_id, init_state.clone())];

    let transactions = vec![
        Transaction::Activity(AccountActivity::Deposit(
            client_id,
            TransactionId::new(1),
            MonetaryAmount::new(50000),
        )),
        Transaction::Dispute(DisputeManagement::Dispute(client_id, TransactionId::new(1))),
        Transaction::Dispute(DisputeManagement::Chargeback(
            client_id,
            TransactionId::new(1),
        )),
    ];

    let final_ledger = create_ledger_with_init(init_ledger, transactions);

    let client_ledger = final_ledger
        .0
        .into_iter()
        .find(|x| x.id == client_id)
        .unwrap();

    assert_eq!(client_ledger.held, MonetaryAmount::new(0));
}

#[test]
fn chargeback_ignored_if_tx_does_not_exist() {
    let client_id = ClientId::new(1);

    let init_state = ClientState {
        total: MonetaryAmount::new(100000),
        available: MonetaryAmount::new(100000),
        held: MonetaryAmount::new(0),
        history: TransactionHistory::default(),
        is_locked: false,
    };
    let init_ledger = vec![(client_id, init_state.clone())];

    let transactions = vec![
        Transaction::Activity(AccountActivity::Deposit(
            client_id,
            TransactionId::new(1),
            MonetaryAmount::new(50000),
        )),
        Transaction::Dispute(DisputeManagement::Dispute(client_id, TransactionId::new(1))),
        Transaction::Dispute(DisputeManagement::Chargeback(
            client_id,
            TransactionId::new(2),
        )),
    ];

    let final_ledger = create_ledger_with_init(init_ledger, transactions);

    let client_ledger = final_ledger
        .0
        .into_iter()
        .find(|x| x.id == client_id)
        .unwrap();

    assert_eq!(client_ledger.total, MonetaryAmount::new(150000));
    assert_eq!(client_ledger.available, MonetaryAmount::new(100000));
    assert_eq!(client_ledger.held, MonetaryAmount::new(50000));
}

#[test]
fn chargeback_ignored_if_tx_undisputed() {
    let client_id = ClientId::new(1);

    let init_state = ClientState {
        total: MonetaryAmount::new(100000),
        available: MonetaryAmount::new(100000),
        held: MonetaryAmount::new(0),
        history: TransactionHistory::default(),
        is_locked: false,
    };
    let init_ledger = vec![(client_id, init_state.clone())];

    let transactions = vec![
        Transaction::Activity(AccountActivity::Deposit(
            client_id,
            TransactionId::new(1),
            MonetaryAmount::new(50000),
        )),
        Transaction::Dispute(DisputeManagement::Chargeback(
            client_id,
            TransactionId::new(1),
        )),
    ];

    let final_ledger = create_ledger_with_init(init_ledger, transactions);

    let client_ledger = final_ledger
        .0
        .into_iter()
        .find(|x| x.id == client_id)
        .unwrap();

    assert_eq!(client_ledger.total, MonetaryAmount::new(150000));
    assert_eq!(client_ledger.available, MonetaryAmount::new(150000));
    assert_eq!(client_ledger.held, MonetaryAmount::new(0));
}
