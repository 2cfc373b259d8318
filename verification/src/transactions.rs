//! The ledger engine: the per-client state machine and the sequential fold
//! that applies a transaction stream to an initial ledger.
//!
//! Every transition is a pure function from a client state (and the
//! transaction's fields) to a client state. Requests the state machine cannot
//! honour — a dispute against an unknown transaction, a withdrawal beyond the
//! recoverable funds, anything against a locked account — leave the state
//! unchanged rather than failing, though the named client still receives its
//! ledger entry, a default one on first reference. A balance update whose
//! result would not fit the fixed-precision amount representation likewise
//! leaves the state unchanged.

use vstd::prelude::*;

use crate::types::{
    activity_amount, activity_client, activity_tx, amount_fits, lookup_activity, AccountActivity,
    ClientId, ClientLedger, ClientState, DisputeManagement, HistoryModel, Ledger, MonetaryAmount,
    RejectedActivity, RejectedModel, StateModel, Transaction, TransactionHistory, TransactionId,
};

verus! {

// ---------------------------------------------------------------------------
// The transition rules, as mathematical functions on state models.
// ---------------------------------------------------------------------------
/// A deposit adds its amount to the available and total funds and records the
/// movement; it is ignored on a locked account or when a new balance would
/// not be representable.
pub open spec fn spec_deposit(s: StateModel, a: AccountActivity) -> StateModel {
    let amt = activity_amount(a);
    if s.locked {
        s
    } else if amount_fits(s.available + amt) && amount_fits(s.total + amt) {
        StateModel {
            available: s.available + amt,
            total: s.total + amt,
            history: HistoryModel { activity: s.history.activity.push(a), ..s.history },
            ..s
        }
    } else {
        s
    }
}

/// Whether a withdrawal of `amt` has no chance now or later: the available
/// funds do not cover it while no dispute is open, or even the full balance
/// does not cover it.
pub open spec fn no_backfill_possible(s: StateModel, amt: int) -> bool {
    (s.available < amt && s.history.disputed.len() == 0) || s.total < amt
}

/// A withdrawal within the available funds moves its amount out and records
/// the movement. One beyond the available funds while a dispute is open is
/// remembered, with a snapshot of the open disputes, for a possible backfill.
/// One with no such chance, or against a locked account, is dropped entirely.
pub open spec fn spec_withdrawal(s: StateModel, a: AccountActivity) -> StateModel {
    let amt = activity_amount(a);
    if s.locked || no_backfill_possible(s, amt) {
        s
    } else if s.available < amt {
        StateModel {
            history: HistoryModel {
                rejected: s.history.rejected.push(
                    RejectedModel { activity: a, snapshot: s.history.disputed },
                ),
                ..s.history
            },
            ..s
        }
    } else if amount_fits(s.available - amt) && amount_fits(s.total - amt) {
        StateModel {
            available: s.available - amt,
            total: s.total - amt,
            history: HistoryModel { activity: s.history.activity.push(a), ..s.history },
            ..s
        }
    } else {
        s
    }
}

/// Whether a dispute of `tx` takes effect on `s`: the account is not locked,
/// the transaction is not already under dispute, it is recorded as a deposit,
/// and the moved balances stay representable.
pub open spec fn dispute_applies(s: StateModel, tx: TransactionId) -> bool {
    &&& !s.locked
    &&& !s.history.disputed.contains(tx)
    &&& lookup_activity(s.history.activity, tx) matches Some(a) && a is Deposit
        && amount_fits(s.available - activity_amount(a)) && amount_fits(
        s.held + activity_amount(a),
    )
}

/// A dispute moves the disputed deposit's amount from available to held funds
/// and opens the dispute; otherwise it changes nothing.
pub open spec fn spec_dispute(s: StateModel, tx: TransactionId) -> StateModel {
    if dispute_applies(s, tx) {
        let amt = activity_amount(lookup_activity(s.history.activity, tx)->Some_0);
        StateModel {
            available: s.available - amt,
            held: s.held + amt,
            history: HistoryModel { disputed: s.history.disputed.push(tx), ..s.history },
            ..s
        }
    } else {
        s
    }
}

/// One pass of the backfill: walk the rejected withdrawals in order with a
/// running available/total accumulator. An entry is applied — its amount
/// subtracted, the entry discarded — exactly when the just-resolved dispute
/// was already open at rejection time, the amount is within the accumulated
/// available funds, and the new balances are representable; all other entries
/// are kept in order.
pub open spec fn backfill_loop(
    avail: int,
    total: int,
    kept: Seq<RejectedModel>,
    rest: Seq<RejectedModel>,
    resolved: TransactionId,
) -> (int, int, Seq<RejectedModel>)
    decreases rest.len(),
{
    if rest.len() == 0 {
        (avail, total, kept)
    } else {
        let e = rest[0];
        let amt = activity_amount(e.activity);
        if e.snapshot.contains(resolved) && amt <= avail && amount_fits(avail - amt)
            && amount_fits(total - amt) {
            backfill_loop(avail - amt, total - amt, kept, rest.drop_first(), resolved)
        } else {
            backfill_loop(avail, total, kept.push(e), rest.drop_first(), resolved)
        }
    }
}

/// The retroactive backfill run after a successful resolve of `resolved`.
pub open spec fn spec_backfill(s: StateModel, resolved: TransactionId) -> StateModel {
    let r = backfill_loop(
        s.available,
        s.total,
        Seq::empty(),
        s.history.rejected,
        resolved,
    );
    StateModel {
        available: r.0,
        total: r.1,
        history: HistoryModel { rejected: r.2, ..s.history },
        ..s
    }
}

/// Whether a resolve of `tx` takes effect on `s`: the account is not locked,
/// the transaction is under dispute and recorded as a deposit, and the moved
/// balances stay representable.
pub open spec fn resolve_applies(s: StateModel, tx: TransactionId) -> bool {
    &&& !s.locked
    &&& s.history.disputed.contains(tx)
    &&& lookup_activity(s.history.activity, tx) matches Some(a) && a is Deposit && amount_fits(
        s.available + activity_amount(a),
    ) && amount_fits(s.held - activity_amount(a))
}

/// A resolve releases the disputed amount from held back to available funds,
/// closes the dispute, and then runs the backfill pass; otherwise it changes
/// nothing.
pub open spec fn spec_resolve(s: StateModel, tx: TransactionId) -> StateModel {
    if resolve_applies(s, tx) {
        let amt = activity_amount(lookup_activity(s.history.activity, tx)->Some_0);
        let released = StateModel {
            available: s.available + amt,
            held: s.held - amt,
            history: HistoryModel {
                disputed: s.history.disputed.remove_value(tx),
                ..s.history
            },
            ..s
        };
        spec_backfill(released, tx)
    } else {
        s
    }
}

/// Whether a chargeback of `tx` takes effect on `s`.
pub open spec fn chargeback_applies(s: StateModel, tx: TransactionId) -> bool {
    &&& !s.locked
    &&& s.history.disputed.contains(tx)
    &&& lookup_activity(s.history.activity, tx) matches Some(a) && a is Deposit && amount_fits(
        s.total - activity_amount(a),
    ) && amount_fits(s.held - activity_amount(a))
}

/// A chargeback removes the disputed amount from held and total funds and
/// locks the account; available funds are untouched, since the dispute
/// already removed the amount from them. Otherwise it changes nothing.
pub open spec fn spec_chargeback(s: StateModel, tx: TransactionId) -> StateModel {
    if chargeback_applies(s, tx) {
        let amt = activity_amount(lookup_activity(s.history.activity, tx)->Some_0);
        StateModel {
            held: s.held - amt,
            total: s.total - amt,
            locked: true,
            ..s
        }
    } else {
        s
    }
}

// ---------------------------------------------------------------------------
// The executable transitions, each proved equal to its rule.
// ---------------------------------------------------------------------------
/// The client a money movement belongs to.
fn activity_client_exec(a: &AccountActivity) -> (r: ClientId)
    ensures
        r == activity_client(*a),
{
    match a {
        AccountActivity::Deposit(c, _, _) => *c,
        AccountActivity::Withdrawal(c, _, _) => *c,
    }
}

/// The amount a money movement carries.
fn activity_amount_exec(a: &AccountActivity) -> (r: MonetaryAmount)
    ensures
        r@ == activity_amount(*a),
{
    match a {
        AccountActivity::Deposit(_, _, m) => *m,
        AccountActivity::Withdrawal(_, _, m) => *m,
    }
}

/// Whether `v` holds `tx`.
fn contains_tx(v: &Vec<TransactionId>, tx: TransactionId) -> (r: bool)
    ensures
        r == v@.contains(tx),
{
    let mut i: usize = 0;
    while i < v.len()
        invariant
            i <= v.len(),
            forall|k: int| 0 <= k < i ==> v@[k] != tx,
        decreases v.len() - i,
    {
        if v[i] == tx {
            return true;
        }
        i = i + 1;
    }
    false
}

/// The most recently recorded activity under `tx`, if any.
fn find_activity(v: &Vec<AccountActivity>, tx: TransactionId) -> (r: Option<AccountActivity>)
    ensures
        r == lookup_activity(v@, tx),
{
    let mut i: usize = v.len();
    proof {
        assert(v@.take(i as int) =~= v@);
    }
    while i > 0
        invariant
            i <= v.len(),
            lookup_activity(v@, tx) == lookup_activity(v@.take(i as int), tx),
        decreases i,
    {
        i = i - 1;
        let a = v[i];
        proof {
            assert(v@.take(i + 1 as int).last() == v@[i as int]);
            assert(v@.take(i + 1 as int).drop_last() =~= v@.take(i as int));
        }
        if match a {
            AccountActivity::Deposit(_, t, _) => t == tx,
            AccountActivity::Withdrawal(_, t, _) => t == tx,
        } {
            return Some(a);
        }
    }
    proof {
        assert(v@.take(0) =~= Seq::<AccountActivity>::empty());
    }
    None
}

/// Applies a deposit to a client's state.
///
/// `activity` must be the deposit movement itself; `tx_id` and `amount` are
/// its own id and amount.
fn update_deposit(
    client_state: ClientState,
    activity: &AccountActivity,
    tx_id: TransactionId,
    amount: MonetaryAmount,
) -> (r: ClientState)
    requires
        *activity matches AccountActivity::Deposit(_, t, m) && t == tx_id && m == amount,
    ensures
        r@ == spec_deposit(client_state@, *activity),
{
    if client_state.is_locked {
        return client_state;
    }
    let new_avail = client_state.available.checked_add(amount);
    let new_total = client_state.total.checked_add(amount);
    match (new_avail, new_total) {
        (Some(av), Some(tot)) => {
            let mut history = client_state.history;
            history.account_activity.push(*activity);
            let r = ClientState {
                available: av,
                total: tot,
                history,
                ..client_state
            };
            proof {
                assert(r@ =~= spec_deposit(client_state@, *activity));
            }
            r
        },
        _ => client_state,
    }
}

/// Applies a withdrawal to a client's state.
///
/// `activity` must be the withdrawal movement itself; `tx_id` and `amount`
/// are its own id and amount.
fn update_withdrawal(
    client_state: ClientState,
    activity: &AccountActivity,
    tx_id: TransactionId,
    amount: MonetaryAmount,
) -> (r: ClientState)
    requires
        *activity matches AccountActivity::Withdrawal(_, t, m) && t == tx_id && m == amount,
    ensures
        r@ == spec_withdrawal(client_state@, *activity),
{
    // The resolution of disputes cannot affect this withdrawal
    let no_possible_withdrawal_backfill = (client_state.available.lt(&amount)
        && client_state.history.disputed_txs.len() == 0) || client_state.total.lt(&amount);

    if client_state.is_locked || no_possible_withdrawal_backfill {
        return client_state;
    }

    // The resolution of a dispute may yet make this withdrawal payable
    let potential_backfill = client_state.available.lt(&amount)
        && client_state.history.disputed_txs.len() > 0;

    if potential_backfill {
        let disputed_transaction_snapshot = crate::types::copy_ids(
            &client_state.history.disputed_txs,
        );
        let rejected_activity = RejectedActivity {
            activity: *activity,
            disputed_transaction_snapshot,
        };
        let mut history = client_state.history;
        history.rejected_txs.push(rejected_activity);
        let r = ClientState { history, ..client_state };
        proof {
            assert(r@.history.rejected =~= spec_withdrawal(
                client_state@,
                *activity,
            ).history.rejected);
            assert(r@ =~= spec_withdrawal(client_state@, *activity));
        }
        r
    } else {
        let new_avail = client_state.available.checked_sub(amount);
        let new_total = client_state.total.checked_sub(amount);
        match (new_avail, new_total) {
            (Some(av), Some(tot)) => {
                let mut history = client_state.history;
                history.account_activity.push(*activity);
                let r = ClientState {
                    available: av,
                    total: tot,
                    history,
                    ..client_state
                };
                proof {
                    assert(r@ =~= spec_withdrawal(client_state@, *activity));
                }
                r
            },
            _ => client_state,
        }
    }
}

/// Applies a dispute to a client's state; `None` exactly when the dispute
/// takes no effect.
fn update_dispute(client_state: ClientState, tx_id: TransactionId) -> (r: Option<ClientState>)
    ensures
        r is Some <==> dispute_applies(client_state@, tx_id),
        r matches Some(ns) ==> ns@ == spec_dispute(client_state@, tx_id),
        r is None ==> spec_dispute(client_state@, tx_id) == client_state@,
{
    let is_already_disputed = contains_tx(&client_state.history.disputed_txs, tx_id);
    if client_state.is_locked || is_already_disputed {
        return None;
    }

    let maybe_tx_amount = find_activity(&client_state.history.account_activity, tx_id);
    // Only deposits can be disputed: a withdrawal already moved its funds out
    // and cannot be held back.
    if let Some(AccountActivity::Deposit(_, _, amount)) = maybe_tx_amount {
        let new_avail = client_state.available.checked_sub(amount);
        let new_held = client_state.held.checked_add(amount);
        match (new_avail, new_held) {
            (Some(av), Some(hd)) => {
                let mut history = client_state.history;
                history.disputed_txs.push(tx_id);
                let r = ClientState {
                    available: av,
                    held: hd,
                    history,
                    ..client_state
                };
                proof {
                    assert(r@ =~= spec_dispute(client_state@, tx_id));
                }
                Some(r)
            },
            _ => None,
        }
    } else {
        None
    }
}

/// Runs the backfill pass over a client's rejected withdrawals, with
/// `resolved_tx` as the dispute just resolved.
///
/// Every retained rejection must be a withdrawal (part of history
/// well-formedness), since only withdrawals are ever retained.
fn resolve_prev_rejected(resolved_tx: TransactionId, client_state: ClientState) -> (r: ClientState)
    requires
        client_state@.wf(),
    ensures
        r@ == spec_backfill(client_state@, resolved_tx),
{
    let ghost s0 = client_state@;
    let ClientState { available, held, total, is_locked, history } = client_state;
    let TransactionHistory { account_activity, disputed_txs, rejected_txs } = history;
    let mut avail = available;
    let mut tot = total;
    let mut kept: Vec<RejectedActivity> = Vec::new();
    let mut i: usize = 0;
    let ghost all = s0.history.rejected;
    proof {
        assert(kept@.map_values(|r: RejectedActivity| r@) =~= Seq::<RejectedModel>::empty());
        assert(all.skip(0) =~= all);
    }
    while i < rejected_txs.len()
        invariant
            i <= rejected_txs.len(),
            all == rejected_txs@.map_values(|r: RejectedActivity| r@),
            all.len() == rejected_txs@.len(),
            forall|k: int| 0 <= k < all.len() ==> all[k] == #[trigger] rejected_txs@[k]@,
            backfill_loop(s0.available, s0.total, Seq::empty(), all, resolved_tx)
                == backfill_loop(
                avail@,
                tot@,
                kept@.map_values(|r: RejectedActivity| r@),
                all.skip(i as int),
                resolved_tx,
            ),
        decreases rejected_txs.len() - i,
    {
        let entry = &rejected_txs[i];
        let ghost rest = all.skip(i as int);
        let ghost avail_in = avail@;
        let ghost tot_in = tot@;
        let ghost kept_in = kept@.map_values(|r: RejectedActivity| r@);
        proof {
            assert(rest[0] == all[i as int]);
            assert(rest.drop_first() =~= all.skip(i + 1 as int));
        }
        let amt = activity_amount_exec(&entry.activity);
        let eligible = contains_tx(&entry.disputed_transaction_snapshot, resolved_tx)
            && amt.le(&avail);
        let mut applied = false;
        if eligible {
            let new_avail = avail.checked_sub(amt);
            let new_total = tot.checked_sub(amt);
            if let (Some(av), Some(t)) = (new_avail, new_total) {
                avail = av;
                tot = t;
                applied = true;
            }
        }
        proof {
            let amtg = activity_amount(rest[0].activity);
            if applied {
                assert(rest[0].snapshot.contains(resolved_tx) && amtg <= avail_in && amount_fits(
                    avail_in - amtg,
                ) && amount_fits(tot_in - amtg));
                assert(backfill_loop(avail_in, tot_in, kept_in, rest, resolved_tx)
                    == backfill_loop(
                    avail_in - amtg,
                    tot_in - amtg,
                    kept_in,
                    rest.drop_first(),
                    resolved_tx,
                ));
            } else {
                assert(!(rest[0].snapshot.contains(resolved_tx) && amtg <= avail_in && amount_fits(
                    avail_in - amtg,
                ) && amount_fits(tot_in - amtg)));
                assert(backfill_loop(avail_in, tot_in, kept_in, rest, resolved_tx)
                    == backfill_loop(
                    avail_in,
                    tot_in,
                    kept_in.push(rest[0]),
                    rest.drop_first(),
                    resolved_tx,
                ));
            }
        }
        if !applied {
            let ghost kept_before = kept@;
            kept.push(entry.duplicate());
            proof {
                assert(kept@.map_values(|r: RejectedActivity| r@) =~= kept_before.map_values(
                    |r: RejectedActivity| r@,
                ).push(rest[0]));
            }
        }
        i = i + 1;
    }
    proof {
        assert(all.skip(all.len() as int) =~= Seq::<RejectedModel>::empty());
    }
    let r = ClientState {
        available: avail,
        held,
        total: tot,
        is_locked,
        history: TransactionHistory { account_activity, disputed_txs, rejected_txs: kept },
    };
    proof {
        assert(r@ =~= spec_backfill(s0, resolved_tx));
    }
    r
}

/// An activity found under a transaction id was recorded under that id.
pub proof fn lemma_lookup_tx(s: Seq<AccountActivity>, tx: TransactionId)
    requires
        lookup_activity(s, tx) is Some,
    ensures
        activity_tx(lookup_activity(s, tx)->Some_0) == tx,
    decreases s.len(),
{
    if s.len() > 0 && activity_tx(s.last()) != tx {
        lemma_lookup_tx(s.drop_last(), tx);
    }
}

/// Removing a value from a duplicate-free sequence keeps it duplicate-free
/// and leaves no occurrence of the value behind.
pub proof fn lemma_remove_value_distinct(s: Seq<TransactionId>, v: TransactionId)
    requires
        forall|i: int, j: int| 0 <= i < j < s.len() ==> s[i] != s[j],
    ensures
        forall|i: int, j: int|
            0 <= i < j < s.remove_value(v).len() ==> s.remove_value(v)[i] != s.remove_value(v)[j],
        !s.remove_value(v).contains(v),
{
    s.index_of_first_ensures(v);
    if s.contains(v) {
        let idx = s.index_of_first(v)->Some_0;
        s.remove_ensures(idx);
        let r = s.remove(idx);
        assert forall|i: int| 0 <= i < r.len() implies r[i] != v by {
            if i < idx {
                assert(r[i] == s[i]);
            } else {
                assert(r[i] == s[i + 1]);
            }
        }
        assert(!r.contains(v));
    } else {
        assert forall|i: int| 0 <= i < s.len() implies s[i] != v by {
            assert(s.contains(v) == false);
            if s[i] == v {
                assert(s.contains(v));
            }
        }
    }
}

/// Removes the first occurrence of `tx` from `v`, if any.
fn remove_tx(v: &mut Vec<TransactionId>, tx: TransactionId)
    ensures
        final(v)@ == old(v)@.remove_value(tx),
{
    let ghost s = old(v)@;
    let mut i: usize = 0;
    while i < v.len()
        invariant
            i <= v.len(),
            v@ == s,
            old(v)@ == s,
            forall|k: int| 0 <= k < i ==> s[k] != tx,
        decreases v.len() - i,
    {
        if v[i] == tx {
            v.remove(i);
            proof {
                assert(s[i as int] == tx);
                assert(s.contains(tx));
                s.index_of_first_ensures(tx);
                let idx = s.index_of_first(tx)->Some_0;
                if idx < i {
                    assert(s[idx] != tx);
                } else if idx > i {
                    assert(s[i as int] != tx);
                }
                assert(idx == i as int);
                assert(s.remove_value(tx) == s.remove(i as int));
                assert(v@ == s.remove_value(tx));
            }
            return ;
        }
        i = i + 1;
    }
    proof {
        s.index_of_first_ensures(tx);
        if s.contains(tx) {
            let idx = s.index_of_first(tx)->Some_0;
            assert(s[idx] != tx);
        }
    }
}

/// Applies a resolve to a client's state; `None` exactly when the resolve
/// takes no effect. On success the backfill pass has already run.
fn update_resolve(client_state: ClientState, tx_id: TransactionId) -> (r: Option<ClientState>)
    requires
        client_state@.wf(),
    ensures
        r is Some <==> resolve_applies(client_state@, tx_id),
        r matches Some(ns) ==> ns@ == spec_resolve(client_state@, tx_id),
        r is None ==> spec_resolve(client_state@, tx_id) == client_state@,
{
    let is_disputed = contains_tx(&client_state.history.disputed_txs, tx_id);
    if client_state.is_locked || !is_disputed {
        return None;
    }
    let maybe_tx_amount = find_activity(&client_state.history.account_activity, tx_id);
    if let Some(AccountActivity::Deposit(_, _, amount)) = maybe_tx_amount {
        proof {
            lemma_lookup_tx(client_state@.history.activity, tx_id);
        }
        let new_avail = client_state.available.checked_add(amount);
        let new_held = client_state.held.checked_sub(amount);
        match (new_avail, new_held) {
            (Some(av), Some(hd)) => {
                let mut history = client_state.history;
                remove_tx(&mut history.disputed_txs, tx_id);
                let released = ClientState {
                    available: av,
                    held: hd,
                    history,
                    ..client_state
                };
                proof {
                    lemma_remove_value_distinct(client_state@.history.disputed, tx_id);
                    assert(released@ =~= (if resolve_applies(client_state@, tx_id) {
                        let amt = activity_amount(
                            lookup_activity(client_state@.history.activity, tx_id)->Some_0,
                        );
                        StateModel {
                            available: client_state@.available + amt,
                            held: client_state@.held - amt,
                            history: HistoryModel {
                                disputed: client_state@.history.disputed.remove_value(tx_id),
                                ..client_state@.history
                            },
                            ..client_state@
                        }
                    } else {
                        client_state@
                    }));
                }
                Some(resolve_prev_rejected(tx_id, released))
            },
            _ => None,
        }
    } else {
        None
    }
}

/// Applies a chargeback to a client's state; `None` exactly when the
/// chargeback takes no effect.
fn update_chargeback(client_state: ClientState, tx_id: TransactionId) -> (r: Option<ClientState>)
    ensures
        r is Some <==> chargeback_applies(client_state@, tx_id),
        r matches Some(ns) ==> ns@ == spec_chargeback(client_state@, tx_id),
        r is None ==> spec_chargeback(client_state@, tx_id) == client_state@,
{
    let is_disputed = contains_tx(&client_state.history.disputed_txs, tx_id);
    if client_state.is_locked || !is_disputed {
        return None;
    }
    let maybe_tx_amount = find_activity(&client_state.history.account_activity, tx_id);
    if let Some(AccountActivity::Deposit(_, _, amount)) = maybe_tx_amount {
        let new_total = client_state.total.checked_sub(amount);
        let new_held = client_state.held.checked_sub(amount);
        match (new_total, new_held) {
            (Some(tot), Some(hd)) => {
                let r = ClientState {
                    held: hd,
                    total: tot,
                    is_locked: true,
                    ..client_state
                };
                proof {
                    assert(r@ =~= spec_chargeback(client_state@, tx_id));
                }
                Some(r)
            },
            _ => None,
        }
    } else {
        None
    }
}

// ---------------------------------------------------------------------------
// The accumulating ledger: a mapping from client id to client state, held as
// a vector of pairs with distinct keys.
// ---------------------------------------------------------------------------
/// The mapping a ledger vector represents; a later entry for the same client
/// would win, though well-formed ledgers list each client once.
pub open spec fn ledger_view(s: Seq<(ClientId, ClientState)>) -> Map<ClientId, StateModel>
    decreases s.len(),
{
    if s.len() == 0 {
        Map::empty()
    } else {
        ledger_view(s.drop_last()).insert(s.last().0, s.last().1@)
    }
}

/// Well-formedness of a ledger vector: each client appears once, and every
/// state's history is well-formed.
pub open spec fn ledger_wf(s: Seq<(ClientId, ClientState)>) -> bool {
    &&& (forall|i: int, j: int| 0 <= i < j < s.len() ==> s[i].0 != s[j].0)
    &&& (forall|i: int| 0 <= i < s.len() ==> (#[trigger] s[i].1)@.wf())
}

/// The first entry stored for a client, scanning from the front.
pub open spec fn assoc_first(s: Seq<(ClientId, ClientState)>, c: ClientId) -> Option<StateModel>
    decreases s.len(),
{
    if s.len() == 0 {
        None
    } else if s[0].0 == c {
        Some(s[0].1@)
    } else {
        assoc_first(s.drop_first(), c)
    }
}

/// In a ledger with distinct keys, an entry's state is the state the
/// represented mapping gives its client.
pub proof fn lemma_ledger_view_index(s: Seq<(ClientId, ClientState)>, i: int)
    requires
        forall|k: int, l: int| 0 <= k < l < s.len() ==> s[k].0 != s[l].0,
        0 <= i < s.len(),
    ensures
        ledger_view(s).contains_key(s[i].0),
        ledger_view(s)[s[i].0] == s[i].1@,
    decreases s.len(),
{
    if i < s.len() - 1 {
        lemma_ledger_view_index(s.drop_last(), i);
        assert(s.drop_last()[i] == s[i]);
        assert(s[i].0 != s.last().0);
    }
}

/// A client no entry names is absent from the represented mapping.
pub proof fn lemma_ledger_view_absent(s: Seq<(ClientId, ClientState)>, c: ClientId)
    requires
        forall|k: int| 0 <= k < s.len() ==> (#[trigger] s[k]).0 != c,
    ensures
        !ledger_view(s).contains_key(c),
    decreases s.len(),
{
    if s.len() > 0 {
        assert(forall|k: int| 0 <= k < s.drop_last().len() ==> (#[trigger] s.drop_last()[k])
            == s[k]);
        lemma_ledger_view_absent(s.drop_last(), c);
    }
}

/// Replacing the entry a client already has updates the represented mapping
/// at that client alone.
pub proof fn lemma_ledger_view_update(
    s: Seq<(ClientId, ClientState)>,
    i: int,
    c: ClientId,
    ns: ClientState,
)
    requires
        forall|k: int, l: int| 0 <= k < l < s.len() ==> s[k].0 != s[l].0,
        0 <= i < s.len(),
        s[i].0 == c,
    ensures
        ledger_view(s.update(i, (c, ns))) == ledger_view(s).insert(c, ns@),
    decreases s.len(),
{
    let su = s.update(i, (c, ns));
    if i == s.len() - 1 {
        assert(su.drop_last() =~= s.drop_last());
        assert(ledger_view(su) == ledger_view(s.drop_last()).insert(c, ns@));
        assert(ledger_view(s).insert(c, ns@) == ledger_view(s.drop_last()).insert(
            s.last().0,
            s.last().1@,
        ).insert(c, ns@));
        assert(ledger_view(s.drop_last()).insert(s.last().0, s.last().1@).insert(c, ns@)
            =~= ledger_view(s.drop_last()).insert(c, ns@));
    } else {
        assert(su.drop_last() =~= s.drop_last().update(i, (c, ns)));
        lemma_ledger_view_update(s.drop_last(), i, c, ns);
        assert(su.last() == s.last());
        assert(ledger_view(su) == ledger_view(s.drop_last()).insert(c, ns@).insert(
            s.last().0,
            s.last().1@,
        ));
        assert(s[i].0 != s.last().0);
        assert(ledger_view(s.drop_last()).insert(c, ns@).insert(s.last().0, s.last().1@)
            =~= ledger_view(s.drop_last()).insert(s.last().0, s.last().1@).insert(c, ns@));
    }
}

/// Appending an entry for a client updates the represented mapping at that
/// client alone.
pub proof fn lemma_ledger_view_push(s: Seq<(ClientId, ClientState)>, c: ClientId, ns: ClientState)
    ensures
        ledger_view(s.push((c, ns))) == ledger_view(s).insert(c, ns@),
{
    assert(s.push((c, ns)).drop_last() =~= s);
}

/// With distinct keys, the front-first scan agrees with the represented
/// mapping.
pub proof fn lemma_assoc_first_agrees(s: Seq<(ClientId, ClientState)>, c: ClientId)
    requires
        forall|k: int, l: int| 0 <= k < l < s.len() ==> s[k].0 != s[l].0,
    ensures
        assoc_first(s, c) == (if ledger_view(s).contains_key(c) {
            Some(ledger_view(s)[c])
        } else {
            None::<StateModel>
        }),
    decreases s.len(),
{
    if s.len() > 0 {
        if s[0].0 == c {
            lemma_ledger_view_index(s, 0);
        } else {
            assert(forall|k: int| 0 <= k < s.drop_first().len() ==> (#[trigger] s.drop_first(
            )[k]) == s[k + 1]);
            lemma_assoc_first_agrees(s.drop_first(), c);
            if ledger_view(s.drop_first()).contains_key(c) {
                let j = choose|j: int|
                    0 <= j < s.drop_first().len() && s.drop_first()[j].0 == c && ledger_view(
                        s.drop_first(),
                    )[c] == s.drop_first()[j].1@;
                assert(exists|j: int| 0 <= j < s.drop_first().len() && (#[trigger] s.drop_first(
                )[j]).0 == c) by {
                    lemma_ledger_contains_exists(s.drop_first(), c);
                }
                let jj = choose|j: int|
                    0 <= j < s.drop_first().len() && (#[trigger] s.drop_first()[j]).0 == c;
                lemma_ledger_view_index(s.drop_first(), jj);
                lemma_ledger_view_index(s, jj + 1);
                assert(s[jj + 1] == s.drop_first()[jj]);
            } else {
                if ledger_view(s).contains_key(c) {
                    lemma_ledger_contains_exists(s, c);
                    let j = choose|j: int| 0 <= j < s.len() && (#[trigger] s[j]).0 == c;
                    assert(s.drop_first()[j - 1] == s[j]);
                    lemma_ledger_view_index(s.drop_first(), j - 1);
                }
            }
        }
    }
}

/// A client present in the represented mapping is named by some entry.
pub proof fn lemma_ledger_contains_exists(s: Seq<(ClientId, ClientState)>, c: ClientId)
    requires
        ledger_view(s).contains_key(c),
    ensures
        exists|i: int| 0 <= i < s.len() && (#[trigger] s[i]).0 == c,
    decreases s.len(),
{
    if s.len() > 0 {
        if s.last().0 == c {
            assert(s[s.len() - 1].0 == c);
        } else {
            lemma_ledger_contains_exists(s.drop_last(), c);
            let i = choose|i: int|
                0 <= i < s.drop_last().len() && (#[trigger] s.drop_last()[i]).0 == c;
            assert(s[i] == s.drop_last()[i]);
        }
    }
}

// ---------------------------------------------------------------------------
// One transaction against the whole ledger, and the fold over a stream.
// ---------------------------------------------------------------------------
/// The state the ledger mapping gives a client, or the all-zero unlocked
/// state for a client that has not appeared yet.
pub open spec fn state_or_empty(m: Map<ClientId, StateModel>, c: ClientId) -> StateModel {
    if m.contains_key(c) {
        m[c]
    } else {
        StateModel::empty()
    }
}

/// One transaction applied to the ledger mapping. A money movement always
/// leaves the client with an entry, a default state being created on the
/// client's first reference — also when the transaction is a claim that
/// takes no effect, so that every client that appeared in the stream has a
/// row in the final ledger.
pub open spec fn spec_resolve_transaction(
    t: Transaction,
    m: Map<ClientId, StateModel>,
) -> Map<ClientId, StateModel> {
    match t {
        Transaction::Activity(a) => {
            let c = activity_client(a);
            let s = state_or_empty(m, c);
            let ns = match a {
                AccountActivity::Deposit(_, _, _) => spec_deposit(s, a),
                AccountActivity::Withdrawal(_, _, _) => spec_withdrawal(s, a),
            };
            m.insert(c, ns)
        },
        Transaction::Dispute(DisputeManagement::Dispute(c, tx)) => m.insert(
            c,
            spec_dispute(state_or_empty(m, c), tx),
        ),
        Transaction::Dispute(DisputeManagement::Resolve(c, tx)) => m.insert(
            c,
            spec_resolve(state_or_empty(m, c), tx),
        ),
        Transaction::Dispute(DisputeManagement::Chargeback(c, tx)) => m.insert(
            c,
            spec_chargeback(state_or_empty(m, c), tx),
        ),
    }
}

/// The whole stream folded over the ledger mapping, left to right.
pub open spec fn spec_apply_all(
    m: Map<ClientId, StateModel>,
    ts: Seq<Transaction>,
) -> Map<ClientId, StateModel>
    decreases ts.len(),
{
    if ts.len() == 0 {
        m
    } else {
        spec_apply_all(spec_resolve_transaction(ts[0], m), ts.drop_first())
    }
}

/// A deposit or a withdrawal leaves the history well-formed: neither touches
/// the open disputes, and only a withdrawal is ever retained for backfill.
pub proof fn lemma_activity_preserves_wf(s: StateModel, a: AccountActivity)
    requires
        s.wf(),
    ensures
        spec_deposit(s, a).wf(),
        a is Withdrawal ==> spec_withdrawal(s, a).wf(),
{
}

/// A dispute leaves the history well-formed: it only opens a dispute that
/// was not open.
pub proof fn lemma_dispute_preserves_wf(s: StateModel, tx: TransactionId)
    requires
        s.wf(),
    ensures
        spec_dispute(s, tx).wf(),
{
    if dispute_applies(s, tx) {
        let d = s.history.disputed;
        assert forall|i: int, j: int|
            0 <= i < j < d.push(tx).len() implies d.push(tx)[i] != d.push(tx)[j] by {
            if j == d.len() {
                if d[i] == tx {
                    assert(d.contains(tx));
                }
            }
        }
    }
}

/// The backfill pass keeps only entries that were already retained, so a
/// well-formed rejected list stays well-formed.
pub proof fn lemma_backfill_loop_wf(
    avail: int,
    total: int,
    kept: Seq<RejectedModel>,
    rest: Seq<RejectedModel>,
    resolved: TransactionId,
)
    requires
        forall|i: int| 0 <= i < kept.len() ==> kept[i].activity is Withdrawal,
        forall|i: int| 0 <= i < rest.len() ==> rest[i].activity is Withdrawal,
    ensures
        forall|i: int|
            0 <= i < backfill_loop(avail, total, kept, rest, resolved).2.len() ==> backfill_loop(
                avail,
                total,
                kept,
                rest,
                resolved,
            ).2[i].activity is Withdrawal,
    decreases rest.len(),
{
    if rest.len() > 0 {
        let e = rest[0];
        let amt = activity_amount(e.activity);
        assert(forall|i: int| 0 <= i < rest.drop_first().len() ==> (#[trigger] rest.drop_first(
        )[i]) == rest[i + 1]);
        if e.snapshot.contains(resolved) && amt <= avail && amount_fits(avail - amt)
            && amount_fits(total - amt) {
            lemma_backfill_loop_wf(avail - amt, total - amt, kept, rest.drop_first(), resolved);
        } else {
            assert(forall|i: int|
                0 <= i < kept.push(e).len() ==> (#[trigger] kept.push(e)[i]).activity
                    is Withdrawal);
            lemma_backfill_loop_wf(avail, total, kept.push(e), rest.drop_first(), resolved);
        }
    }
}

/// A resolve leaves the history well-formed: closing a dispute keeps the
/// remaining ones distinct, and the backfill only discards retained entries.
pub proof fn lemma_resolve_preserves_wf(s: StateModel, tx: TransactionId)
    requires
        s.wf(),
    ensures
        spec_resolve(s, tx).wf(),
{
    if resolve_applies(s, tx) {
        lemma_remove_value_distinct(s.history.disputed, tx);
        lemma_backfill_loop_wf(
            s.available + activity_amount(lookup_activity(s.history.activity, tx)->Some_0),
            s.total,
            Seq::empty(),
            s.history.rejected,
            tx,
        );
    }
}

/// A chargeback leaves the history well-formed: it does not touch it.
pub proof fn lemma_chargeback_preserves_wf(s: StateModel, tx: TransactionId)
    requires
        s.wf(),
    ensures
        spec_chargeback(s, tx).wf(),
{
}

/// Stores `state` for `client`, replacing the entry the client already has
/// or appending one.
fn ledger_update(
    ledger: Vec<(ClientId, ClientState)>,
    client: ClientId,
    state: ClientState,
) -> (r: Vec<(ClientId, ClientState)>)
    requires
        ledger_wf(ledger@),
        state@.wf(),
    ensures
        ledger_wf(r@),
        ledger_view(r@) == ledger_view(ledger@).insert(client, state@),
{
    let ghost s0 = ledger@;
    let mut found: Option<usize> = None;
    let mut i: usize = 0;
    while i < ledger.len()
        invariant_except_break
            found is None,
        invariant
            i <= ledger@.len(),
            forall|k: int| 0 <= k < i ==> ledger@[k].0 != client,
        ensures
            found matches Some(j) ==> j < ledger@.len() && ledger@[j as int].0 == client,
            found is None ==> forall|k: int| 0 <= k < ledger@.len() ==> ledger@[k].0 != client,
        decreases ledger.len() - i,
    {
        if ledger[i].0 == client {
            found = Some(i);
            break;
        }
        i = i + 1;
    }
    let mut ledger = ledger;
    match found {
        Some(j) => {
            ledger.set(j, (client, state));
            proof {
                lemma_ledger_view_update(s0, j as int, client, state);
                assert(ledger@ =~= s0.update(j as int, (client, state)));
                assert(forall|k: int|
                    0 <= k < ledger@.len() && k != j ==> (#[trigger] ledger@[k]) == s0[k]);
            }
        },
        None => {
            ledger.push((client, state));
            proof {
                lemma_ledger_view_push(s0, client, state);
                assert(forall|k: int| 0 <= k < s0.len() ==> (#[trigger] ledger@[k]) == s0[k]);
            }
        },
    }
    ledger
}

/// In a well-formed ledger, the state a client maps to is well-formed.
pub proof fn lemma_state_or_empty_wf(s: Seq<(ClientId, ClientState)>, c: ClientId)
    requires
        ledger_wf(s),
    ensures
        state_or_empty(ledger_view(s), c).wf(),
{
    if ledger_view(s).contains_key(c) {
        lemma_ledger_contains_exists(s, c);
        let i = choose|i: int| 0 <= i < s.len() && (#[trigger] s[i]).0 == c;
        lemma_ledger_view_index(s, i);
    }
}

/// Applies one transaction to the accumulating ledger.
pub fn resolve_transaction(
    transaction: Transaction,
    ledger: Vec<(ClientId, ClientState)>,
) -> (r: Vec<(ClientId, ClientState)>)
    requires
        ledger_wf(ledger@),
    ensures
        ledger_wf(r@),
        ledger_view(r@) == spec_resolve_transaction(transaction, ledger_view(ledger@)),
{
    let ghost m0 = ledger_view(ledger@);
    proof {
        lemma_assoc_first_agrees(ledger@, match transaction {
            Transaction::Activity(a) => activity_client(a),
            Transaction::Dispute(DisputeManagement::Dispute(c, _)) => c,
            Transaction::Dispute(DisputeManagement::Resolve(c, _)) => c,
            Transaction::Dispute(DisputeManagement::Chargeback(c, _)) => c,
        });
    }
    match transaction {
        Transaction::Activity(activity) => {
            let c_id = activity_client_exec(&activity);
            let client_state = crate::utils::OrDefault::get_or_default(&ledger, &c_id);
            let new_state = match activity {
                AccountActivity::Deposit(_, tx_id, amount) => update_deposit(
                    client_state,
                    &activity,
                    tx_id,
                    amount,
                ),
                AccountActivity::Withdrawal(_, tx_id, amount) => update_withdrawal(
                    client_state,
                    &activity,
                    tx_id,
                    amount,
                ),
            };
            proof {
                lemma_state_or_empty_wf(ledger@, c_id);
                assert(client_state@ == state_or_empty(m0, c_id));
                lemma_activity_preserves_wf(client_state@, activity);
            }
            ledger_update(ledger, c_id, new_state)
        },
        Transaction::Dispute(DisputeManagement::Dispute(c_id, tx_id)) => {
            let client_state = crate::utils::OrDefault::get_or_default(&ledger, &c_id);
            proof {
                lemma_state_or_empty_wf(ledger@, c_id);
                assert(client_state@ == state_or_empty(m0, c_id));
                lemma_dispute_preserves_wf(client_state@, tx_id);
            }
            let untouched = client_state.duplicate();
            match update_dispute(client_state, tx_id) {
                Some(state) => ledger_update(ledger, c_id, state),
                None => ledger_update(ledger, c_id, untouched),
            }
        },
        Transaction::Dispute(DisputeManagement::Resolve(c_id, tx_id)) => {
            let client_state = crate::utils::OrDefault::get_or_default(&ledger, &c_id);
            proof {
                lemma_state_or_empty_wf(ledger@, c_id);
                assert(client_state@ == state_or_empty(m0, c_id));
                lemma_resolve_preserves_wf(client_state@, tx_id);
            }
            let untouched = client_state.duplicate();
            match update_resolve(client_state, tx_id) {
                Some(state) => ledger_update(ledger, c_id, state),
                None => ledger_update(ledger, c_id, untouched),
            }
        },
        Transaction::Dispute(DisputeManagement::Chargeback(c_id, tx_id)) => {
            let client_state = crate::utils::OrDefault::get_or_default(&ledger, &c_id);
            proof {
                lemma_state_or_empty_wf(ledger@, c_id);
                assert(client_state@ == state_or_empty(m0, c_id));
                lemma_chargeback_preserves_wf(client_state@, tx_id);
            }
            let untouched = client_state.duplicate();
            match update_chargeback(client_state, tx_id) {
                Some(state) => ledger_update(ledger, c_id, state),
                None => ledger_update(ledger, c_id, untouched),
            }
        },
    }
}

/// Whether a public row reports exactly a state's balances and lock flag.
pub open spec fn row_matches(row: ClientLedger, s: StateModel) -> bool {
    &&& row.available@ == s.available
    &&& row.held@ == s.held
    &&& row.total@ == s.total
    &&& row.is_locked == s.locked
}

/// Whether a row collection reports exactly the clients of a ledger mapping:
/// one row per client, each reporting that client's state, in no particular
/// order.
pub open spec fn rows_correspond(rows: Seq<ClientLedger>, m: Map<ClientId, StateModel>) -> bool {
    &&& (forall|i: int|
        0 <= i < rows.len() ==> m.contains_key((#[trigger] rows[i]).id) && row_matches(
            rows[i],
            m[rows[i].id],
        ))
    &&& (forall|c: ClientId|
        m.contains_key(c) ==> exists|i: int| 0 <= i < rows.len() && (#[trigger] rows[i]).id == c)
    &&& (forall|i: int, j: int| 0 <= i < j < rows.len() ==> rows[i].id != rows[j].id)
}

/// Folds a transaction stream over an initial ledger and projects the final
/// per-client rows. The initial ledger is empty for top-level use and is
/// exposed non-empty for composability and testing.
pub fn create_ledger_with_init(
    init_ledger: Vec<(ClientId, ClientState)>,
    transactions: Vec<Transaction>,
) -> (r: Ledger)
    requires
        ledger_wf(init_ledger@),
    ensures
        rows_correspond(r.0@, spec_apply_all(ledger_view(init_ledger@), transactions@)),
{
    let ghost m0 = ledger_view(init_ledger@);
    let ghost ts = transactions@;
    let mut ledger = init_ledger;
    let mut i: usize = 0;
    proof {
        assert(ts.skip(0) =~= ts);
    }
    while i < transactions.len()
        invariant
            i <= transactions.len(),
            ts == transactions@,
            ledger_wf(ledger@),
            spec_apply_all(m0, ts) == spec_apply_all(ledger_view(ledger@), ts.skip(i as int)),
        decreases transactions.len() - i,
    {
        let ghost rest = ts.skip(i as int);
        proof {
            assert(rest[0] == ts[i as int]);
            assert(rest.drop_first() =~= ts.skip(i + 1 as int));
        }
        ledger = resolve_transaction(transactions[i], ledger);
        i = i + 1;
    }
    proof {
        assert(ts.skip(ts.len() as int) =~= Seq::<Transaction>::empty());
    }
    let ghost mf = ledger_view(ledger@);
    let mut rows: Vec<ClientLedger> = Vec::new();
    let mut j: usize = 0;
    while j < ledger.len()
        invariant
            j <= ledger.len(),
            ledger_wf(ledger@),
            mf == ledger_view(ledger@),
            rows@.len() == j,
            forall|k: int| 0 <= k < j ==> (#[trigger] rows@[k]).id == ledger@[k].0,
            forall|k: int| 0 <= k < j ==> row_matches(#[trigger] rows@[k], ledger@[k].1@),
        decreases ledger.len() - j,
    {
        let row = ClientLedger::from_state(ledger[j].0, ledger[j].1.duplicate());
        rows.push(row);
        j = j + 1;
    }
    proof {
        assert forall|k: int| 0 <= k < rows@.len() implies mf.contains_key(
            (#[trigger] rows@[k]).id,
        ) && row_matches(rows@[k], mf[rows@[k].id]) by {
            lemma_ledger_view_index(ledger@, k);
        }
        assert forall|c: ClientId| mf.contains_key(c) implies exists|i2: int|
            0 <= i2 < rows@.len() && (#[trigger] rows@[i2]).id == c by {
            lemma_ledger_contains_exists(ledger@, c);
            let i2 = choose|i2: int| 0 <= i2 < ledger@.len() && (#[trigger] ledger@[i2]).0 == c;
            assert(rows@[i2].id == c);
        }
    }
    Ledger(rows)
}

/// Folds a transaction stream over the empty ledger: the engine's public
/// entry point.
pub fn create_ledger(transactions: Vec<Transaction>) -> (r: Ledger)
    ensures
        rows_correspond(
            r.0@,
            spec_apply_all(Map::<ClientId, StateModel>::empty(), transactions@),
        ),
{
    let init: Vec<(ClientId, ClientState)> = Vec::new();
    create_ledger_with_init(init, transactions)
}

} // verus!
