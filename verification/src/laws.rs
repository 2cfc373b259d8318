//! Properties of the ledger engine that hold of every input: the balance
//! invariant, the freezing effect of a lock, idempotence of disputes, the
//! exact inversion of a dispute by its resolve, the finality of a dropped
//! withdrawal, and the causality of the retroactive backfill.

use vstd::prelude::*;

use crate::transactions::{
    backfill_loop, chargeback_applies, dispute_applies, no_backfill_possible, resolve_applies,
    spec_apply_all, spec_backfill, spec_chargeback, spec_deposit, spec_dispute, spec_resolve,
    spec_resolve_transaction, spec_withdrawal, state_or_empty,
};
use crate::types::{
    activity_amount, AccountActivity, ClientId, DisputeManagement, RejectedModel, StateModel,
    Transaction, TransactionId,
};

verus! {

/// Whether every client a ledger mapping knows has balancing books.
pub open spec fn all_balanced(m: Map<ClientId, StateModel>) -> bool {
    forall|c: ClientId| m.contains_key(c) ==> (#[trigger] m[c]).balanced()
}

/// The backfill pass moves available and total funds in lockstep: their
/// difference never changes.
proof fn lemma_backfill_loop_difference(
    avail: int,
    total: int,
    kept: Seq<RejectedModel>,
    rest: Seq<RejectedModel>,
    resolved: TransactionId,
)
    ensures
        backfill_loop(avail, total, kept, rest, resolved).1 - backfill_loop(
            avail,
            total,
            kept,
            rest,
            resolved,
        ).0 == total - avail,
    decreases rest.len(),
{
    if rest.len() > 0 {
        let e = rest[0];
        let amt = activity_amount(e.activity);
        if e.snapshot.contains(resolved) && amt <= avail && crate::types::amount_fits(avail - amt)
            && crate::types::amount_fits(total - amt) {
            lemma_backfill_loop_difference(avail - amt, total - amt, kept, rest.drop_first(), resolved);
        } else {
            lemma_backfill_loop_difference(avail, total, kept.push(e), rest.drop_first(), resolved);
        }
    }
}

/// Every transition keeps a client's books balancing:
/// `total == available + held` before implies it after.
pub proof fn lemma_transition_balanced(s: StateModel, t: Transaction)
    requires
        s.balanced(),
    ensures
        match t {
            Transaction::Activity(a) => spec_deposit(s, a).balanced() && spec_withdrawal(
                s,
                a,
            ).balanced(),
            Transaction::Dispute(d) => match d {
                DisputeManagement::Dispute(_, tx) => spec_dispute(s, tx).balanced(),
                DisputeManagement::Resolve(_, tx) => spec_resolve(s, tx).balanced(),
                DisputeManagement::Chargeback(_, tx) => spec_chargeback(s, tx).balanced(),
            },
        },
{
    match t {
        Transaction::Activity(_) => {},
        Transaction::Dispute(d) => match d {
            DisputeManagement::Dispute(_, _) => {},
            DisputeManagement::Resolve(_, tx) => {
                if resolve_applies(s, tx) {
                    let amt = activity_amount(
                        crate::types::lookup_activity(s.history.activity, tx)->Some_0,
                    );
                    lemma_backfill_loop_difference(
                        s.available + amt,
                        s.total,
                        Seq::empty(),
                        s.history.rejected,
                        tx,
                    );
                }
            },
            DisputeManagement::Chargeback(_, _) => {},
        },
    }
}

/// One step of the fold keeps every client's books balancing.
pub proof fn lemma_step_all_balanced(m: Map<ClientId, StateModel>, t: Transaction)
    requires
        all_balanced(m),
    ensures
        all_balanced(spec_resolve_transaction(t, m)),
{
    assert(StateModel::empty().balanced());
    match t {
        Transaction::Activity(a) => {
            let c = crate::types::activity_client(a);
            lemma_transition_balanced(state_or_empty(m, c), t);
        },
        Transaction::Dispute(d) => {
            let c = match d {
                DisputeManagement::Dispute(c, _) => c,
                DisputeManagement::Resolve(c, _) => c,
                DisputeManagement::Chargeback(c, _) => c,
            };
            lemma_transition_balanced(state_or_empty(m, c), t);
        },
    }
}

/// The balance invariant: starting from a ledger whose clients' books all
/// balance, every point of the fold — every prefix of the stream — leaves
/// every client with `total == available + held`.
pub proof fn lemma_balance_invariant(m: Map<ClientId, StateModel>, ts: Seq<Transaction>, i: int)
    requires
        all_balanced(m),
        0 <= i <= ts.len(),
    ensures
        all_balanced(spec_apply_all(m, ts.take(i))),
    decreases i,
{
    if i == 0 {
        assert(ts.take(0) =~= Seq::<Transaction>::empty());
    } else {
        lemma_balance_invariant(m, ts, i - 1);
        lemma_apply_all_snoc(m, ts.take(i - 1), ts[i - 1]);
        assert(ts.take(i).drop_last() =~= ts.take(i - 1));
        assert(ts.take(i) =~= ts.take(i - 1).push(ts[i - 1]));
        lemma_step_all_balanced(spec_apply_all(m, ts.take(i - 1)), ts[i - 1]);
    }
}

/// Folding one more transaction continues the fold of the prefix.
pub proof fn lemma_apply_all_snoc(m: Map<ClientId, StateModel>, ts: Seq<Transaction>, t: Transaction)
    ensures
        spec_apply_all(m, ts.push(t)) == spec_resolve_transaction(t, spec_apply_all(m, ts)),
    decreases ts.len(),
{
    if ts.len() == 0 {
        assert(ts.push(t)[0] == t);
        assert(ts.push(t).drop_first() =~= Seq::<Transaction>::empty());
        assert(spec_apply_all(m, ts.push(t)) == spec_apply_all(
            spec_resolve_transaction(t, m),
            Seq::<Transaction>::empty(),
        ));
        assert(spec_apply_all(spec_resolve_transaction(t, m), Seq::<Transaction>::empty())
            == spec_resolve_transaction(t, m));
        assert(spec_apply_all(m, ts) == m);
    } else {
        assert(ts.push(t)[0] == ts[0]);
        assert(ts.push(t).drop_first() =~= ts.drop_first().push(t));
        assert(spec_apply_all(m, ts.push(t)) == spec_apply_all(
            spec_resolve_transaction(ts[0], m),
            ts.drop_first().push(t),
        ));
        lemma_apply_all_snoc(spec_resolve_transaction(ts[0], m), ts.drop_first(), t);
        assert(spec_apply_all(m, ts) == spec_apply_all(
            spec_resolve_transaction(ts[0], m),
            ts.drop_first(),
        ));
    }
}

/// The balance invariant, seen at the output: every row of a ledger built
/// from scratch reports a total that splits exactly into available and held.
pub proof fn lemma_ledger_rows_balanced(rows: Seq<crate::types::ClientLedger>, ts: Seq<Transaction>)
    requires
        crate::transactions::rows_correspond(
            rows,
            spec_apply_all(Map::<ClientId, StateModel>::empty(), ts),
        ),
    ensures
        forall|i: int|
            0 <= i < rows.len() ==> (#[trigger] rows[i]).total@ == rows[i].available@
                + rows[i].held@,
{
    lemma_balance_invariant(Map::<ClientId, StateModel>::empty(), ts, ts.len() as int);
    assert(ts.take(ts.len() as int) =~= ts);
    let m = spec_apply_all(Map::<ClientId, StateModel>::empty(), ts);
    assert forall|i: int|
        0 <= i < rows.len() implies (#[trigger] rows[i]).total@ == rows[i].available@
        + rows[i].held@ by {
        assert(m.contains_key(rows[i].id));
        assert(m[rows[i].id].balanced());
    }
}

/// No transition touches a locked account's state.
pub proof fn lemma_locked_identity(s: StateModel, t: Transaction)
    requires
        s.locked,
    ensures
        match t {
            Transaction::Activity(a) => spec_deposit(s, a) == s && spec_withdrawal(s, a) == s,
            Transaction::Dispute(d) => match d {
                DisputeManagement::Dispute(_, tx) => spec_dispute(s, tx) == s,
                DisputeManagement::Resolve(_, tx) => spec_resolve(s, tx) == s,
                DisputeManagement::Chargeback(_, tx) => spec_chargeback(s, tx) == s,
            },
        },
{
}

/// Once a client's account is locked, no later transaction in the stream
/// changes any of its fields.
pub proof fn lemma_locked_frozen(m: Map<ClientId, StateModel>, ts: Seq<Transaction>, c: ClientId)
    requires
        m.contains_key(c),
        m[c].locked,
    ensures
        spec_apply_all(m, ts).contains_key(c),
        spec_apply_all(m, ts)[c] == m[c],
    decreases ts.len(),
{
    if ts.len() > 0 {
        let m1 = spec_resolve_transaction(ts[0], m);
        assert(m1.contains_key(c) && m1[c] == m[c]) by {
            lemma_locked_identity(m[c], ts[0]);
        }
        lemma_locked_frozen(m1, ts.drop_first(), c);
    }
}

/// A dispute on an already-disputed transaction id is a no-op: applying a
/// dispute twice yields the state one application yields, so re-applying it
/// any number of times changes nothing further.
pub proof fn lemma_dispute_idempotent(s: StateModel, tx: TransactionId)
    ensures
        spec_dispute(spec_dispute(s, tx), tx) == spec_dispute(s, tx),
{
    if dispute_applies(s, tx) {
        assert(spec_dispute(s, tx).history.disputed.contains(tx)) by {
            let d = s.history.disputed;
            assert(d.push(tx)[d.len() as int] == tx);
        }
    }
}

/// The same, seen at the level of the whole ledger fold: a repeated dispute
/// leaves the ledger mapping exactly where the first left it.
pub proof fn lemma_dispute_idempotent_ledger(
    m: Map<ClientId, StateModel>,
    c: ClientId,
    tx: TransactionId,
)
    ensures
        spec_resolve_transaction(
            Transaction::Dispute(DisputeManagement::Dispute(c, tx)),
            spec_resolve_transaction(Transaction::Dispute(DisputeManagement::Dispute(c, tx)), m),
        ) == spec_resolve_transaction(Transaction::Dispute(DisputeManagement::Dispute(c, tx)), m),
{
    let t = Transaction::Dispute(DisputeManagement::Dispute(c, tx));
    let s = state_or_empty(m, c);
    if dispute_applies(s, tx) {
        let m1 = m.insert(c, spec_dispute(s, tx));
        assert(state_or_empty(m1, c) == spec_dispute(s, tx));
        lemma_dispute_idempotent(s, tx);
        assert(!dispute_applies(spec_dispute(s, tx), tx)) by {
            let d = s.history.disputed;
            assert(d.push(tx)[d.len() as int] == tx);
        }
    }
}

/// Entries already kept, and entries of the remainder whose snapshot does not
/// hold the resolved id, survive the backfill pass.
proof fn lemma_backfill_loop_keeps(
    avail: int,
    total: int,
    kept: Seq<RejectedModel>,
    rest: Seq<RejectedModel>,
    resolved: TransactionId,
    e: RejectedModel,
)
    requires
        kept.contains(e) || (rest.contains(e) && !e.snapshot.contains(resolved)),
    ensures
        backfill_loop(avail, total, kept, rest, resolved).2.contains(e),
    decreases rest.len(),
{
    if rest.len() == 0 {
        assert(kept.contains(e));
    } else {
        let first = rest[0];
        let amt = activity_amount(first.activity);
        if rest.contains(e) && !e.snapshot.contains(resolved) && !kept.contains(e) {
            let i = choose|i: int| 0 <= i < rest.len() && rest[i] == e;
            if i > 0 {
                assert(rest.drop_first()[i - 1] == e);
                assert(rest.drop_first().contains(e));
            }
        }
        if first.snapshot.contains(resolved) && amt <= avail && crate::types::amount_fits(
            avail - amt,
        ) && crate::types::amount_fits(total - amt) {
            lemma_backfill_loop_keeps(avail - amt, total - amt, kept, rest.drop_first(), resolved, e);
        } else {
            assert(kept.push(first)[kept.len() as int] == first);
            assert(kept.contains(e) ==> kept.push(first).contains(e)) by {
                if kept.contains(e) {
                    let j = choose|j: int| 0 <= j < kept.len() && kept[j] == e;
                    assert(kept.push(first)[j] == e);
                }
            }
            lemma_backfill_loop_keeps(avail, total, kept.push(first), rest.drop_first(), resolved, e);
        }
    }
}

/// Causality of the backfill: a withdrawal whose rejection predates the
/// dispute being resolved — its snapshot does not hold the resolved id, in
/// particular when it was rejected before any dispute was opened — is never
/// backfilled by that resolve and stays in the rejected list.
pub proof fn lemma_backfill_causality(s: StateModel, resolved: TransactionId, i: int)
    requires
        0 <= i < s.history.rejected.len(),
        !s.history.rejected[i].snapshot.contains(resolved),
    ensures
        spec_backfill(s, resolved).history.rejected.contains(s.history.rejected[i]),
{
    assert(s.history.rejected.contains(s.history.rejected[i]));
    lemma_backfill_loop_keeps(
        s.available,
        s.total,
        Seq::empty(),
        s.history.rejected,
        resolved,
        s.history.rejected[i],
    );
}

/// Causality, seen through a whole resolve: whatever the resolve of `tx`
/// does, a rejected withdrawal whose snapshot does not hold `tx` survives it.
pub proof fn lemma_resolve_causality(s: StateModel, tx: TransactionId, i: int)
    requires
        0 <= i < s.history.rejected.len(),
        !s.history.rejected[i].snapshot.contains(tx),
    ensures
        spec_resolve(s, tx).history.rejected.contains(s.history.rejected[i]),
{
    if resolve_applies(s, tx) {
        let amt = activity_amount(crate::types::lookup_activity(s.history.activity, tx)->Some_0);
        let released = StateModel {
            available: s.available + amt,
            held: s.held - amt,
            history: crate::types::HistoryModel {
                disputed: s.history.disputed.remove_value(tx),
                ..s.history
            },
            ..s
        };
        lemma_backfill_causality(released, tx, i);
    } else {
        assert(s.history.rejected.contains(s.history.rejected[i]));
    }
}

/// A withdrawal with no chance now or later — beyond the available funds
/// while no dispute is open, or beyond the full balance — is dropped
/// entirely: the state is exactly unchanged, so it is recorded nowhere and
/// no later resolve can ever backfill it. The same holds of any withdrawal
/// against a locked account.
pub proof fn lemma_dropped_withdrawal_leaves_no_trace(s: StateModel, a: AccountActivity)
    requires
        s.locked || no_backfill_possible(s, activity_amount(a)),
    ensures
        spec_withdrawal(s, a) == s,
{
}

/// A resolve exactly inverts the dispute it closes: on a state whose
/// rejected list is empty (so the backfill pass has nothing to apply),
/// disputing a deposit and then resolving that dispute restores the state —
/// balances, open disputes and history alike. The representability bounds on
/// the starting balances are met by every state a real ledger holds.
pub proof fn lemma_resolve_inverts_dispute(s: StateModel, tx: TransactionId)
    requires
        dispute_applies(s, tx),
        s.history.rejected.len() == 0,
        crate::types::amount_fits(s.available),
        crate::types::amount_fits(s.held),
    ensures
        spec_resolve(spec_dispute(s, tx), tx) == s,
{
    let amt = activity_amount(crate::types::lookup_activity(s.history.activity, tx)->Some_0);
    let s2 = spec_dispute(s, tx);
    let d = s.history.disputed;
    assert(s2.history.disputed[d.len() as int] == tx);
    assert(s2.history.disputed.contains(tx));
    assert(resolve_applies(s2, tx));
    assert(d.push(tx).remove_value(tx) == d) by {
        d.push(tx).index_of_first_ensures(tx);
        let idx = d.push(tx).index_of_first(tx)->Some_0;
        assert forall|j: int| 0 <= j < d.len() implies d.push(tx)[j] != tx by {
            if d[j] == tx {
                assert(d.contains(tx));
            }
        }
        assert(idx == d.len());
        assert(d.push(tx).remove(d.len() as int) =~= d);
    }
    let released = StateModel {
        available: s2.available + amt,
        held: s2.held - amt,
        history: crate::types::HistoryModel {
            disputed: s2.history.disputed.remove_value(tx),
            ..s2.history
        },
        ..s2
    };
    assert(s.history.rejected =~= Seq::<RejectedModel>::empty());
    assert(spec_backfill(released, tx) == s);
}

} // verus!
