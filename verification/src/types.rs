//! Monetary primitives and the ledger data model.

use vstd::prelude::*;

verus! {

/// Identifies a client account. Opaque, copyable, equality-comparable.
#[derive(Clone, Copy, PartialEq, Eq, Hash, Structural, Debug)]
pub struct ClientId(u16);

impl ClientId {
    /// The identifier with the given raw value, as a mathematical function.
    pub closed spec fn new_spec(value: u16) -> Self {
        ClientId(value)
    }

    pub fn new(value: u16) -> (r: Self)
        ensures
            r.value_spec() == value,
            r == ClientId::new_spec(value),
    {
        Self(value)
    }

    /// The raw 16-bit value of the identifier.
    pub closed spec fn value_spec(self) -> u16 {
        self.0
    }

    pub fn value(&self) -> (r: u16)
        ensures
            r == self.value_spec(),
    {
        self.0
    }
}

/// Identifies a single transaction. Opaque, copyable, equality-comparable.
#[derive(Clone, Copy, PartialEq, Eq, Hash, Structural, Debug)]
pub struct TransactionId(u32);

impl TransactionId {
    /// The identifier with the given raw value, as a mathematical function.
    pub closed spec fn new_spec(value: u32) -> Self {
        TransactionId(value)
    }

    pub fn new(value: u32) -> (r: Self)
        ensures
            r.value_spec() == value,
            r == TransactionId::new_spec(value),
    {
        Self(value)
    }

    /// The raw 32-bit value of the identifier.
    pub closed spec fn value_spec(self) -> u32 {
        self.0
    }
}

/// A fixed-precision decimal amount, held as a signed count of ten-thousandths
/// (four decimal places, the scale the output format uses). Addition and
/// subtraction are exact; no rounding happens after construction.
#[derive(Clone, Copy, PartialEq, Eq, Structural, Debug)]
pub struct MonetaryAmount(i64);

impl MonetaryAmount {
    /// The amount with the given count of ten-thousandths, as a mathematical
    /// function.
    pub closed spec fn new_spec(units: i64) -> Self {
        MonetaryAmount(units)
    }

    /// Builds an amount from a count of ten-thousandths of the currency unit.
    pub fn new(units: i64) -> (r: Self)
        ensures
            r@ == units as int,
            r == MonetaryAmount::new_spec(units),
    {
        Self(units)
    }

    /// The amount as a count of ten-thousandths of the currency unit.
    pub fn value(&self) -> (r: i64)
        ensures
            r as int == self@,
    {
        self.0
    }

    /// Exact addition; `None` when the sum does not fit the representation.
    pub fn checked_add(self, rhs: Self) -> (r: Option<Self>)
        ensures
            amount_fits(self@ + rhs@) ==> (r matches Some(v) && v@ == self@ + rhs@),
            !amount_fits(self@ + rhs@) ==> r is None,
    {
        match self.0.checked_add(rhs.0) {
            Some(v) => Some(Self(v)),
            None => None,
        }
    }

    /// Exact subtraction; `None` when the difference does not fit the representation.
    pub fn checked_sub(self, rhs: Self) -> (r: Option<Self>)
        ensures
            amount_fits(self@ - rhs@) ==> (r matches Some(v) && v@ == self@ - rhs@),
            !amount_fits(self@ - rhs@) ==> r is None,
    {
        match self.0.checked_sub(rhs.0) {
            Some(v) => Some(Self(v)),
            None => None,
        }
    }

    /// Total order on amounts: `self` strictly below `rhs`.
    pub fn lt(&self, rhs: &Self) -> (r: bool)
        ensures
            r == (self@ < rhs@),
    {
        self.0 < rhs.0
    }

    /// Total order on amounts: `self` at or below `rhs`.
    pub fn le(&self, rhs: &Self) -> (r: bool)
        ensures
            r == (self@ <= rhs@),
    {
        self.0 <= rhs.0
    }
}

impl View for MonetaryAmount {
    type V = int;

    closed spec fn view(&self) -> int {
        self.0 as int
    }
}

impl Default for MonetaryAmount {
    fn default() -> (r: Self)
        ensures
            r@ == 0,
    {
        Self(0)
    }
}

/// Whether a mathematical amount is representable as a `MonetaryAmount`.
pub open spec fn amount_fits(v: int) -> bool {
    i64::MIN <= v <= i64::MAX
}

/// A completed, recorded money movement. Immutable once created; stored for
/// later lookup by transaction id, because disputes, resolves and chargebacks
/// reference a prior deposit by id, not by inline amount.
#[derive(Clone, Copy, PartialEq, Eq, Structural, Debug)]
pub enum AccountActivity {
    /// Increases available and total funds by an amount.
    Deposit(ClientId, TransactionId, MonetaryAmount),
    /// Decreases available and total funds by an amount.
    ///
    /// Withdrawals are only taken against accounts with sufficient available
    /// funds. A withdrawal attempted while funds are under dispute may be
    /// enacted later, once a resolution frees sufficient available funds.
    Withdrawal(ClientId, TransactionId, MonetaryAmount),
}

/// The client a money movement belongs to.
pub open spec fn activity_client(a: AccountActivity) -> ClientId {
    match a {
        AccountActivity::Deposit(c, _, _) => c,
        AccountActivity::Withdrawal(c, _, _) => c,
    }
}

/// The transaction id a money movement was recorded under.
pub open spec fn activity_tx(a: AccountActivity) -> TransactionId {
    match a {
        AccountActivity::Deposit(_, tx, _) => tx,
        AccountActivity::Withdrawal(_, tx, _) => tx,
    }
}

/// The amount a money movement carries.
pub open spec fn activity_amount(a: AccountActivity) -> int {
    match a {
        AccountActivity::Deposit(_, _, m) => m@,
        AccountActivity::Withdrawal(_, _, m) => m@,
    }
}

/// A claim against a previously recorded transaction.
#[derive(Clone, Copy, PartialEq, Eq, Structural, Debug)]
pub enum DisputeManagement {
    /// Decreases available funds and increases held funds by the amount of the
    /// transaction the id names. Disputes against an unknown transaction are
    /// ignored; only deposits can be disputed, since a dispute decreases
    /// available funds.
    Dispute(ClientId, TransactionId),
    /// Releases held funds back to available. Previously rejected withdrawals
    /// are backfilled against the newly available funds.
    Resolve(ClientId, TransactionId),
    /// Decreases held and total funds by the disputed amount and freezes the
    /// account.
    Chargeback(ClientId, TransactionId),
}

/// One element of the input stream: either a money movement or a claim.
#[derive(Clone, Copy, PartialEq, Eq, Structural, Debug)]
pub enum Transaction {
    Activity(AccountActivity),
    Dispute(DisputeManagement),
}

/// Mathematical model of a [`RejectedActivity`].
pub ghost struct RejectedModel {
    pub activity: AccountActivity,
    pub snapshot: Seq<TransactionId>,
}

/// A withdrawal that has failed, paired with the set of transactions that were
/// under dispute when it failed. When one of those disputes is resolved, the
/// failed withdrawal may be backfilled.
#[derive(Clone, Debug)]
pub struct RejectedActivity {
    pub activity: AccountActivity,
    pub disputed_transaction_snapshot: Vec<TransactionId>,
}

impl View for RejectedActivity {
    type V = RejectedModel;

    open spec fn view(&self) -> RejectedModel {
        RejectedModel {
            activity: self.activity,
            snapshot: self.disputed_transaction_snapshot@,
        }
    }
}

impl RejectedActivity {
    /// An explicit copy whose model is provably equal to the original's.
    pub fn duplicate(&self) -> (r: Self)
        ensures
            r@ == self@,
    {
        RejectedActivity {
            activity: self.activity,
            disputed_transaction_snapshot: copy_ids(&self.disputed_transaction_snapshot),
        }
    }
}

/// An element-wise copy of a vector of transaction ids.
pub fn copy_ids(v: &Vec<TransactionId>) -> (r: Vec<TransactionId>)
    ensures
        r@ == v@,
{
    let mut r: Vec<TransactionId> = Vec::new();
    let mut i: usize = 0;
    while i < v.len()
        invariant
            i <= v.len(),
            r@ == v@.take(i as int),
        decreases v.len() - i,
    {
        r.push(v[i]);
        proof {
            assert(r@ =~= v@.take(i + 1 as int));
        }
        i = i + 1;
    }
    proof {
        assert(r@ =~= v@);
    }
    r
}

/// Mathematical model of a [`TransactionHistory`].
pub ghost struct HistoryModel {
    /// Append-only log of applied deposits and withdrawals; lookups by id see
    /// the most recent entry.
    pub activity: Seq<AccountActivity>,
    /// Transaction ids currently under an open dispute.
    pub disputed: Seq<TransactionId>,
    /// Rejected withdrawals retained for a possible later backfill, in order
    /// of rejection.
    pub rejected: Seq<RejectedModel>,
}

impl HistoryModel {
    /// Well-formedness: open disputes are listed once each, and only
    /// withdrawals are retained for backfill.
    pub open spec fn wf(self) -> bool {
        &&& (forall|i: int, j: int|
            0 <= i < j < self.disputed.len() ==> self.disputed[i] != self.disputed[j])
        &&& (forall|i: int|
            0 <= i < self.rejected.len() ==> self.rejected[i].activity is Withdrawal)
    }

    /// The empty history.
    pub open spec fn empty() -> HistoryModel {
        HistoryModel { activity: Seq::empty(), disputed: Seq::empty(), rejected: Seq::empty() }
    }
}

/// The most recently recorded activity under a transaction id, if any.
pub open spec fn lookup_activity(s: Seq<AccountActivity>, tx: TransactionId) -> Option<
    AccountActivity,
>
    decreases s.len(),
{
    if s.len() == 0 {
        None
    } else if activity_tx(s.last()) == tx {
        Some(s.last())
    } else {
        lookup_activity(s.drop_last(), tx)
    }
}

/// Data relating to a client's previous transactions. Applied deposits and
/// withdrawals are kept for use by dispute, resolve and chargeback claims;
/// open disputes and rejected withdrawals are kept so that rejected
/// withdrawals can be backfilled.
#[derive(Clone, Debug)]
pub struct TransactionHistory {
    pub account_activity: Vec<AccountActivity>,
    pub disputed_txs: Vec<TransactionId>,
    pub rejected_txs: Vec<RejectedActivity>,
}

impl View for TransactionHistory {
    type V = HistoryModel;

    open spec fn view(&self) -> HistoryModel {
        HistoryModel {
            activity: self.account_activity@,
            disputed: self.disputed_txs@,
            rejected: self.rejected_txs@.map_values(|r: RejectedActivity| r@),
        }
    }
}

impl Default for TransactionHistory {
    /// The empty history.
    fn default() -> (r: Self)
        ensures
            r@ == HistoryModel::empty(),
            r@.wf(),
    {
        let r = TransactionHistory {
            account_activity: Vec::new(),
            disputed_txs: Vec::new(),
            rejected_txs: Vec::new(),
        };
        proof {
            assert(r@.rejected =~= Seq::<RejectedModel>::empty());
            assert(r@ =~= HistoryModel::empty());
        }
        r
    }
}

impl TransactionHistory {
    /// A copy with the activity log replaced by what `f` makes of it.
    pub fn map_account_activity<F: FnOnce(&Vec<AccountActivity>) -> Vec<AccountActivity>>(
        &self,
        f: F,
    ) -> (r: Self)
        requires
            call_requires(f, (&self.account_activity,)),
        ensures
            call_ensures(f, (&self.account_activity,), r.account_activity),
            r@.disputed == self@.disputed,
            r@.rejected == self@.rejected,
    {
        let copy = self.duplicate();
        let r = TransactionHistory { account_activity: f(&self.account_activity), ..copy };
        proof {
            assert(r@.rejected =~= self@.rejected);
        }
        r
    }

    /// A copy with the open disputes replaced by what `f` makes of them.
    pub fn map_disputed_tx<F: FnOnce(&Vec<TransactionId>) -> Vec<TransactionId>>(
        &self,
        f: F,
    ) -> (r: Self)
        requires
            call_requires(f, (&self.disputed_txs,)),
        ensures
            call_ensures(f, (&self.disputed_txs,), r.disputed_txs),
            r@.activity == self@.activity,
            r@.rejected == self@.rejected,
    {
        let copy = self.duplicate();
        let r = TransactionHistory { disputed_txs: f(&self.disputed_txs), ..copy };
        proof {
            assert(r@.rejected =~= self@.rejected);
        }
        r
    }

    /// A copy with the rejected withdrawals replaced by what `f` makes of
    /// them.
    pub fn map_rejected_activity<F: FnOnce(&Vec<RejectedActivity>) -> Vec<RejectedActivity>>(
        &self,
        f: F,
    ) -> (r: Self)
        requires
            call_requires(f, (&self.rejected_txs,)),
        ensures
            call_ensures(f, (&self.rejected_txs,), r.rejected_txs),
            r@.activity == self@.activity,
            r@.disputed == self@.disputed,
    {
        let copy = self.duplicate();
        TransactionHistory { rejected_txs: f(&self.rejected_txs), ..copy }
    }

    /// An explicit copy whose model is provably equal to the original's.
    pub fn duplicate(&self) -> (r: Self)
        ensures
            r@ == self@,
    {
        let mut rejected: Vec<RejectedActivity> = Vec::new();
        let mut i: usize = 0;
        while i < self.rejected_txs.len()
            invariant
                i <= self.rejected_txs.len(),
                rejected@.len() == i,
                forall|k: int| 0 <= k < i ==> rejected@[k]@ == self.rejected_txs@[k]@,
            decreases self.rejected_txs.len() - i,
        {
            rejected.push(self.rejected_txs[i].duplicate());
            i = i + 1;
        }
        let mut activity: Vec<AccountActivity> = Vec::new();
        let mut j: usize = 0;
        while j < self.account_activity.len()
            invariant
                j <= self.account_activity.len(),
                activity@ == self.account_activity@.take(j as int),
            decreases self.account_activity.len() - j,
        {
            activity.push(self.account_activity[j]);
            proof {
                assert(activity@ =~= self.account_activity@.take(j + 1 as int));
            }
            j = j + 1;
        }
        let r = TransactionHistory {
            account_activity: activity,
            disputed_txs: copy_ids(&self.disputed_txs),
            rejected_txs: rejected,
        };
        proof {
            assert(r.account_activity@ =~= self.account_activity@);
            assert forall|k: int| 0 <= k < r@.rejected.len() implies r@.rejected[k]
                == self@.rejected[k] by {
                assert(r.rejected_txs@[k]@ == self.rejected_txs@[k]@);
            }
            assert(r@.rejected =~= self@.rejected);
            assert(r@ =~= self@);
        }
        r
    }
}

/// Mathematical model of a [`ClientState`].
pub ghost struct StateModel {
    pub available: int,
    pub held: int,
    pub total: int,
    pub locked: bool,
    pub history: HistoryModel,
}

impl StateModel {
    /// Well-formedness of the underlying history.
    pub open spec fn wf(self) -> bool {
        self.history.wf()
    }

    /// The state of a client that has not appeared yet: all balances zero,
    /// unlocked, empty history.
    pub open spec fn empty() -> StateModel {
        StateModel {
            available: 0,
            held: 0,
            total: 0,
            locked: false,
            history: HistoryModel::empty(),
        }
    }

    /// The books balance: the full balance splits into available and held.
    pub open spec fn balanced(self) -> bool {
        self.total == self.available + self.held
    }
}

/// The per-client account state the engine folds over.
#[derive(Clone, Debug)]
pub struct ClientState {
    pub available: MonetaryAmount,
    pub held: MonetaryAmount,
    pub total: MonetaryAmount,
    pub is_locked: bool,
    pub history: TransactionHistory,
}

impl View for ClientState {
    type V = StateModel;

    open spec fn view(&self) -> StateModel {
        StateModel {
            available: self.available@,
            held: self.held@,
            total: self.total@,
            locked: self.is_locked,
            history: self.history@,
        }
    }
}

impl Default for ClientState {
    /// The state of a client that has not appeared yet.
    fn default() -> (r: Self)
        ensures
            r@ == StateModel::empty(),
            r@.wf(),
    {
        let r = ClientState {
            available: MonetaryAmount::new(0),
            held: MonetaryAmount::new(0),
            total: MonetaryAmount::new(0),
            is_locked: false,
            history: TransactionHistory::default(),
        };
        proof {
            assert(r@ =~= StateModel::empty());
        }
        r
    }
}

impl ClientState {
    /// A copy with the available funds replaced by what `f` makes of them.
    pub fn map_avail<F: FnOnce(MonetaryAmount) -> MonetaryAmount>(&self, f: F) -> (r: Self)
        requires
            call_requires(f, (self.available,)),
        ensures
            call_ensures(f, (self.available,), r.available),
            r.held == self.held,
            r.total == self.total,
            r.is_locked == self.is_locked,
            r@.history == self@.history,
    {
        ClientState { available: f(self.available), ..self.duplicate() }
    }

    /// A copy with the full balance replaced by what `f` makes of it.
    pub fn map_total<F: FnOnce(MonetaryAmount) -> MonetaryAmount>(&self, f: F) -> (r: Self)
        requires
            call_requires(f, (self.total,)),
        ensures
            call_ensures(f, (self.total,), r.total),
            r.available == self.available,
            r.held == self.held,
            r.is_locked == self.is_locked,
            r@.history == self@.history,
    {
        ClientState { total: f(self.total), ..self.duplicate() }
    }

    /// A copy with the held funds replaced by what `f` makes of them.
    pub fn map_held<F: FnOnce(MonetaryAmount) -> MonetaryAmount>(&self, f: F) -> (r: Self)
        requires
            call_requires(f, (self.held,)),
        ensures
            call_ensures(f, (self.held,), r.held),
            r.available == self.available,
            r.total == self.total,
            r.is_locked == self.is_locked,
            r@.history == self@.history,
    {
        ClientState { held: f(self.held), ..self.duplicate() }
    }

    /// A copy with the history replaced by what `f` makes of it.
    pub fn map_history<F: FnOnce(&TransactionHistory) -> TransactionHistory>(&self, f: F) -> (r:
        Self)
        requires
            call_requires(f, (&self.history,)),
        ensures
            call_ensures(f, (&self.history,), r.history),
            r.available == self.available,
            r.held == self.held,
            r.total == self.total,
            r.is_locked == self.is_locked,
    {
        ClientState { history: f(&self.history), ..self.duplicate() }
    }

    /// A copy with the lock flag set as given.
    pub fn update_locked(&self, is_locked: bool) -> (r: Self)
        ensures
            r.is_locked == is_locked,
            r.available == self.available,
            r.held == self.held,
            r.total == self.total,
            r@.history == self@.history,
    {
        ClientState { is_locked, ..self.duplicate() }
    }

    /// An explicit copy whose model is provably equal to the original's.
    pub fn duplicate(&self) -> (r: Self)
        ensures
            r@ == self@,
    {
        let r = ClientState {
            available: self.available,
            held: self.held,
            total: self.total,
            is_locked: self.is_locked,
            history: self.history.duplicate(),
        };
        proof {
            assert(r@ =~= self@);
        }
        r
    }
}

/// One externally visible row of the final ledger.
#[derive(Clone, Copy, PartialEq, Eq, Structural, Debug)]
pub struct ClientLedger {
    pub id: ClientId,
    pub available: MonetaryAmount,
    pub held: MonetaryAmount,
    pub total: MonetaryAmount,
    pub is_locked: bool,
}

impl ClientLedger {
    /// Projects a client's state into its public row.
    pub fn from_state(id: ClientId, state: ClientState) -> (r: Self)
        ensures
            r.id == id,
            r.available@ == state@.available,
            r.held@ == state@.held,
            r.total@ == state@.total,
            r.is_locked == state@.locked,
    {
        Self {
            id,
            available: state.available,
            held: state.held,
            total: state.total,
            is_locked: state.is_locked,
        }
    }
}

/// The externally visible result: one row per client that appeared in the
/// transaction stream, in no guaranteed order.
#[derive(Debug)]
pub struct Ledger(pub Vec<ClientLedger>);

impl Default for Ledger {
    fn default() -> (r: Self)
        ensures
            r.0@.len() == 0,
    {
        Ledger(Vec::new())
    }
}

} // verus!
