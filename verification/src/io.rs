//! The boundary with the tabular input and output format: decoded input rows
//! become domain transactions, and final ledger rows are rendered as
//! comma-separated text.

use vstd::prelude::*;
use vstd::string::StringExecFns;

use crate::text::{
    amount_string, amount_text, bool_string, bool_text, dec_digits, lemma_amount_text_plain,
    lemma_bool_text_plain, lemma_dec_digits_plain, plain_field, u64_string,
};
use crate::types::{
    AccountActivity, ClientId, ClientLedger, DisputeManagement, MonetaryAmount, Transaction,
    TransactionId,
};

verus! {

/// The kind a decoded input row names.
#[derive(Clone, Copy, PartialEq, Eq, Structural, Debug)]
pub enum TxTypeEntity {
    Deposit,
    Withdrawal,
    Dispute,
    Resolve,
    ChargeBack,
}

/// One decoded input row: a kind, a client, a transaction id, and an amount
/// that must be present exactly for deposits and withdrawals.
#[derive(Clone, Copy, PartialEq, Eq, Structural, Debug)]
pub struct TxRowEntity {
    pub tx_type: TxTypeEntity,
    pub client: u16,
    pub tx: u32,
    pub amount: Option<MonetaryAmount>,
}

impl TxRowEntity {
    /// Whether the row's shape is valid: an amount stands with a deposit or
    /// a withdrawal and with nothing else.
    pub open spec fn well_formed(self) -> bool {
        match self.tx_type {
            TxTypeEntity::Deposit => self.amount is Some,
            TxTypeEntity::Withdrawal => self.amount is Some,
            TxTypeEntity::Dispute => self.amount is None,
            TxTypeEntity::Resolve => self.amount is None,
            TxTypeEntity::ChargeBack => self.amount is None,
        }
    }

    /// The transaction a well-formed row denotes.
    pub open spec fn domain_spec(self) -> Transaction {
        let c = ClientId::new_spec(self.client);
        let tx = TransactionId::new_spec(self.tx);
        match self.tx_type {
            TxTypeEntity::Deposit => Transaction::Activity(
                AccountActivity::Deposit(c, tx, self.amount->Some_0),
            ),
            TxTypeEntity::Withdrawal => Transaction::Activity(
                AccountActivity::Withdrawal(c, tx, self.amount->Some_0),
            ),
            TxTypeEntity::Dispute => Transaction::Dispute(DisputeManagement::Dispute(c, tx)),
            TxTypeEntity::Resolve => Transaction::Dispute(DisputeManagement::Resolve(c, tx)),
            TxTypeEntity::ChargeBack => Transaction::Dispute(DisputeManagement::Chargeback(c, tx)),
        }
    }

    /// Turns a well-formed decoded row into its domain transaction.
    pub fn into_domain(self) -> (r: Transaction)
        requires
            self.well_formed(),
        ensures
            r == self.domain_spec(),
    {
        match self {
            TxRowEntity { tx_type: TxTypeEntity::Deposit, client, tx, amount: Some(a) } => {
                Transaction::Activity(
                    AccountActivity::Deposit(ClientId::new(client), TransactionId::new(tx), a),
                )
            },
            TxRowEntity { tx_type: TxTypeEntity::Withdrawal, client, tx, amount: Some(a) } => {
                Transaction::Activity(
                    AccountActivity::Withdrawal(ClientId::new(client), TransactionId::new(tx), a),
                )
            },
            TxRowEntity { tx_type: TxTypeEntity::Dispute, client, tx, amount: None } => {
                Transaction::Dispute(
                    DisputeManagement::Dispute(ClientId::new(client), TransactionId::new(tx)),
                )
            },
            TxRowEntity { tx_type: TxTypeEntity::Resolve, client, tx, amount: None } => {
                Transaction::Dispute(
                    DisputeManagement::Resolve(ClientId::new(client), TransactionId::new(tx)),
                )
            },
            TxRowEntity { tx_type: TxTypeEntity::ChargeBack, client, tx, amount: None } => {
                Transaction::Dispute(
                    DisputeManagement::Chargeback(ClientId::new(client), TransactionId::new(tx)),
                )
            },
            _ => vstd::pervasive::unreached(),
        }
    }
}

/// One output row with its fields already plain values.
#[derive(Clone, Copy, PartialEq, Eq, Structural, Debug)]
pub struct ClientLedgerEntity {
    pub client: u16,
    pub available: MonetaryAmount,
    pub held: MonetaryAmount,
    pub total: MonetaryAmount,
    pub locked: bool,
}

impl ClientLedgerEntity {
    /// Flattens a ledger row into its output fields.
    pub fn from_ledger(ledger: ClientLedger) -> (r: Self)
        ensures
            r.client == ledger.id.value_spec(),
            r.available == ledger.available,
            r.held == ledger.held,
            r.total == ledger.total,
            r.locked == ledger.is_locked,
    {
        Self {
            client: ledger.id.value(),
            available: ledger.available,
            held: ledger.held,
            total: ledger.total,
            locked: ledger.is_locked,
        }
    }
}

/// One record's fields joined by commas.
pub open spec fn fields_text(rec: Seq<Seq<char>>) -> Seq<char>
    decreases rec.len(),
{
    if rec.len() == 0 {
        Seq::empty()
    } else if rec.len() == 1 {
        rec[0]
    } else {
        rec[0] + seq![','] + fields_text(rec.drop_first())
    }
}

/// Records joined into comma-separated text: each record's fields joined by
/// commas, each record closed by a line break.
pub open spec fn csv_text(records: Seq<Seq<Seq<char>>>) -> Seq<char>
    decreases records.len(),
{
    if records.len() == 0 {
        Seq::empty()
    } else {
        fields_text(records[0]) + seq!['\n'] + csv_text(records.drop_first())
    }
}

/// Relies on `csv::Writer` (writing into an in-memory buffer, with its
/// default configuration): each record's fields are written joined by the
/// `,` delimiter and closed by a `\n` terminator, fields are quoted only
/// when they hold a delimiter, quote or line break — excluded here — and
/// writing records of equal positive length into a growable buffer cannot
/// fail.
#[verifier::external_body]
pub(crate) fn write_csv_records(records: &Vec<Vec<String>>) -> (r: String)
    requires
        records.deep_view().len() > 0,
        forall|i: int|
            0 <= i < records.deep_view().len() ==> (#[trigger] records.deep_view()[i]).len()
                == records.deep_view()[0].len(),
        records.deep_view()[0].len() > 0,
        forall|i: int, j: int|
            0 <= i < records.deep_view().len() && 0 <= j < records.deep_view()[i].len()
                ==> plain_field(#[trigger] records.deep_view()[i][j]),
    ensures
        r@ == csv_text(records.deep_view()),
{
    let mut wtr = csv::Writer::from_writer(vec![]);
    for rec in records {
        wtr.write_record(rec).unwrap();
    }
    let bytes = wtr.into_inner().unwrap();
    String::from_utf8(bytes).unwrap()
}

/// The header record of the output format.
pub open spec fn header_fields() -> Seq<Seq<char>> {
    seq!["client"@, "available"@, "held"@, "total"@, "locked"@]
}

/// The output fields of one ledger row: client id, available, held and total
/// amounts with four decimal digits, and the lock flag.
pub open spec fn ledger_row_fields(row: ClientLedger) -> Seq<Seq<char>> {
    seq![
        dec_digits(row.id.value_spec() as int),
        amount_text(row.available@),
        amount_text(row.held@),
        amount_text(row.total@),
        bool_text(row.is_locked),
    ]
}

/// The whole rendered output: the header record, then one record per ledger
/// row, in the rows' order.
pub open spec fn ledger_csv_text(rows: Seq<ClientLedger>) -> Seq<char> {
    csv_text(seq![header_fields()] + rows.map_values(|row: ClientLedger| ledger_row_fields(row)))
}

/// The header fields are plain.
pub(crate) proof fn lemma_header_plain()
    ensures
        forall|j: int| 0 <= j < header_fields().len() ==> plain_field(#[trigger] header_fields()[j]),
{
    reveal_strlit("client");
    reveal_strlit("available");
    reveal_strlit("held");
    reveal_strlit("total");
    reveal_strlit("locked");
    assert(plain_field("client"@));
    assert(plain_field("available"@));
    assert(plain_field("held"@));
    assert(plain_field("total"@));
    assert(plain_field("locked"@));
    assert forall|j: int| 0 <= j < header_fields().len() implies plain_field(
        #[trigger] header_fields()[j],
    ) by {
        if j == 0 {
            assert(header_fields()[0] == "client"@);
        } else if j == 1 {
            assert(header_fields()[1] == "available"@);
        } else if j == 2 {
            assert(header_fields()[2] == "held"@);
        } else if j == 3 {
            assert(header_fields()[3] == "total"@);
        } else {
            assert(header_fields()[4] == "locked"@);
        }
    }
}

/// Renders the final ledger as comma-separated text: a header record, then
/// one record per client row with amounts carrying exactly four digits after
/// the decimal point.
pub fn output_csv(client_ledger: Vec<ClientLedger>) -> (r: String)
    ensures
        r@ == ledger_csv_text(client_ledger@),
{
    let mut records: Vec<Vec<String>> = Vec::new();
    let mut header: Vec<String> = Vec::new();
    header.push(String::from_str("client"));
    header.push(String::from_str("available"));
    header.push(String::from_str("held"));
    header.push(String::from_str("total"));
    header.push(String::from_str("locked"));
    proof {
        assert(header.deep_view() =~= header_fields());
    }
    records.push(header);
    let ghost target = seq![header_fields()] + client_ledger@.map_values(
        |row: ClientLedger| ledger_row_fields(row),
    );
    proof {
        assert(records.deep_view() =~= target.take(1));
    }
    let mut i: usize = 0;
    while i < client_ledger.len()
        invariant
            i <= client_ledger@.len(),
            target == seq![header_fields()] + client_ledger@.map_values(
                |row: ClientLedger| ledger_row_fields(row),
            ),
            target.len() == client_ledger@.len() + 1,
            records.deep_view() == target.take(i + 1 as int),
        decreases client_ledger@.len() - i,
    {
        let row = client_ledger[i];
        let mut rec: Vec<String> = Vec::new();
        rec.push(u64_string(row.id.value() as u64));
        rec.push(amount_string(row.available));
        rec.push(amount_string(row.held));
        rec.push(amount_string(row.total));
        rec.push(bool_string(row.is_locked));
        proof {
            assert(rec.deep_view() =~= ledger_row_fields(client_ledger@[i as int]));
            assert(target[i + 1 as int] == ledger_row_fields(client_ledger@[i as int]));
        }
        let ghost recs_before = records@;
        proof {
            assert(records@.len() == records.deep_view().len());
            assert(recs_before.len() == i + 1);
        }
        records.push(rec);
        proof {
            assert(records@ == recs_before.push(rec));
            assert forall|k: int|
                0 <= k < records.deep_view().len() implies records.deep_view()[k] == target.take(
                i + 2 as int,
            )[k] by {
                if k < i + 1 {
                    assert(records@[k] == recs_before[k]);
                } else {
                    assert(records@[k] == rec);
                }
            }
            assert(records.deep_view() =~= target.take(i + 2 as int));
        }
        i = i + 1;
    }
    proof {
        assert(records.deep_view() =~= target);
        lemma_header_plain();
        assert forall|k: int, j: int|
            0 <= k < records.deep_view().len() && 0 <= j < records.deep_view()[k].len()
                implies plain_field(#[trigger] records.deep_view()[k][j]) by {
            if k == 0 {
                assert(records.deep_view()[0] == header_fields());
            } else {
                let row = client_ledger@[k - 1];
                assert(records.deep_view()[k] == ledger_row_fields(row));
                lemma_dec_digits_plain(row.id.value_spec() as int);
                lemma_amount_text_plain(row.available@);
                lemma_amount_text_plain(row.held@);
                lemma_amount_text_plain(row.total@);
                lemma_bool_text_plain(row.is_locked);
            }
        }
        assert forall|k: int|
            0 <= k < records.deep_view().len() implies (#[trigger] records.deep_view()[k]).len()
                == records.deep_view()[0].len() by {
            if k > 0 {
                assert(records.deep_view()[k] == ledger_row_fields(client_ledger@[k - 1]));
            }
        }
    }
    write_csv_records(&records)
}

} // verus!
