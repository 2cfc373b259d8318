//! A payments ledger: replays an ordered stream of account transactions
//! (deposits, withdrawals, disputes, resolutions, chargebacks) and produces a
//! final per-client balance ledger.
//!
//! The heart of the crate is the ledger state machine in [`transactions`]:
//! the rules by which each transaction kind moves per-client balances, how
//! disputes move funds between available and held, and how a withdrawal that
//! failed for lack of available funds is retroactively re-attempted once a
//! later dispute resolution frees funds. [`laws`] states and proves the
//! properties the engine keeps: balances always split into available and
//! held, a locked account never changes again, disputes are idempotent, and
//! the backfill respects causality.

pub mod io;
pub mod laws;
pub mod test_support;
pub mod text;
pub mod transactions;
pub mod types;
pub mod utils;
