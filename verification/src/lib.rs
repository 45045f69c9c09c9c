//! Envelope budgeting.
//!
//! The money of an account is kept in envelopes: named parts of the budget,
//! each with a target and a balance. The transactions of a bank's
//! statement are assigned to envelopes, one by one or split among several,
//! and a paycheck is handed out to all envelopes by their targets. The
//! portfolio keeps its totals in step with the envelopes at every turn.
//!
//! `dollar`, `date` and `transaction` hold the values, `vope` the envelope,
//! `portfolio` the operations and `account` the portfolio of one user.
//! `model` says what each operation makes of a portfolio, and `laws` what
//! holds of the ledger whatever is done with it.

pub mod account;
pub mod date;
pub mod decimal;
pub mod dollar;
pub mod error;
pub mod invariants;
pub mod laws;
pub mod model;
pub mod portfolio;
pub mod sorting;
pub mod split;
pub mod text;
pub mod transaction;
pub mod vope;

pub use crate::account::Account;
