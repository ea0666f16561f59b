//! Ledger reconciliation and return computation for investment-fund reports.
//!
//! The crate parses locale-formatted currency, percentage and date fields,
//! merges balance, transaction and fund-value rows into a per-fund time
//! series ledger, and computes action-adjusted variation and consolidated
//! return figures over lookback windows.  Reading report files, persisting
//! the ledger snapshot and rendering charts are left to the embedding
//! program; the functions here work on plain lines and values.

pub mod checker;
pub mod date;
pub mod engine;
pub mod ingest;
pub mod ledger;
pub mod money;
pub mod order;
pub mod percent;
pub mod reconcile;
pub mod roe;
pub mod snapshot;
pub mod text;
