//! Lazy settlement of the floating leg.
//!
//! A market publishes an index record at discrete event tags. A position
//! settles by walking the tags since its checkpoint in order, pricing each
//! sub-period at the size held before that period's fills. Nothing is ever
//! interpolated: a missing record is an error.

pub mod error;
pub mod ledger;
pub mod reconciliation;
pub mod types;

pub use error::LedgerError;
pub use ledger::SettlementLedger;
pub use types::{FIndexRecord, Fill, PayFee, SettlementResult, SubPeriod};
