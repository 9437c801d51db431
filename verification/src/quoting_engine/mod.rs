//! Two-sided quotes: reservation rate and spread, maker rate bounds, clamping.

pub mod amounts;
pub mod bounds;
pub mod engine;
pub mod error;
pub mod reservation;
pub mod types;

pub use bounds::{clamp_ask, clamp_bid};
pub use engine::{QuoteRates, QuotingEngine};
pub use error::QuoteError;
pub use reservation::{arrival_operand, optimal_spread, reservation_rate};
pub use types::{AvellanedaStoikovParams, InventoryState, MakerRateBounds, Quote};
