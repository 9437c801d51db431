//! Relative-value signals: calendar spreads and cross-venue basis. Neither is a
//! riskless arbitrage.

pub mod calendar_spread;
pub mod cross_venue;
pub mod types;

pub use calendar_spread::to_calendar_spread_trade;
pub use cross_venue::detect_cross_venue_signal;
pub use types::{CalendarSpreadTrade, CrossVenueObservation, CrossVenueSignal};
