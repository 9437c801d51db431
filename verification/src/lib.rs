//! Market-making core for a tokenized interest-rate order book: fixed-point
//! arithmetic, margin, settlement, order tracking, risk, curves and feeds.

pub mod arb_engine;
pub mod curve_engine;
pub mod feed_ingest;
pub mod float_bits;
pub mod float_error;
pub mod float_math;
pub mod float_near;
pub mod float_order;
pub mod float_round;
pub mod float_text;
pub mod keys;
pub mod margin_sim;
pub mod oms_core;
pub mod ordering;
pub mod quoting_engine;
pub mod risk_engine;
pub mod settlement_ledger;
pub mod text;
pub mod tick_math;
