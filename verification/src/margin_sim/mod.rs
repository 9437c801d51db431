//! Shadow margin: position value, initial and maintenance margin, health.

pub mod engine;
pub mod error;
pub mod netting;
pub mod types;

pub use engine::MarginEngine;
pub use error::MarginError;
pub use types::{
    AccountMarginState, LiqSettings, MarginAccount, MarginConfig, MarginMode, MarketId, MarketState,
    OpenOrder, OrderSide, Position, SubaccountId, TokenId, LIQUIDATION_HEALTH_RATIO,
};
