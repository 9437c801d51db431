//! Order management: packed order ids, trades, upfront cost, and the local
//! state of resting orders.

pub mod error;
pub mod order_id;
pub mod lifecycle;
pub mod payment;
pub mod tracker;
pub mod types;

pub use error::OmsError;
pub use order_id::{OrderId, Side};
pub use payment::{calc_upfront_fixed_cost, trade_upfront_fixed_cost};
pub use tracker::{LocalOrder, OrderTracker};
pub use types::{CancelData, LocalOrderStatus, LongShort, MarketAcc, OrderStatus, OtcTrade, TimeInForce, Trade};
