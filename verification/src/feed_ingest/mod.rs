//! Feeds: order-book snapshots, channel plans and routing, connection
//! sessions, and the funding rates of other venues.

pub mod book;
pub mod boros;
pub mod config;
pub mod error;
pub mod event;
pub mod funding;
pub mod snapshot;
pub mod state;
pub mod subscription;
pub mod ws;

pub use book::{BookDepth, Level, OrderBook};
pub use config::{
    AccountFeedConfig, BorosConfig, FeedIngestConfig, FundingSourceConfig, MarketFeedConfig, ReconnectConfig,
};
pub use error::{FeedError, ProtocolError};
pub use state::{BookStateManager, Received};
pub use event::{
    AccountUpdateEvent, BookEvent, BookLevel, FundingRateEvent, MarkRateEvent, MarketStatisticsEvent, TradeEvent,
    TradeSide, Venue,
};
