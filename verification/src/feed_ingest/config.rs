use vstd::prelude::*;

use crate::feed_ingest::event::Venue;
use crate::float_bits::{F64Bits, TWO};

verus! {

/// Backoff of the reconnect loop.
#[derive(Debug, Clone, Copy, PartialEq, Eq, Structural)]
pub struct ReconnectConfig {
    pub initial_delay_ms: u64,
    pub backoff_multiplier: F64Bits,
    pub max_delay_ms: u64,
}

impl Default for ReconnectConfig {
    /// Half a second, doubling, at most half a minute.
    fn default() -> (r: Self)
        ensures
            r.initial_delay_ms == 500,
            r.backoff_multiplier == F64Bits(TWO),
            r.max_delay_ms == 30_000,
    {
        ReconnectConfig {
            initial_delay_ms: 500,
            backoff_multiplier: F64Bits(TWO),
            max_delay_ms: 30_000,
        }
    }
}

/// What to subscribe to in one market.
#[derive(Debug, Clone, Copy, PartialEq, Eq, Structural)]
pub struct MarketFeedConfig {
    pub market_id: u32,
    pub tick_size: F64Bits,
    pub subscribe_orderbook: bool,
    pub subscribe_orderbook_amm: bool,
    pub subscribe_trades: bool,
    pub subscribe_statistics: bool,
    pub subscribe_market_data: bool,
}

/// Account-level subscription. The address must already be lowercase: channel
/// names are case-sensitive.
#[derive(Debug, Clone)]
pub struct AccountFeedConfig {
    pub root_address: String,
}

#[derive(Debug, Clone)]
pub struct BorosConfig {
    /// Base URL, including the path of the socket engine.
    pub ws_url: String,
    pub namespace: String,
    pub reconnect: ReconnectConfig,
    pub max_reconnect_attempts: Option<u8>,
    pub markets: Vec<MarketFeedConfig>,
    pub account: Option<AccountFeedConfig>,
}

/// One external source of funding rates.
#[derive(Debug, Clone)]
pub struct FundingSourceConfig {
    pub venue: Venue,
    pub ws_url: String,
    pub symbols: Vec<String>,
    pub reconnect: ReconnectConfig,
    pub write_buf: usize,
    pub event_buf: usize,
}

#[derive(Debug, Clone)]
pub struct FeedIngestConfig {
    pub boros: BorosConfig,
    pub funding: Vec<FundingSourceConfig>,
    pub book_channel_capacity: usize,
    pub mark_rate_channel_capacity: usize,
    pub trade_channel_capacity: usize,
    pub funding_channel_capacity: usize,
    pub statistics_channel_capacity: usize,
    pub account_channel_capacity: usize,
}

} // verus!
