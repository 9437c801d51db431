//! Funding rates of other venues: what to subscribe to, and which rate a
//! message announces.

pub mod announcement;
pub mod binance;
pub mod bybit;
pub mod hyperliquid;
pub mod json;
pub mod okx;

use vstd::prelude::*;

use crate::feed_ingest::event::Venue;

verus! {

/// How a venue's connection is kept alive.
#[derive(Debug, Clone, Copy, PartialEq, Eq, Structural)]
pub struct KeepAlive {
    pub ping_interval_secs: u64,
    pub pong_timeout_ms: u64,
}

/// The ping interval and pong timeout of a venue.
pub fn keep_alive(venue: Venue) -> (r: KeepAlive)
    ensures
        venue == Venue::Hyperliquid ==> r == (KeepAlive {
            ping_interval_secs: 30,
            pong_timeout_ms: 10_000,
        }),
        venue != Venue::Hyperliquid ==> r == (KeepAlive {
            ping_interval_secs: 20,
            pong_timeout_ms: 5_000,
        }),
{
    match venue {
        Venue::Hyperliquid => KeepAlive { ping_interval_secs: 30, pong_timeout_ms: 10_000 },
        _ => KeepAlive { ping_interval_secs: 20, pong_timeout_ms: 5_000 },
    }
}

} // verus!
