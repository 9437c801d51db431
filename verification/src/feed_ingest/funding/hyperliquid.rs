use vstd::prelude::*;

use crate::feed_ingest::event::{FundingRateEvent, Venue};
use crate::feed_ingest::funding::json;
use crate::feed_ingest::funding::json::json_text;
use crate::float_bits::F64Bits;
use crate::text::same_text;

verus! {

/// The request that subscribes to one coin.
pub open spec fn request_for(coin: Seq<char>) -> Seq<char> {
    "{\"method\":\"subscribe\",\"subscription\":{\"coin\":"@ + json::json_literal(coin)
        + ",\"type\":\"activeAssetCtx\"}}"@
}

/// Writes the request that subscribes to one coin: this venue takes one coin
/// per request.
pub fn subscribe_request(coin: &str) -> (r: String)
    ensures
        r@ == request_for(coin@),
{
    let mut request: String = "{\"method\":\"subscribe\",\"subscription\":{\"coin\":".to_owned();
    let quoted: String = json_text(coin);
    request.append(quoted.as_str());
    request.append(",\"type\":\"activeAssetCtx\"}}");
    request
}

/// An asset-context message.
#[derive(Debug, Clone)]
pub struct AssetContext {
    pub channel: String,
    pub coin: String,
    /// The hourly funding rate, where the message has one and it is a number.
    pub funding: Option<F64Bits>,
}

/// The next full hour, in unix milliseconds.
pub open spec fn next_hour(now_ms: u64) -> int {
    (now_ms as int / 3_600_000 + 1) * 3_600_000
}

/// The funding rate that a message announces.
pub open spec fn announced(message: Option<AssetContext>, now_ms: u64) -> Option<FundingRateEvent> {
    match message {
        Some(m) => if m.channel@ == "activeAssetCtx"@ && m.funding is Some {
            Some(
                FundingRateEvent {
                    venue: Venue::Hyperliquid,
                    symbol: m.coin,
                    rate: m.funding->0,
                    interval_secs: 3_600,
                    next_funding_ts: next_hour(now_ms) as u64,
                    fetched_at_ms: now_ms,
                },
            )
        } else {
            None
        },
        None => None,
    }
}

/// Takes a message: only an asset context with a numeric rate announces one,
/// anything else is `None` or of another channel. The venue settles at the top
/// of each hour.
pub fn dispatch(message: Option<AssetContext>, now_ms: u64) -> (r: Option<FundingRateEvent>)
    requires
        next_hour(now_ms) <= u64::MAX,
    ensures
        r == announced(message, now_ms),
{
    let m: AssetContext = match message {
        Some(m) => m,
        None => {
            return None;
        },
    };
    if !same_text(m.channel.as_str(), "activeAssetCtx") {
        return None;
    }
    let rate: F64Bits = match m.funding {
        Some(rate) => rate,
        None => {
            return None;
        },
    };
    let next_funding_ts: u64 = (now_ms / 3_600_000 + 1) * 3_600_000;
    Some(
        FundingRateEvent {
            venue: Venue::Hyperliquid,
            symbol: m.coin,
            rate,
            interval_secs: 3_600,
            next_funding_ts,
            fetched_at_ms: now_ms,
        },
    )
}

/// The announced settlement lies ahead, by at most an hour.
pub proof fn law_next_hour_lies_ahead(now_ms: u64)
    ensures
        now_ms < next_hour(now_ms) <= now_ms + 3_600_000,
        next_hour(now_ms) % 3_600_000 == 0,
{
}

} // verus!
