use vstd::prelude::*;

use crate::feed_ingest::event::{FundingRateEvent, Venue};
use crate::feed_ingest::funding::json;
use crate::feed_ingest::funding::json::append_joined;
use crate::float_bits::F64Bits;
use crate::text::same_text;

verus! {

/// The lowercase form of a text.
pub uninterp spec fn lowercase_of(s: Seq<char>) -> Seq<char>;

/// Calls `str::to_lowercase`, whose result depends on the text alone.
#[verifier::external_body]
fn lowercase(s: &str) -> (r: String)
    ensures
        r@ == lowercase_of(s@),
{
    s.to_lowercase()
}

/// Stream name of a symbol.
pub open spec fn stream_name(symbol: Seq<char>) -> Seq<char> {
    lowercase_of(symbol) + "@markPrice"@
}

/// Stream names of a list of symbols.
pub open spec fn stream_names(symbols: Seq<String>) -> Seq<Seq<char>> {
    symbols.map_values(|s: String| stream_name(s@))
}

/// The combined-stream address of a list of symbols.
pub fn stream_url(ws_url: &str, symbols: &Vec<String>) -> (r: String)
    ensures
        r@ == ws_url@ + "?streams="@ + json::joined(stream_names(symbols@), "/"@),
{
    let mut streams: String = String::new();
    let mut i: usize = 0;
    assert(stream_names(symbols@.take(0)) =~= Seq::<Seq<char>>::empty());
    while i < symbols.len()
        invariant
            i <= symbols@.len(),
            streams@ == json::joined(stream_names(symbols@.take(i as int)), "/"@),
        decreases symbols@.len() - i,
    {
        let mut name: String = lowercase(symbols[i].as_str());
        name.append("@markPrice");
        append_joined(
            &mut streams,
            i,
            "/",
            name.as_str(),
            Ghost(stream_names(symbols@.take(i as int))),
        );
        assert(stream_names(symbols@.take(i + 1)) =~= stream_names(symbols@.take(i as int)).push(name@));
        i = i + 1;
    }
    assert(symbols@.take(i as int) == symbols@);
    let mut url: String = ws_url.to_owned();
    url.append("?streams=");
    url.append(streams.as_str());
    url
}

/// A mark-price message.
#[derive(Debug, Clone)]
pub struct MarkPrice {
    pub event_type: String,
    pub symbol: String,
    /// The funding rate, where its text is a number.
    pub funding_rate: Option<F64Bits>,
    /// Unix milliseconds.
    pub next_funding_time: u64,
}

/// The funding rate that a message announces.
pub open spec fn announced(message: MarkPrice, now_ms: u64) -> Option<FundingRateEvent> {
    if message.event_type@ == "markPriceUpdate"@ && message.funding_rate is Some {
        Some(
            FundingRateEvent {
                venue: Venue::Binance,
                symbol: message.symbol,
                rate: message.funding_rate->0,
                interval_secs: 28_800,
                next_funding_ts: message.next_funding_time,
                fetched_at_ms: now_ms,
            },
        )
    } else {
        None
    }
}

/// Takes a message: only mark-price updates with a numeric rate announce one.
/// The venue settles every eight hours.
pub fn dispatch(message: MarkPrice, now_ms: u64) -> (r: Option<FundingRateEvent>)
    ensures
        r == announced(message, now_ms),
{
    if !same_text(message.event_type.as_str(), "markPriceUpdate") {
        return None;
    }
    match message.funding_rate {
        None => None,
        Some(rate) => Some(
            FundingRateEvent {
                venue: Venue::Binance,
                symbol: message.symbol,
                rate,
                interval_secs: 28_800,
                next_funding_ts: message.next_funding_time,
                fetched_at_ms: now_ms,
            },
        ),
    }
}

} // verus!
