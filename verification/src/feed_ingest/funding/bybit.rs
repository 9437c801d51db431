use vstd::prelude::*;

use crate::feed_ingest::event::{FundingRateEvent, Venue};
use crate::feed_ingest::funding::json;
use crate::feed_ingest::funding::json::{append_joined, json_text};
use crate::float_bits::F64Bits;
use crate::text;
use crate::text::{has_prefix, parse_u64};

verus! {

/// Topic of a symbol.
pub open spec fn topic(symbol: Seq<char>) -> Seq<char> {
    "tickers."@ + symbol
}

/// Quoted topics of a list of symbols.
pub open spec fn quoted_topics(symbols: Seq<String>) -> Seq<Seq<char>> {
    symbols.map_values(|s: String| json::json_literal(topic(s@)))
}

/// The request that subscribes to the tickers of a list of symbols.
pub fn subscribe_request(symbols: &Vec<String>) -> (r: String)
    ensures
        r@ == "{\"args\":["@ + json::joined(quoted_topics(symbols@), ","@) + "],\"op\":\"subscribe\"}"@,
{
    let mut args: String = String::new();
    let mut i: usize = 0;
    assert(quoted_topics(symbols@.take(0)) =~= Seq::<Seq<char>>::empty());
    while i < symbols.len()
        invariant
            i <= symbols@.len(),
            args@ == json::joined(quoted_topics(symbols@.take(i as int)), ","@),
        decreases symbols@.len() - i,
    {
        let mut name: String = "tickers.".to_owned();
        name.append(symbols[i].as_str());
        let quoted: String = json_text(name.as_str());
        append_joined(
            &mut args,
            i,
            ",",
            quoted.as_str(),
            Ghost(quoted_topics(symbols@.take(i as int))),
        );
        assert(quoted_topics(symbols@.take(i + 1)) =~= quoted_topics(symbols@.take(i as int)).push(quoted@));
        i = i + 1;
    }
    assert(symbols@.take(i as int) == symbols@);
    let mut request: String = "{\"args\":[".to_owned();
    request.append(args.as_str());
    request.append("],\"op\":\"subscribe\"}");
    request
}

/// The data of a ticker message.
#[derive(Debug, Clone)]
pub struct Ticker {
    pub symbol: String,
    /// The funding rate, where the message has one and it is a number.
    pub funding_rate: Option<F64Bits>,
    /// Unix milliseconds, as text.
    pub next_funding_time: Option<String>,
    /// Hours between settlements, as text.
    pub funding_interval_hour: Option<String>,
}

/// The number in a text field, if there is a field and it is a number.
pub open spec fn field_value(field: Option<String>) -> Option<nat> {
    match field {
        Some(s) => text::unsigned_value(s@, u64::MAX as nat),
        None => None,
    }
}

fn read_field(field: &Option<String>) -> (r: Option<u64>)
    ensures
        r == (match field_value(*field) {
            Some(v) => Some(v as u64),
            None => None,
        }),
{
    match field {
        Some(s) => parse_u64(s.as_str()),
        None => None,
    }
}

/// The settlement interval in seconds: what the message says, or eight hours.
pub open spec fn interval_of(ticker: Ticker) -> int {
    match field_value(ticker.funding_interval_hour) {
        Some(hours) => hours as int * 3_600,
        None => 28_800,
    }
}

/// Whether a message announces a rate: it is a ticker with a numeric one.
pub open spec fn announces(topic: Option<String>, data: Option<Ticker>) -> bool {
    &&& topic matches Some(t) && "tickers."@.is_prefix_of(t@)
    &&& data matches Some(ticker) && ticker.funding_rate is Some
}

/// The funding rate that a message announces.
pub open spec fn announced(topic: Option<String>, data: Option<Ticker>, now_ms: u64) -> Option<
    FundingRateEvent,
> {
    if announces(topic, data) {
        let ticker = data->0;
        Some(
            FundingRateEvent {
                venue: Venue::Bybit,
                symbol: ticker.symbol,
                rate: ticker.funding_rate->0,
                interval_secs: interval_of(ticker) as u64,
                next_funding_ts: match field_value(ticker.next_funding_time) {
                    Some(ts) => ts as u64,
                    None => 0,
                },
                fetched_at_ms: now_ms,
            },
        )
    } else {
        None
    }
}

/// Takes a message: only a ticker with a numeric rate announces one. Replies to
/// requests have no topic, and a delta may repeat neither rate nor interval.
pub fn dispatch(topic: Option<String>, data: Option<Ticker>, now_ms: u64) -> (r: Option<FundingRateEvent>)
    requires
        announces(topic, data) ==> interval_of(data->0) <= u64::MAX,
    ensures
        r == announced(topic, data, now_ms),
{
    let t: String = match topic {
        Some(t) => t,
        None => {
            return None;
        },
    };
    if !has_prefix(t.as_str(), "tickers.") {
        return None;
    }
    let ticker: Ticker = match data {
        Some(ticker) => ticker,
        None => {
            return None;
        },
    };
    let rate: F64Bits = match ticker.funding_rate {
        Some(rate) => rate,
        None => {
            return None;
        },
    };
    let next_funding_ts: u64 = match read_field(&ticker.next_funding_time) {
        Some(ts) => ts,
        None => 0,
    };
    let interval_secs: u64 = match read_field(&ticker.funding_interval_hour) {
        Some(hours) => hours * 3_600,
        None => 28_800,
    };
    Some(
        FundingRateEvent {
            venue: Venue::Bybit,
            symbol: ticker.symbol,
            rate,
            interval_secs,
            next_funding_ts,
            fetched_at_ms: now_ms,
        },
    )
}

} // verus!
