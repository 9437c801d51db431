//! Which funding rate a venue's message announces, field by field.

use vstd::prelude::*;

use crate::feed_ingest::event::Venue;
use crate::feed_ingest::funding::binance;
use crate::feed_ingest::funding::binance::MarkPrice;
use crate::feed_ingest::funding::bybit;
use crate::feed_ingest::funding::bybit::Ticker;
use crate::feed_ingest::funding::hyperliquid;
use crate::feed_ingest::funding::hyperliquid::AssetContext;
use crate::feed_ingest::funding::json;
use crate::feed_ingest::funding::okx;
use crate::feed_ingest::funding::okx::FundingEntry;
use crate::text;

verus! {

/// A Binance mark price announces the message's rate and next settlement, every eight
/// hours. Other messages, and a rate that is no number, announce nothing.
pub proof fn law_a_mark_price_announces_its_rate(message: MarkPrice, now_ms: u64)
    ensures
        binance::announced(message, now_ms) is Some <==> message.event_type@ == "markPriceUpdate"@
            && message.funding_rate is Some,
        binance::announced(message, now_ms) matches Some(e) ==> {
            &&& e.venue == Venue::Binance
            &&& e.symbol == message.symbol
            &&& Some(e.rate) == message.funding_rate
            &&& e.interval_secs == 8 * 3600
            &&& e.next_funding_ts == message.next_funding_time
            &&& e.fetched_at_ms == now_ms
        },
{
}

/// A Bybit ticker announces its rate, its next settlement where that is a number, and
/// its interval in hours, or eight hours where it names none.
pub proof fn law_a_ticker_announces_its_rate(topic: Option<String>, data: Option<Ticker>, now_ms: u64)
    ensures
        bybit::announced(topic, data, now_ms) is Some <==> (topic matches Some(t) && "tickers."@.is_prefix_of(t@))
            && (data matches Some(ticker) && ticker.funding_rate is Some),
        bybit::announced(topic, data, now_ms) matches Some(e) ==> {
            let ticker = data->0;
            &&& e.venue == Venue::Bybit
            &&& e.symbol == ticker.symbol
            &&& Some(e.rate) == ticker.funding_rate
            &&& e.fetched_at_ms == now_ms
            &&& ticker.next_funding_time is None ==> e.next_funding_ts == 0
            &&& ticker.next_funding_time matches Some(s) ==> {
                &&& text::unsigned_value(s@, u64::MAX as nat) matches Some(ts) ==> e.next_funding_ts == ts
                &&& text::unsigned_value(s@, u64::MAX as nat) is None ==> e.next_funding_ts == 0
            }
            &&& ticker.funding_interval_hour is None ==> e.interval_secs == 8 * 3600
            &&& ticker.funding_interval_hour matches Some(s) ==> {
                &&& text::unsigned_value(s@, u64::MAX as nat) matches Some(hours) ==> (hours * 3600 <= u64::MAX
                    ==> e.interval_secs == hours * 3600)
                &&& text::unsigned_value(s@, u64::MAX as nat) is None ==> e.interval_secs == 8 * 3600
            }
        },
{
}

/// A Hyperliquid asset context announces its hourly rate, which settles on the next full
/// hour.
pub proof fn law_an_asset_context_announces_its_rate(message: Option<AssetContext>, now_ms: u64)
    ensures
        hyperliquid::announced(message, now_ms) is Some <==> (message matches Some(m) && m.channel@
            == "activeAssetCtx"@ && m.funding is Some),
        hyperliquid::announced(message, now_ms) matches Some(e) ==> {
            let m = message->0;
            &&& e.venue == Venue::Hyperliquid
            &&& e.symbol == m.coin
            &&& Some(e.rate) == m.funding
            &&& e.interval_secs == 3600
            &&& e.fetched_at_ms == now_ms
            &&& now_ms <= u64::MAX - 3_600_000 ==> {
                &&& now_ms < e.next_funding_ts <= now_ms + 3_600_000
                &&& e.next_funding_ts as int % 3_600_000 == 0
            }
        },
{
}

/// An OKX message on the funding channel announces what its entries do, and one on
/// another channel, or without entries, nothing.
pub proof fn law_only_the_funding_channel_announces(
    channel: Option<String>,
    entries: Option<Vec<FundingEntry>>,
    now_ms: u64,
)
    ensures
        !(channel matches Some(c) && c@ == "funding-rate"@) || entries is None ==> okx::announced(
            channel,
            entries,
            now_ms,
        ).len() == 0,
        (channel matches Some(c) && c@ == "funding-rate"@) && entries is Some ==> okx::announced(
            channel,
            entries,
            now_ms,
        ) == okx::entry_events(entries->0@, now_ms, entries->0@.len()),
{
}

/// Every symbol is asked for under its own name, in the order given.
pub proof fn law_every_symbol_is_asked_for(symbols: Seq<String>, i: int)
    requires
        0 <= i < symbols.len(),
    ensures
        binance::stream_names(symbols).len() == symbols.len(),
        binance::stream_names(symbols)[i] == binance::lowercase_of(symbols[i]@) + "@markPrice"@,
        bybit::quoted_topics(symbols).len() == symbols.len(),
        bybit::quoted_topics(symbols)[i] == json::json_literal("tickers."@ + symbols[i]@),
        okx::arguments(symbols).len() == symbols.len(),
        okx::arguments(symbols)[i] == "{\"channel\":\"funding-rate\",\"instId\":"@ + json::json_literal(symbols[i]@)
            + "}"@,
{
}

} // verus!
