use boros_mm::feed_ingest::funding::binance::MarkPrice;
use boros_mm::feed_ingest::funding::bybit::Ticker;
use boros_mm::feed_ingest::funding::hyperliquid::AssetContext;
use boros_mm::feed_ingest::funding::okx::FundingEntry;
use boros_mm::feed_ingest::funding::{binance, bybit, hyperliquid, keep_alive, okx};
use boros_mm::feed_ingest::{FundingRateEvent, Venue};
use boros_mm::float_bits::F64Bits;
use serde_json::Value;

fn float(v: F64Bits) -> f64 {
    f64::from_bits(v.0)
}

fn bits(v: f64) -> F64Bits {
    F64Bits(v.to_bits())
}

fn text(v: &Value) -> Option<String> {
    v.as_str().map(|s| s.to_owned())
}

fn number(v: &Value) -> Option<F64Bits> {
    v.as_str().and_then(|s| s.parse::<f64>().ok()).map(bits)
}

fn bybit_dispatch(raw: &str) -> Option<FundingRateEvent> {
    let v: Value = serde_json::from_str(raw).ok()?;
    let data = v["data"].is_object().then_some(Ticker {
        symbol: text(&v["data"]["symbol"]).unwrap_or_default(),
        funding_rate: number(&v["data"]["fundingRate"]),
        next_funding_time: text(&v["data"]["nextFundingTime"]),
        funding_interval_hour: text(&v["data"]["fundingIntervalHour"]),
    });
    bybit::dispatch(text(&v["topic"]), data, 1)
}

fn okx_dispatch(raw: &str) -> Vec<FundingRateEvent> {
    if okx::is_pong(raw) {
        return vec![];
    }
    let v: Value = match serde_json::from_str(raw) {
        Ok(v) => v,
        Err(_) => return vec![],
    };
    let entries = v["data"].as_array().map(|list| {
        list.iter()
            .map(|e| FundingEntry {
                inst_id: text(&e["instId"]).unwrap_or_default(),
                funding_rate: number(&e["fundingRate"]),
                funding_time: text(&e["fundingTime"]).unwrap_or_default(),
                next_funding_time: text(&e["nextFundingTime"]).unwrap_or_default(),
            })
            .collect()
    });
    okx::dispatch(text(&v["arg"]["channel"]), entries, 1)
}

fn push(inst_id: &str, rate: &str, funding_time_ms: u64, next_funding_time_ms: u64) -> String {
    format!(
        r#"{{"arg":{{"channel":"funding-rate","instId":"{inst_id}"}},"data":[{{"instId":"{inst_id}","fundingRate":"{rate}","fundingTime":"{funding_time_ms}","nextFundingTime":"{next_funding_time_ms}"}}]}}"#,
    )
}

#[test]
fn dispatch_parses_a_well_formed_funding_rate_push() {
    let events = okx_dispatch(&push("BTC-USDT-SWAP", "0.0001", 1_700_000_000_000, 1_700_028_800_000));
    let ev = &events[0];
    assert_eq!(ev.venue, Venue::Okx);
    assert_eq!(ev.symbol, "BTC-USDT-SWAP");
    assert!((float(ev.rate) - 0.0001).abs() < 1e-12);
    assert_eq!(ev.next_funding_ts, 1_700_028_800_000);
}

#[test]
fn dispatch_derives_interval_secs_from_the_two_timestamps_instead_of_assuming_8h() {
    let events = okx_dispatch(&push("XRP-USDT-SWAP", "0.00005", 0, 4 * 3_600_000));
    assert_eq!(events[0].interval_secs, 4 * 3_600);
}

#[test]
fn dispatch_ignores_bare_pong() {
    assert!(okx::is_pong("pong"));
    assert!(okx_dispatch("pong").is_empty());
}

#[test]
fn dispatch_ignores_subscribe_ack_with_no_data_field() {
    let ack = r#"{"event":"subscribe","arg":{"channel":"funding-rate","instId":"BTC-USDT-SWAP"}}"#;
    assert!(okx_dispatch(ack).is_empty());
}

#[test]
fn dispatch_ignores_a_different_channel() {
    let other = r#"{"arg":{"channel":"tickers"},"data":[{}]}"#;
    assert!(okx_dispatch(other).is_empty());
}

#[test]
fn dispatch_ignores_malformed_json_without_panicking() {
    assert!(!okx::is_pong("not json at all {{{"));
    assert!(okx_dispatch("not json at all {{{").is_empty());
}

#[test]
fn dispatch_skips_one_bad_entry_but_still_sends_the_rest() {
    let msg = r#"{"arg":{"channel":"funding-rate"},"data":[
        {"instId":"BAD-SWAP","fundingRate":"not-a-number","fundingTime":"0","nextFundingTime":"0"},
        {"instId":"BTC-USDT-SWAP","fundingRate":"0.0002","fundingTime":"0","nextFundingTime":"28800000"}
    ]}"#;
    let events = okx_dispatch(msg);
    assert_eq!(events[0].symbol, "BTC-USDT-SWAP");
    assert_eq!(events.len(), 1);
}

#[test]
fn dispatch_reads_the_real_funding_interval_hour_field() {
    let snapshot = r#"{"topic":"tickers.BTCUSDT","type":"snapshot","data":{"symbol":"BTCUSDT","fundingRate":"-0.005","nextFundingTime":"1760342400000","fundingIntervalHour":"8"}}"#;
    let ev = bybit_dispatch(snapshot).unwrap();
    assert_eq!(ev.interval_secs, 8 * 3_600);
    assert_eq!(ev.next_funding_ts, 1_760_342_400_000);
}

#[test]
fn dispatch_reads_a_non_default_interval_instead_of_assuming_8h() {
    let snapshot = r#"{"topic":"tickers.SOMEUSDT","type":"snapshot","data":{"symbol":"SOMEUSDT","fundingRate":"0.0001","nextFundingTime":"0","fundingIntervalHour":"4"}}"#;
    assert_eq!(bybit_dispatch(snapshot).unwrap().interval_secs, 4 * 3_600);
}

#[test]
fn dispatch_falls_back_to_8h_only_when_the_field_is_genuinely_missing() {
    let delta = r#"{"topic":"tickers.BTCUSDT","type":"delta","data":{"symbol":"BTCUSDT","fundingRate":"0.0002"}}"#;
    assert_eq!(bybit_dispatch(delta).unwrap().interval_secs, 28_800);
}

#[test]
fn dispatch_ignores_op_level_messages() {
    assert!(bybit_dispatch(r#"{"op":"subscribe","success":true}"#).is_none());
}

#[test]
fn dispatch_ignores_a_ticker_delta_with_no_funding_rate() {
    let delta = r#"{"topic":"tickers.BTCUSDT","type":"delta","data":{"symbol":"BTCUSDT"}}"#;
    assert!(bybit_dispatch(delta).is_none());
}

#[test]
fn the_stream_address_lists_lowercase_symbols() {
    let symbols = vec!["BTCUSDT".to_owned(), "EthUSDT".to_owned()];
    assert_eq!(
        binance::stream_url("wss://f/stream", &symbols),
        "wss://f/stream?streams=btcusdt@markPrice/ethusdt@markPrice",
    );
    assert_eq!(binance::stream_url("wss://f/stream", &vec![]), "wss://f/stream?streams=");
}

#[test]
fn requests_are_the_objects_that_the_venues_expect() {
    let symbols = vec!["BTCUSDT".to_owned(), "A\"B".to_owned()];
    assert_eq!(
        bybit::subscribe_request(&symbols),
        r#"{"args":["tickers.BTCUSDT","tickers.A\"B"],"op":"subscribe"}"#,
    );
    assert_eq!(
        okx::subscribe_request(&symbols),
        r#"{"args":[{"channel":"funding-rate","instId":"BTCUSDT"},{"channel":"funding-rate","instId":"A\"B"}],"op":"subscribe"}"#,
    );
    assert_eq!(
        hyperliquid::subscribe_request("BTC"),
        r#"{"method":"subscribe","subscription":{"coin":"BTC","type":"activeAssetCtx"}}"#,
    );
}

#[test]
fn quotes_backslashes_and_control_characters_are_escaped() {
    assert_eq!(
        hyperliquid::subscribe_request("a\"\\\u{8}\u{c}\n\r\t\u{1}\u{1f}\u{7f}/é"),
        "{\"method\":\"subscribe\",\"subscription\":{\"coin\":\"a\\\"\\\\\\b\\f\\n\\r\\t\\u0001\\u001f\u{7f}/é\",\"type\":\"activeAssetCtx\"}}",
    );
}

#[test]
fn mark_prices_announce_an_eight_hour_rate() {
    let message = MarkPrice {
        event_type: "markPriceUpdate".to_owned(),
        symbol: "BTCUSDT".to_owned(),
        funding_rate: Some(bits(0.0001)),
        next_funding_time: 77,
    };
    let ev = binance::dispatch(message.clone(), 5).unwrap();
    assert_eq!((ev.venue, ev.interval_secs, ev.next_funding_ts, ev.fetched_at_ms), (Venue::Binance, 28_800, 77, 5));
    assert!(binance::dispatch(MarkPrice { event_type: "other".to_owned(), ..message.clone() }, 5).is_none());
    assert!(binance::dispatch(MarkPrice { funding_rate: None, ..message }, 5).is_none());
}

#[test]
fn hourly_rates_settle_at_the_next_full_hour() {
    let context = AssetContext {
        channel: "activeAssetCtx".to_owned(),
        coin: "BTC".to_owned(),
        funding: Some(bits(0.00001)),
    };
    let ev = hyperliquid::dispatch(Some(context.clone()), 3_600_000 + 17).unwrap();
    assert_eq!((ev.symbol.as_str(), ev.interval_secs, ev.next_funding_ts), ("BTC", 3_600, 7_200_000));
    assert!(hyperliquid::dispatch(Some(AssetContext { channel: "pong".to_owned(), ..context }), 1).is_none());
    assert!(hyperliquid::dispatch(None, 1).is_none());
}

#[test]
fn venues_have_their_own_keep_alive() {
    assert_eq!(keep_alive(Venue::Hyperliquid).ping_interval_secs, 30);
    assert_eq!(keep_alive(Venue::Hyperliquid).pong_timeout_ms, 10_000);
    assert_eq!(keep_alive(Venue::Okx).ping_interval_secs, 20);
    assert_eq!(keep_alive(Venue::Binance).pong_timeout_ms, 5_000);
}

#[test]
fn times_that_do_not_ascend_have_no_interval() {
    assert_eq!(okx_dispatch(&push("X", "0.1", 10_000, 10_000))[0].interval_secs, 0);
    assert_eq!(okx_dispatch(&push("X", "0.1", 20_000, 10_000))[0].interval_secs, 0);
}
