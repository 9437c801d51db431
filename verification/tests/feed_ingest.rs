use boros_mm::feed_ingest::boros::{build_plan, dispatch, Decoded, Outgoing, Target};
use boros_mm::feed_ingest::event::{
    parse_fixed_x18_raw, LimitOrderStatus, MarketDataUpdate, MarketTradeUpdate, OrderType, OrderbookSide,
    OrderbookUpdate, Side, StatisticsUpdate, SyncStatus, TickSize,
};
use boros_mm::feed_ingest::ws::{
    on_session_event, Frame, LinkAction, LinkEvent, Phase, Reconnect, SessionAction, SessionEvent,
};
use boros_mm::feed_ingest::{
    AccountFeedConfig, BookEvent, BookStateManager, BorosConfig, FeedError, MarkRateEvent, MarketFeedConfig,
    OrderBook, ProtocolError, Received, ReconnectConfig,
};
use boros_mm::float_bits::F64Bits;
use boros_mm::tick_math::FixedX18;

fn bits(v: f64) -> F64Bits {
    F64Bits(v.to_bits())
}

fn float(v: F64Bits) -> f64 {
    f64::from_bits(v.0)
}

fn sz(raw: i128) -> String {
    raw.to_string()
}

fn book_side(levels: &[(f64, i128)]) -> OrderbookSide {
    OrderbookSide {
        ia: levels.iter().map(|(ia, _)| bits(*ia)).collect(),
        sz: levels.iter().map(|(_, s)| sz(*s)).collect(),
    }
}

fn snapshot(long: Vec<(f64, i128)>, short: Vec<(f64, i128)>) -> BookEvent {
    BookEvent {
        market_id: 1,
        tick_size: TickSize::new(bits(0.01)).unwrap(),
        include_amm: false,
        long: book_side(&long),
        short: book_side(&short),
        sync_status: SyncStatus { block_number: 100, timestamp: 12345 },
    }
}

#[test]
fn bbo_picks_highest_bid_lowest_ask_regardless_of_wire_order() {
    let mut book = OrderBook::new(1, bits(0.01));
    book.apply(&snapshot(
        vec![(3.0, 1_000_000_000_000_000_000), (8.0, 2_000_000_000_000_000_000), (5.0, 1_000_000_000_000_000_000)],
        vec![(12.0, 1_000_000_000_000_000_000), (9.0, 1_000_000_000_000_000_000), (15.0, 1_000_000_000_000_000_000)],
    )).unwrap();

    let (bid, ask) = book.bbo().expect("no bbo");
    assert!((float(bid.rate) - 0.08).abs() < 1e-12);
    assert!((float(ask.rate) - 0.09).abs() < 1e-12);
}

#[test]
fn zero_size_levels_are_dropped() {
    let mut book = OrderBook::new(1, bits(0.01));
    book.apply(&snapshot(vec![(5.0, 0), (3.0, 1_000_000_000_000_000_000)], vec![])).unwrap();
    assert_eq!(book.bid_levels(), 1);
    assert!((float(book.best_bid().unwrap().rate) - 0.03).abs() < 1e-12);
}

#[test]
fn snapshot_fully_replaces_previous_state_no_merging() {
    let mut book = OrderBook::new(1, bits(0.01));
    book.apply(&snapshot(vec![(3.0, 1_000_000_000_000_000_000)], vec![])).unwrap();
    assert_eq!(book.bid_levels(), 1);
    book.apply(&snapshot(vec![(7.0, 1_000_000_000_000_000_000)], vec![])).unwrap();
    assert_eq!(book.bid_levels(), 1);
    assert!((float(book.best_bid().unwrap().rate) - 0.07).abs() < 1e-12);
}

#[test]
fn depth_respects_n_and_sort_order() {
    let mut book = OrderBook::new(1, bits(0.01));
    book.apply(&snapshot(
        vec![(1.0, 1_000_000_000_000_000_000), (5.0, 1_000_000_000_000_000_000), (3.0, 1_000_000_000_000_000_000)],
        vec![(10.0, 1_000_000_000_000_000_000), (8.0, 1_000_000_000_000_000_000)],
    )).unwrap();

    let depth = book.depth(2);
    assert_eq!(depth.bids.len(), 2);
    assert!(float(depth.bids[0].rate) > float(depth.bids[1].rate), "bids must be best-first (descending)");
    assert_eq!(depth.asks.len(), 2);
    assert!(float(depth.asks[0].rate) < float(depth.asks[1].rate), "asks must be best-first (ascending)");
}

#[test]
fn mismatched_ia_sz_lengths_is_a_protocol_error_not_a_panic() {
    let mut book = OrderBook::new(1, bits(0.01));
    let mut bad = snapshot(vec![(1.0, 1)], vec![]);
    bad.long.sz.push(sz(1));
    assert!(matches!(book.apply(&bad), Err(FeedError::Protocol(_))));
}

#[test]
fn empty_book_has_no_bbo_and_is_marked_uninitialized_before_first_apply() {
    let book = OrderBook::new(1, bits(0.01));
    assert!(!book.is_initialized());
    assert!(book.bbo().is_none());
}

#[test]
fn spread_and_mid_are_consistent_with_bbo() {
    let mut book = OrderBook::new(1, bits(0.01));
    book.apply(&snapshot(vec![(4.0, 1_000_000_000_000_000_000)], vec![(6.0, 1_000_000_000_000_000_000)])).unwrap();
    assert!((float(book.mid_rate().unwrap()) - 0.05).abs() < 1e-12);
    assert!((float(book.spread().unwrap()) - 0.02).abs() < 1e-12);
}

#[test]
fn a_crossed_book_has_no_negative_spread() {
    let mut book = OrderBook::new(1, bits(0.01));
    assert_eq!(book.mid_rate(), None);
    assert_eq!(book.spread(), None);
    book.apply(&snapshot(vec![(6.0, 1)], vec![(4.0, 1)])).unwrap();
    assert_eq!(book.spread(), Some(bits(0.0)));
    assert_eq!(book.mid_rate(), Some(bits((6.0 * 0.01 + 4.0 * 0.01) / 2.0)));
}

#[test]
fn a_refused_snapshot_leaves_the_book_as_it_was() {
    let mut book = OrderBook::new(7, bits(0.01));
    book.apply(&snapshot(vec![(4.0, 1)], vec![(6.0, 2)])).unwrap();
    let mut bad = snapshot(vec![(5.0, 1)], vec![(9.0, 1)]);
    bad.short.sz[0] = "many".to_owned();
    bad.sync_status = SyncStatus { block_number: 101, timestamp: 1 };
    assert_eq!(book.apply(&bad), Err(FeedError::FixedX18("many".to_owned())));
    assert_eq!(book.block_number(), 100);
    assert_eq!(float(book.best_bid().unwrap().rate), 0.04);
    assert_eq!(book.best_ask().unwrap().size, FixedX18::raw(2));
    assert_eq!(book.market_id(), 7);
    assert_eq!(book.tick_size(), bits(0.01));
    assert_eq!(book.ask_levels(), 1);
    assert!(book.is_initialized());
}

#[test]
fn a_short_list_of_sizes_is_reported_with_both_lengths() {
    let mut book = OrderBook::new(1, bits(0.01));
    let mut bad = snapshot(vec![(1.0, 1), (2.0, 1)], vec![]);
    bad.long.sz.pop();
    assert_eq!(book.apply(&bad), Err(FeedError::Protocol(ProtocolError::SideLengths { ia: 2, sz: 1 })));
}

fn event(market_id: u32, tick_size: f64, include_amm: bool, bid_ia: f64) -> BookEvent {
    BookEvent {
        market_id,
        tick_size: TickSize::new(bits(tick_size)).unwrap(),
        include_amm,
        long: book_side(&[(bid_ia, 1_000_000_000_000_000_000)]),
        short: book_side(&[]),
        sync_status: SyncStatus { block_number: 1, timestamp: 1 },
    }
}

fn drain(mgr: &mut BookStateManager, events: Vec<BookEvent>) {
    for e in events {
        assert!(mgr.on_received(Received::Event(e)));
    }
    assert!(!mgr.on_received(Received::Empty));
}

#[test]
fn plain_and_amm_views_of_the_same_market_do_not_collide() {
    let mut mgr = BookStateManager::new();
    let ts = TickSize::new(bits(0.01)).unwrap();
    drain(&mut mgr, vec![event(1, 0.01, false, 5.0), event(1, 0.01, true, 9.0)]);

    let plain = mgr.best_bid(1, ts, false).unwrap();
    let amm = mgr.best_bid(1, ts, true).unwrap();
    assert!((float(plain.rate) - 0.05).abs() < 1e-12);
    assert!((float(amm.rate) - 0.09).abs() < 1e-12);
}

#[test]
fn different_tick_sizes_for_the_same_market_do_not_collide() {
    let mut mgr = BookStateManager::new();
    drain(&mut mgr, vec![event(1, 0.01, false, 5.0), event(1, 0.001, false, 50.0)]);
    assert_eq!(mgr.known_markets().len(), 2, "should be two distinct book entries, not one overwriting the other");
}

#[test]
fn unknown_market_returns_none_not_a_default_book() {
    let mgr = BookStateManager::new();
    assert!(mgr.bbo(999, TickSize::new(bits(0.01)).unwrap(), false).is_none());
}

#[test]
fn malformed_snapshot_is_dropped_and_previous_good_state_survives() {
    let mut mgr = BookStateManager::new();
    let ts = TickSize::new(bits(0.01)).unwrap();
    drain(&mut mgr, vec![event(1, 0.01, false, 5.0)]);
    assert!((float(mgr.best_bid(1, ts, false).unwrap().rate) - 0.05).abs() < 1e-12);

    let mut bad = event(1, 0.01, false, 7.0);
    bad.long.sz.push("1".to_owned());
    drain(&mut mgr, vec![bad]);
    assert!((float(mgr.best_bid(1, ts, false).unwrap().rate) - 0.05).abs() < 1e-12);
}

#[test]
fn a_lagging_reader_goes_on_and_a_closed_channel_ends_the_drain() {
    let mut mgr = BookStateManager::new();
    assert!(mgr.on_received(Received::Lagged(3)));
    assert!(!mgr.on_received(Received::Closed));
    drain(&mut mgr, vec![event(4, 0.1, true, 1.0)]);
    let ts = TickSize::new(bits(0.1)).unwrap();
    assert_eq!(mgr.known_markets(), vec![(4, ts, true)]);
    assert_eq!(mgr.block_number(4, ts, true), Some(1));
    assert!(mgr.best_ask(4, ts, true).is_none());
    assert_eq!(mgr.depth(4, ts, true, 5).unwrap().bids.len(), 1);
}

#[test]
fn tick_sizes_are_the_accepted_ones_and_their_near_misses() {
    for (v, label) in [(0.1, "0.1"), (0.01, "0.01"), (0.001, "0.001"), (0.0001, "0.0001")] {
        let t = TickSize::new(bits(v)).unwrap();
        assert_eq!(t.value(), bits(v));
        assert_eq!(t.label(), label);
        assert!(TickSize::allowed().contains(&bits(v)));
        assert!(TickSize::new(bits(v + 2e-12)).is_err());
        assert!(TickSize::new(bits(v - 2e-12)).is_err());
    }
    let bad = bits(0.02);
    assert_eq!(TickSize::new(bad), Err(FeedError::Protocol(ProtocolError::TickSize(bad))));
    assert!(TickSize::new(bits(f64::NAN)).is_err());
    assert!(TickSize::new(bits(f64::INFINITY)).is_err());
    assert!(TickSize::new(bits(-0.1)).is_err());
    assert!(TickSize::new(bits(0.0)).is_err());
}

#[test]
fn near_misses_keep_their_value_and_are_written_with_the_fewest_places() {
    for v in [0.1_f64, 0.01, 0.001, 0.0001] {
        for offset in [5e-13, -5e-13, 3e-13, -1.5e-13, 9.9e-13, -9.9e-13, 1e-14, 7e-16] {
            let near = v + offset;
            let t = TickSize::new(bits(near)).unwrap();
            assert_eq!(t.value(), bits(near));
            assert_eq!(t.label(), format!("{near}"));
        }
        for steps in 1..400_u64 {
            let above = f64::from_bits(v.to_bits() + 7 * steps);
            let below = f64::from_bits(v.to_bits() - 5 * steps);
            assert_eq!(TickSize::new(bits(above)).unwrap().label(), format!("{above}"));
            assert_eq!(TickSize::new(bits(below)).unwrap().label(), format!("{below}"));
        }
    }
    let exact = TickSize::new(bits(0.1)).unwrap();
    let near = TickSize::new(bits(0.1000000000005)).unwrap();
    assert_ne!(exact, near);
    assert_eq!(near.label(), "0.1000000000005");
}

#[test]
fn wire_codes_decode_or_are_refused() {
    assert_eq!(Side::try_from(1), Ok(Side::Short));
    assert_eq!(Side::try_from(2), Err(FeedError::Protocol(ProtocolError::UnknownSide(2))));
    assert_eq!(OrderType::try_from(3), Ok(OrderType::StopLossMarket));
    assert_eq!(OrderType::try_from(9), Err(FeedError::Protocol(ProtocolError::UnknownOrderType(9))));
    assert_eq!(LimitOrderStatus::try_from(0), Ok(LimitOrderStatus::Filling));
    assert_eq!(
        LimitOrderStatus::try_from(77),
        Err(FeedError::Protocol(ProtocolError::UnknownLimitOrderStatus(77))),
    );
}

#[test]
fn raw_sizes_are_signed_decimal_text() {
    assert_eq!(parse_fixed_x18_raw("-12"), Ok(FixedX18::raw(-12)));
    assert_eq!(parse_fixed_x18_raw("+7"), Ok(FixedX18::raw(7)));
    assert_eq!(parse_fixed_x18_raw(""), Err(FeedError::FixedX18(String::new())));
    assert_eq!(
        parse_fixed_x18_raw("170141183460469231731687303715884105728"),
        Err(FeedError::FixedX18("170141183460469231731687303715884105728".to_owned())),
    );
}

fn market(market_id: u32, tick_size: f64) -> MarketFeedConfig {
    MarketFeedConfig {
        market_id,
        tick_size: bits(tick_size),
        subscribe_orderbook: true,
        subscribe_orderbook_amm: true,
        subscribe_trades: true,
        subscribe_statistics: true,
        subscribe_market_data: true,
    }
}

fn config(markets: Vec<MarketFeedConfig>) -> BorosConfig {
    BorosConfig {
        ws_url: "wss://example/socket".to_owned(),
        namespace: "/pendle-dapp-v3".to_owned(),
        reconnect: ReconnectConfig::default(),
        max_reconnect_attempts: None,
        markets,
        account: Some(AccountFeedConfig { root_address: "0xabc".to_owned() }),
    }
}

#[test]
fn a_plan_lists_the_channels_of_every_market_in_order() {
    let plan = build_plan(&config(vec![market(23, 0.001), market(5, 0.02)]));
    assert_eq!(
        *plan.channels(),
        vec![
            "orderbook:23:0.001",
            "orderbook-include-amm:23:0.001",
            "market-trade:23",
            "statistics:23",
            "market-data:23",
            "market-trade:5",
            "statistics:5",
            "market-data:5",
            "account-updates:0xabc",
        ],
    );
}

#[test]
fn near_misses_of_one_tick_size_are_views_of_their_own() {
    let plan = build_plan(&config(vec![market(7, 0.01), market(7, 0.0100000000005)]));
    assert_eq!(plan.channels()[0], "orderbook:7:0.01");
    assert_eq!(plan.channels()[5], "orderbook:7:0.0100000000005");
    let near = TickSize::new(bits(0.0100000000005)).unwrap();
    assert_eq!(
        plan.target("orderbook:7:0.0100000000005:update"),
        Target::Orderbook { market_id: 7, tick_size: near, include_amm: false },
    );

    let mut mgr = BookStateManager::new();
    drain(&mut mgr, vec![event(7, 0.01, false, 5.0), event(7, 0.0100000000005, false, 6.0)]);
    let exact = TickSize::new(bits(0.01)).unwrap();
    assert_eq!(float(mgr.best_bid(7, exact, false).unwrap().rate), 5.0 * 0.01);
    assert_eq!(float(mgr.best_bid(7, near, false).unwrap().rate), 6.0 * (0.0100000000005));
    let known = mgr.known_markets();
    assert_eq!(known.len(), 2);
    assert!(known.contains(&(7, exact, false)) && known.contains(&(7, near, false)));
}

#[test]
fn event_names_lead_to_their_market() {
    let plan = build_plan(&config(vec![market(23, 0.001), market(24, 0.1)]));
    let fine = TickSize::new(bits(0.001)).unwrap();
    let coarse = TickSize::new(bits(0.1)).unwrap();
    assert_eq!(
        plan.target("orderbook:23:0.001:update"),
        Target::Orderbook { market_id: 23, tick_size: fine, include_amm: false },
    );
    assert_eq!(
        plan.target("orderbook-include-amm-update"),
        Target::Orderbook { market_id: 24, tick_size: coarse, include_amm: true },
    );
    assert_eq!(plan.target("market-trade:24:update"), Target::MarketTrade { market_id: 24 });
    assert_eq!(plan.target("statistics:23:update"), Target::Statistics { market_id: 23 });
    assert_eq!(plan.target("market-data-update"), Target::MarketData);
    assert_eq!(plan.target("position-update"), Target::Position);
    assert_eq!(plan.target("order-update"), Target::Order);
    assert_eq!(plan.target("settlement-update"), Target::Settlement);
    assert_eq!(plan.target("something-else"), Target::Unhandled);
}

#[test]
fn a_decoded_payload_becomes_the_event_of_its_channel() {
    let trade = MarketTradeUpdate {
        rate: "0.05".to_owned(),
        size: "10".to_owned(),
        block_timestamp: 9,
        tx_hash: "0x1".to_owned(),
    };
    match dispatch(Target::MarketTrade { market_id: 3 }, Decoded::MarketTrade(trade.clone())) {
        Some(Outgoing::Trade(e)) => {
            assert_eq!((e.market_id, e.block_timestamp), (3, 9));
            assert_eq!((e.rate.as_str(), e.size.as_str(), e.tx_hash.as_str()), ("0.05", "10", "0x1"));
            assert!(e.side.is_none());
        },
        _ => panic!("expected a trade"),
    }
    assert!(dispatch(Target::MarketData, Decoded::MarketTrade(trade)).is_none());
    assert!(dispatch(Target::Order, Decoded::Malformed).is_none());

    let update = OrderbookUpdate {
        long: book_side(&[(5.0, 1)]),
        short: book_side(&[]),
        sync_status: SyncStatus { block_number: 8, timestamp: 2 },
    };
    let target = Target::Orderbook { market_id: 3, tick_size: TickSize::new(bits(0.01)).unwrap(), include_amm: true };
    match dispatch(target, Decoded::Orderbook(update)) {
        Some(Outgoing::Book(e)) => {
            assert_eq!((e.market_id, e.include_amm, e.sync_status.block_number), (3, true, 8));
            assert_eq!(e.long.sz, vec!["1".to_owned()]);
        },
        _ => panic!("expected a book"),
    }
}

#[test]
fn market_data_yields_the_mark_rate() {
    let data = MarketDataUpdate {
        market_id: 4,
        bn: 10,
        bt: 20,
        oi: bits(1.0),
        mid: bits(2.0),
        mk: bits(0.07),
        lt: bits(3.0),
        nst: 30,
        bb: None,
        ba: None,
        ai: None,
    };
    let expected = MarkRateEvent { market_id: 4, mark_apr: bits(0.07), block_number: 10, block_timestamp: 20 };
    assert_eq!(MarkRateEvent::from(&data), expected);
    match dispatch(Target::MarketData, Decoded::MarketData(data)) {
        Some(Outgoing::MarkRate(e)) => assert_eq!(e, expected),
        _ => panic!("expected a mark rate"),
    }
}

#[test]
fn statistics_carry_the_market_of_their_channel() {
    let stats = StatisticsUpdate {
        mark_apr: bits(0.05),
        mid_apr: bits(0.048),
        last_traded_apr: bits(0.051),
        floating_apr: bits(0.049),
        volume_24h: bits(1_000_000.0),
        notional_oi: bits(5_000_000.0),
        next_settlement_time: 1234567890,
        long_yield_apr: bits(0.046),
    };
    match dispatch(Target::Statistics { market_id: 6 }, Decoded::Statistics(stats)) {
        Some(Outgoing::Statistics(e)) => assert_eq!((e.market_id, e.stats), (6, stats)),
        _ => panic!("expected statistics"),
    }
}

#[test]
fn the_reconnect_loop_backs_off_and_resets() {
    let cfg = ReconnectConfig::default();
    let mut link = Reconnect::start(&cfg);
    let mut delays = Vec::new();
    for _ in 0..8 {
        match link.on_event(LinkEvent::ConnectFailed, &cfg) {
            LinkAction::Sleep { delay_ms } => {
                delays.push(delay_ms);
                assert_eq!(link.on_event(LinkEvent::Woke, &cfg), LinkAction::Connect);
            },
            other => panic!("unexpected action {other:?}"),
        }
    }
    assert_eq!(delays, vec![500, 1000, 2000, 4000, 8000, 16_000, 30_000, 30_000]);
    assert_eq!(link.on_event(LinkEvent::Connected, &cfg), LinkAction::AnnounceConnected);
    assert_eq!(link.delay_ms, 500);
    assert_eq!(link.on_event(LinkEvent::Delivered, &cfg), LinkAction::RunSession);
    assert_eq!(link.on_event(LinkEvent::SessionOver, &cfg), LinkAction::AnnounceDisconnected);
    assert_eq!(link.on_event(LinkEvent::Delivered, &cfg), LinkAction::Sleep { delay_ms: 500 });
}

#[test]
fn a_delay_is_scaled_and_cut_to_whole_milliseconds() {
    for multiplier in [1.5, 0.0, -2.0, f64::NAN, f64::INFINITY, 1.000001] {
        let cfg = ReconnectConfig { initial_delay_ms: 333, backoff_multiplier: bits(multiplier), max_delay_ms: 10_000 };
        let mut link = Reconnect::start(&cfg);
        link.on_event(LinkEvent::ConnectFailed, &cfg);
        link.on_event(LinkEvent::Woke, &cfg);
        assert_eq!(link.delay_ms, ((333.0 * multiplier) as u64).min(10_000), "{multiplier}");
    }
}

#[test]
fn only_a_lost_consumer_stops_the_loop() {
    let cfg = ReconnectConfig::default();
    let mut link = Reconnect::start(&cfg);
    link.on_event(LinkEvent::Connected, &cfg);
    assert_eq!(link.on_event(LinkEvent::ConsumerGone, &cfg), LinkAction::Stop);
    assert_eq!(link.phase, Phase::Stopped);
}

#[test]
fn a_session_answers_pings_and_ends_on_silence() {
    let timeout = 5_000_000_000u128;
    assert!(matches!(
        on_session_event(SessionEvent::Frame(Frame::Ping(vec![1, 2])), timeout),
        SessionAction::ReplyPong(d) if d == vec![1, 2],
    ));
    assert!(matches!(
        on_session_event(SessionEvent::Frame(Frame::Text("x".to_owned())), timeout),
        SessionAction::Forward(s) if s == "x",
    ));
    assert!(matches!(on_session_event(SessionEvent::Frame(Frame::Pong), timeout), SessionAction::NotePong));
    assert!(matches!(on_session_event(SessionEvent::Frame(Frame::Other), timeout), SessionAction::Ignore));
    assert!(matches!(
        on_session_event(SessionEvent::Frame(Frame::Close), timeout),
        SessionAction::EndWith(FeedError::WsClosed),
    ));
    assert!(matches!(
        on_session_event(SessionEvent::PingDue { since_pong_ns: timeout }, timeout),
        SessionAction::SendPing,
    ));
    assert!(matches!(
        on_session_event(SessionEvent::PingDue { since_pong_ns: timeout + 1 }, timeout),
        SessionAction::EndWith(FeedError::PongTimeout),
    ));
    assert!(matches!(
        on_session_event(SessionEvent::TransportFailed, timeout),
        SessionAction::EndWith(FeedError::Transport),
    ));
    assert!(matches!(
        on_session_event(SessionEvent::StreamEnded, timeout),
        SessionAction::EndWith(FeedError::WsClosed),
    ));
    assert!(matches!(
        on_session_event(SessionEvent::Outbound("y".to_owned()), timeout),
        SessionAction::SendText(s) if s == "y",
    ));
    assert!(matches!(on_session_event(SessionEvent::WriterClosed, timeout), SessionAction::EndClean));
    assert!(matches!(
        on_session_event(SessionEvent::ForwardFailed, timeout),
        SessionAction::EndWith(FeedError::BusSend),
    ));
}

#[test]
fn the_mid_rate_lies_between_the_best_rates() {
    let mut book = OrderBook::new(1, bits(0.0001));
    for (bid, ask) in [(1.0, 2.0), (333.0, 334.0), (-7.0, 3.0), (5.0, 5.0)] {
        book.apply(&snapshot(vec![(bid, 1)], vec![(ask, 1)])).unwrap();
        let mid = book.mid_rate().unwrap();
        assert!(book.best_bid().unwrap().rate.is_at_most(mid));
        assert!(mid.is_at_most(book.best_ask().unwrap().rate));
    }
}
