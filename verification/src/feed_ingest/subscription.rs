//! What a configuration subscribes to, what becomes of each payload, and how the
//! connection moves on.

use vstd::arithmetic::power2::lemma_pow2_pos;
use vstd::prelude::*;
use vstd::set_lib::{lemma_int_range, set_int_range};

use crate::feed_ingest::boros;
use crate::feed_ingest::boros::{Decoded, Outgoing, Target};
use crate::feed_ingest::config::{BorosConfig, MarketFeedConfig, ReconnectConfig};
use crate::feed_ingest::error::FeedError;
use crate::feed_ingest::event;
use crate::feed_ingest::event::{
    AccountUpdateEvent, MarketDataUpdate, MarketTradeUpdate, OrderUpdate, OrderbookUpdate, PositionUpdate,
    SettlementUpdate, StatisticsUpdate, TickSize, Venue,
};
use crate::feed_ingest::funding::json;
use crate::feed_ingest::funding::okx;
use crate::feed_ingest::funding::okx::FundingEntry;
use crate::feed_ingest::ws;
use crate::feed_ingest::ws::{Frame, LinkAction, LinkEvent, Phase, Reconnect, SessionAction, SessionEvent};
use crate::float_bits;
use crate::float_error;
use crate::float_math;
use crate::float_near;
use crate::float_near::{full, near};
use crate::text;

verus! {

/// Whether a market's configuration asks for a channel.
pub open spec fn asks_for(m: MarketFeedConfig, channel: Seq<char>) -> bool {
    let tick = event::admitted(m.tick_size);
    let id = text::decimal_text(m.market_id as nat);
    ||| m.subscribe_orderbook && tick is Some && channel == "orderbook:"@ + id + ":"@ + tick->0.text()
    ||| m.subscribe_orderbook_amm && tick is Some && channel == "orderbook-include-amm:"@ + id + ":"@
        + tick->0.text()
    ||| m.subscribe_trades && channel == "market-trade:"@ + id
    ||| m.subscribe_statistics && channel == "statistics:"@ + id
    ||| m.subscribe_market_data && channel == "market-data:"@ + id
}

/// How many channels a market's configuration asks for.
pub open spec fn channels_asked(m: MarketFeedConfig) -> int {
    let tick = event::admitted(m.tick_size) is Some;
    one_if(m.subscribe_orderbook && tick) + one_if(m.subscribe_orderbook_amm && tick) + one_if(m.subscribe_trades)
        + one_if(m.subscribe_statistics) + one_if(m.subscribe_market_data)
}

/// One where something holds, none otherwise.
pub open spec fn one_if(holds: bool) -> int {
    if holds {
        1
    } else {
        0
    }
}

/// How many channels the first `n` markets ask for.
pub open spec fn total_asked(markets: Seq<MarketFeedConfig>, n: nat) -> int
    decreases n,
{
    if n == 0 {
        0
    } else {
        total_asked(markets, (n - 1) as nat) + channels_asked(markets[n - 1])
    }
}

proof fn lemma_and_channel(channels: Seq<Seq<char>>, wanted: bool, added: Seq<char>, channel: Seq<char>)
    ensures
        boros::and_channel(channels, wanted, added).contains(channel) <==> channels.contains(channel) || (wanted
            && channel == added),
        boros::and_channel(channels, wanted, added).len() == channels.len() + one_if(wanted),
{
    let more = boros::and_channel(channels, wanted, added);
    if channels.contains(channel) {
        let i = choose|i: int| 0 <= i < channels.len() && channels[i] == channel;
        assert(more[i] == channel);
    }
    if wanted && channel == added {
        assert(more[more.len() - 1] == channel);
    }
    if more.contains(channel) && !(wanted && channel == added) {
        let i = choose|i: int| 0 <= i < more.len() && more[i] == channel;
        assert(i < channels.len());
        assert(channels[i] == channel);
    }
}

proof fn lemma_market_channels(channels: Seq<Seq<char>>, m: MarketFeedConfig, channel: Seq<char>)
    ensures
        boros::with_market_channels(channels, m).contains(channel) <==> channels.contains(channel) || asks_for(
            m,
            channel,
        ),
        boros::with_market_channels(channels, m).len() == channels.len() + channels_asked(m),
{
    let tick = event::admitted(m.tick_size);
    let id = m.market_id;
    let wants_book = m.subscribe_orderbook && tick is Some;
    let wants_amm = m.subscribe_orderbook_amm && tick is Some;
    let book = boros::and_channel(channels, wants_book, boros::orderbook_channel(id, tick->0));
    let amm = boros::and_channel(book, wants_amm, boros::amm_channel(id, tick->0));
    let trades = boros::and_channel(amm, m.subscribe_trades, boros::trade_channel(id));
    let statistics = boros::and_channel(trades, m.subscribe_statistics, boros::statistics_channel(id));
    lemma_and_channel(channels, wants_book, boros::orderbook_channel(id, tick->0), channel);
    lemma_and_channel(book, wants_amm, boros::amm_channel(id, tick->0), channel);
    lemma_and_channel(amm, m.subscribe_trades, boros::trade_channel(id), channel);
    lemma_and_channel(trades, m.subscribe_statistics, boros::statistics_channel(id), channel);
    lemma_and_channel(statistics, m.subscribe_market_data, boros::market_data_channel(id), channel);
}

/// A channel is subscribed exactly when some market's configuration asks for it, and
/// each request counts once.
pub proof fn law_every_channel_asked_for_is_subscribed(
    markets: Seq<MarketFeedConfig>,
    n: nat,
    channel: Seq<char>,
)
    requires
        n <= markets.len(),
    ensures
        boros::channels_of(markets, n).contains(channel) <==> (exists|i: int|
            0 <= i < n && asks_for(#[trigger] markets[i], channel)),
        boros::channels_of(markets, n).len() == total_asked(markets, n),
    decreases n,
{
    if n > 0 {
        let m = (n - 1) as nat;
        law_every_channel_asked_for_is_subscribed(markets, m, channel);
        lemma_market_channels(boros::channels_of(markets, m), markets[m as int], channel);
        if exists|i: int| 0 <= i < n && asks_for(#[trigger] markets[i], channel) {
            let i = choose|i: int| 0 <= i < n && asks_for(#[trigger] markets[i], channel);
            assert(i < m || i == m);
        }
    }
}

/// An account adds its own channel behind those of the markets, and only it.
pub proof fn law_an_account_adds_one_channel(cfg: BorosConfig)
    ensures
        cfg.account is None ==> boros::planned_channels(cfg) == boros::channels_of(
            cfg.markets@,
            cfg.markets@.len(),
        ),
        cfg.account matches Some(account) ==> boros::planned_channels(cfg) == boros::channels_of(
            cfg.markets@,
            cfg.markets@.len(),
        ).push("account-updates:"@ + account.root_address@),
{
}

/// Whether a name is one that a market's updates arrive under.
pub open spec fn arrives_under(m: MarketFeedConfig, name: Seq<char>) -> bool {
    let tick = event::admitted(m.tick_size);
    let id = text::decimal_text(m.market_id as nat);
    ||| m.subscribe_orderbook && tick is Some && name == "orderbook:"@ + id + ":"@ + tick->0.text() + ":update"@
    ||| m.subscribe_orderbook_amm && tick is Some && name == "orderbook-include-amm-update"@
    ||| m.subscribe_trades && name == "market-trade:"@ + id + ":update"@
    ||| m.subscribe_statistics && name == "statistics:"@ + id + ":update"@
}

/// Only planned names have a route: a name that no market's updates arrive under and
/// that is none of the fixed ones is not handled.
pub proof fn law_unplanned_events_are_not_handled(markets: Seq<MarketFeedConfig>, n: nat, name: Seq<char>)
    requires
        n <= markets.len(),
        forall|i: int| 0 <= i < n ==> !arrives_under(#[trigger] markets[i], name),
    ensures
        !boros::routes_of(markets, n).contains_key(name),
        name != "market-data-update"@ && name != "position-update"@ && name != "order-update"@ && name
            != "settlement-update"@ ==> boros::target_of(boros::routes_of(markets, n), name)
            == Target::Unhandled,
    decreases n,
{
    if n > 0 {
        law_unplanned_events_are_not_handled(markets, (n - 1) as nat, name);
        assert(!arrives_under(markets[n - 1], name));
    }
}

/// A payload of its target's shape becomes one event: a snapshot, a trade and
/// statistics with the market of their channel, market data with its own market, and
/// account updates as they are.
pub proof fn law_a_payload_becomes_its_event(
    market_id: u32,
    tick_size: TickSize,
    include_amm: bool,
    u: OrderbookUpdate,
    t: MarketTradeUpdate,
    s: StatisticsUpdate,
    d: MarketDataUpdate,
    p: PositionUpdate,
    o: OrderUpdate,
    settlement: SettlementUpdate,
)
    ensures
        boros::outgoing_of(Target::Orderbook { market_id, tick_size, include_amm }, Decoded::Orderbook(u))
            matches Some(Outgoing::Book(b)) && b.market_id == market_id && b.tick_size == tick_size
            && b.include_amm == include_amm && b.long == u.long && b.short == u.short && b.sync_status
            == u.sync_status,
        boros::outgoing_of(Target::MarketTrade { market_id }, Decoded::MarketTrade(t)) matches Some(
            Outgoing::Trade(e),
        ) && e.market_id == market_id && e.rate == t.rate && e.size == t.size && e.block_timestamp
            == t.block_timestamp && e.tx_hash == t.tx_hash && e.side is None,
        boros::outgoing_of(Target::Statistics { market_id }, Decoded::Statistics(s)) matches Some(
            Outgoing::Statistics(e),
        ) && e.market_id == market_id && e.stats == s,
        boros::outgoing_of(Target::MarketData, Decoded::MarketData(d)) matches Some(Outgoing::MarkRate(e))
            && e.market_id == d.market_id && e.mark_apr == d.mk && e.block_number == d.bn && e.block_timestamp
            == d.bt,
        boros::outgoing_of(Target::Position, Decoded::Position(p)) matches Some(Outgoing::Account(e)) && e
            == AccountUpdateEvent::Position(p),
        boros::outgoing_of(Target::Order, Decoded::Order(o)) matches Some(Outgoing::Account(e)) && e
            == AccountUpdateEvent::Order(o),
        boros::outgoing_of(Target::Settlement, Decoded::Settlement(settlement)) matches Some(
            Outgoing::Account(e),
        ) && e == AccountUpdateEvent::Settlement(settlement),
{
}

/// Whether a payload has the shape that its target asks for.
pub open spec fn suits(target: Target, decoded: Decoded) -> bool {
    match target {
        Target::Orderbook { .. } => decoded is Orderbook,
        Target::MarketTrade { .. } => decoded is MarketTrade,
        Target::Statistics { .. } => decoded is Statistics,
        Target::MarketData => decoded is MarketData,
        Target::Position => decoded is Position,
        Target::Order => decoded is Order,
        Target::Settlement => decoded is Settlement,
        Target::Unhandled => false,
    }
}

/// Nothing is sent for a payload of another shape, and something for every other.
pub proof fn law_only_payloads_of_the_right_shape_are_sent(target: Target, decoded: Decoded)
    ensures
        boros::outgoing_of(target, decoded) is Some <==> suits(target, decoded),
{
}

/// The link moves through its phases: a connection is announced and starts the delay
/// over, a failed attempt waits out the current delay, an announced link runs a
/// session, a session that is over is announced, a loss that was announced waits, and
/// a wait that is over leads to the next attempt with the next delay.
pub proof fn law_the_link_moves_through_its_phases(delay_ms: u64, cfg: ReconnectConfig)
    ensures
        ws::next_link(Reconnect { phase: Phase::Connecting, delay_ms }, LinkEvent::Connected, cfg) == (
            Reconnect { phase: Phase::Announcing, delay_ms: cfg.initial_delay_ms },
            LinkAction::AnnounceConnected,
        ),
        ws::next_link(Reconnect { phase: Phase::Connecting, delay_ms }, LinkEvent::ConnectFailed, cfg) == (
            Reconnect { phase: Phase::Waiting, delay_ms },
            LinkAction::Sleep { delay_ms },
        ),
        ws::next_link(Reconnect { phase: Phase::Announcing, delay_ms }, LinkEvent::Delivered, cfg) == (
            Reconnect { phase: Phase::InSession, delay_ms },
            LinkAction::RunSession,
        ),
        ws::next_link(Reconnect { phase: Phase::InSession, delay_ms }, LinkEvent::SessionOver, cfg) == (
            Reconnect { phase: Phase::Closing, delay_ms },
            LinkAction::AnnounceDisconnected,
        ),
        ws::next_link(Reconnect { phase: Phase::Closing, delay_ms }, LinkEvent::Delivered, cfg) == (
            Reconnect { phase: Phase::Waiting, delay_ms },
            LinkAction::Sleep { delay_ms },
        ),
        ws::next_link(Reconnect { phase: Phase::Waiting, delay_ms }, LinkEvent::Woke, cfg).1
            == LinkAction::Connect,
        ws::next_link(Reconnect { phase: Phase::Waiting, delay_ms }, LinkEvent::Woke, cfg).0.phase
            == Phase::Connecting,
        ws::next_link(Reconnect { phase: Phase::Waiting, delay_ms }, LinkEvent::Woke, cfg).0.delay_ms
            == ws::next_delay(delay_ms, cfg),
{
}

/// The next delay is the last one times the multiplier, in whole milliseconds, or the
/// greatest delay where that is less.
pub proof fn law_the_next_delay_is_multiplied(delay_ms: u64, cfg: ReconnectConfig)
    requires
        0 < delay_ms < 0x20_0000_0000_0000,
        float_bits::finite(cfg.backoff_multiplier),
        !float_bits::signed(cfg.backoff_multiplier),
        full(float_math::product(float_math::of_integer(delay_ms as int), cfg.backoff_multiplier)),
    ensures
        ({
            let scaled = float_math::product(float_math::of_integer(delay_ms as int), cfg.backoff_multiplier);
            let next = ws::next_delay(delay_ms, cfg) as int;
            let u = float_math::unit();
            &&& near(float_math::size(scaled), delay_ms * float_math::size(cfg.backoff_multiplier), 1)
            &&& next <= cfg.max_delay_ms
            &&& next < cfg.max_delay_ms ==> next * u <= float_math::size(scaled) < (next + 1) * u
            &&& next == cfg.max_delay_ms ==> next * u <= float_math::size(scaled)
        }),
{
    let u = float_math::unit();
    lemma_pow2_pos(1074);
    let d = float_math::of_integer(delay_ms as int);
    let m = cfg.backoff_multiplier;
    float_math::lemma_of_integer(delay_ms as int);
    float_math::law_small_integers_are_exact(delay_ms as int);
    let scaled = float_math::product(d, m);
    float_near::law_product_is_near(d, m);
    float_error::lemma_sizes(m);
    float_error::lemma_sizes(scaled);
    let (s, x) = (float_math::size(scaled), float_math::size(m));
    assert((delay_ms * u) * x == (delay_ms * x) * u) by (nonlinear_arith);
    float_near::law_near_cancels(s, delay_ms * x, u, 1);
    vstd::arithmetic::div_mod::lemma_fundamental_div_mod(s, u);
    let w = float_math::whole(scaled);
    assert(w * u <= s < (w + 1) * u && w >= 0) by (nonlinear_arith)
        requires
            s == u * w + s % u,
            0 <= s % u < u,
            s >= 0,
    {
        if w < 0 {
            assert(u * w <= -u);
        }
    }
    let next = ws::next_delay(delay_ms, cfg) as int;
    let top = u64::MAX as int;
    if w > top {
        assert(top * u <= w * u) by (nonlinear_arith)
            requires
                top <= w,
                u > 0,
        ;
    }
    let cap = cfg.max_delay_ms as int;
    assert(cap <= w ==> cap * u <= w * u) by (nonlinear_arith)
        requires
            u > 0,
    ;
}

/// What a session does about each event: texts are forwarded, pings answered with
/// their own data, pongs noted, and texts of the caller sent. A ping that is due is
/// sent unless the last pong is too long ago. A lost transport, a closed or ended
/// stream and a consumer that takes nothing end the session with their error; a
/// caller that closes it ends it cleanly.
pub proof fn law_a_session_answers_each_event(
    s: String,
    data: Vec<u8>,
    since_pong_ns: u128,
    pong_timeout_ns: u128,
)
    ensures
        ws::session_action(SessionEvent::Frame(Frame::Text(s)), pong_timeout_ns) == SessionAction::Forward(s),
        ws::session_action(SessionEvent::Frame(Frame::Ping(data)), pong_timeout_ns) == SessionAction::ReplyPong(
            data,
        ),
        ws::session_action(SessionEvent::Frame(Frame::Pong), pong_timeout_ns) == SessionAction::NotePong,
        ws::session_action(SessionEvent::Frame(Frame::Other), pong_timeout_ns) == SessionAction::Ignore,
        ws::session_action(SessionEvent::Frame(Frame::Close), pong_timeout_ns) == SessionAction::EndWith(
            FeedError::WsClosed,
        ),
        ws::session_action(SessionEvent::TransportFailed, pong_timeout_ns) == SessionAction::EndWith(
            FeedError::Transport,
        ),
        ws::session_action(SessionEvent::StreamEnded, pong_timeout_ns) == SessionAction::EndWith(
            FeedError::WsClosed,
        ),
        since_pong_ns <= pong_timeout_ns ==> ws::session_action(
            SessionEvent::PingDue { since_pong_ns },
            pong_timeout_ns,
        ) == SessionAction::SendPing,
        since_pong_ns > pong_timeout_ns ==> ws::session_action(
            SessionEvent::PingDue { since_pong_ns },
            pong_timeout_ns,
        ) == SessionAction::EndWith(FeedError::PongTimeout),
        ws::session_action(SessionEvent::Outbound(s), pong_timeout_ns) == SessionAction::SendText(s),
        ws::session_action(SessionEvent::WriterClosed, pong_timeout_ns) == SessionAction::EndClean,
        ws::session_action(SessionEvent::ForwardFailed, pong_timeout_ns) == SessionAction::EndWith(
            FeedError::BusSend,
        ),
{
}

/// The entries with a numeric rate among the first `n`.
pub open spec fn rated_before(entries: Seq<FundingEntry>, n: int) -> Set<int> {
    set_int_range(0, n).filter(|k: int| entries[k].funding_rate is Some)
}

/// Each entry with a numeric rate announces one funding rate, and no other does.
pub proof fn law_one_funding_rate_per_rated_entry(entries: Seq<FundingEntry>, now_ms: u64, n: nat)
    requires
        n <= entries.len(),
    ensures
        okx::entry_events(entries, now_ms, n).len() == rated_before(entries, n as int).len(),
    decreases n,
{
    lemma_int_range(0, n as int);
    if n == 0 {
        assert(rated_before(entries, 0) =~= Set::empty());
    } else {
        let m = n - 1;
        law_one_funding_rate_per_rated_entry(entries, now_ms, m as nat);
        lemma_int_range(0, m);
        let (before, after) = (rated_before(entries, m), rated_before(entries, n as int));
        if entries[m].funding_rate is Some {
            assert(after =~= before.insert(m));
        } else {
            assert(after =~= before);
        }
    }
}

/// The funding rate of an entry stands behind those of the entries before it, with the
/// entry's instrument and rate, its next settlement, and the seconds between its two
/// settlements where they ascend.
pub proof fn law_a_funding_rate_is_that_of_its_entry(entries: Seq<FundingEntry>, now_ms: u64, n: nat, k: int)
    requires
        n <= entries.len(),
        0 <= k < n,
        entries[k].funding_rate is Some,
    ensures
        ({
            let events = okx::entry_events(entries, now_ms, n);
            let i = rated_before(entries, k).len() as int;
            let next = text::unsigned_value(entries[k].next_funding_time@, u64::MAX as nat);
            let this = text::unsigned_value(entries[k].funding_time@, u64::MAX as nat);
            &&& 0 <= i < events.len()
            &&& events[i].venue == Venue::Okx
            &&& events[i].symbol == entries[k].inst_id
            &&& Some(events[i].rate) == entries[k].funding_rate
            &&& events[i].fetched_at_ms == now_ms
            &&& next matches Some(t) ==> events[i].next_funding_ts == t
            &&& next is None ==> events[i].next_funding_ts == 0 && events[i].interval_secs == 0
            &&& next matches Some(t) ==> this matches Some(s) ==> {
                &&& t > s ==> events[i].interval_secs * 1000 <= t - s < (events[i].interval_secs + 1) * 1000
                &&& t <= s ==> events[i].interval_secs == 0
            }
        }),
    decreases n,
{
    let m = (n - 1) as nat;
    if k < m {
        law_a_funding_rate_is_that_of_its_entry(entries, now_ms, m, k);
    } else {
        law_one_funding_rate_per_rated_entry(entries, now_ms, m);
    }
}

/// Joined texts follow one another with a separator between neighbours, however many
/// there are.
pub proof fn law_joining_keeps_every_text(items: Seq<Seq<char>>, separator: Seq<char>, item: Seq<char>)
    ensures
        json::joined(Seq::empty(), separator) == Seq::<char>::empty(),
        items.len() == 0 ==> json::joined(items.push(item), separator) == item,
        items.len() > 0 ==> json::joined(items.push(item), separator) == json::joined(items, separator)
            + separator + item,
{
    assert(items.push(item).drop_last() =~= items);
}

} // verus!
