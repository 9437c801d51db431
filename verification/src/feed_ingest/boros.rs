use vstd::hash_map::StringHashMap;
use vstd::prelude::*;

use crate::feed_ingest::config::{BorosConfig, MarketFeedConfig};
use crate::feed_ingest::event;
use crate::feed_ingest::event::{
    AccountUpdateEvent, BookEvent, MarkRateEvent, MarketDataUpdate, MarketStatisticsEvent, MarketTradeUpdate,
    OrderUpdate, OrderbookUpdate, PositionUpdate, SettlementUpdate, StatisticsUpdate, TickSize, TradeEvent,
};
use crate::text;
use crate::text::{decimal, same_text};

verus! {

/// Where the events of a subscribed channel go.
#[derive(Debug, Clone, Copy, PartialEq, Eq, Structural)]
pub enum Route {
    Orderbook { market_id: u32, tick_size: TickSize, include_amm: bool },
    MarketTrade { market_id: u32 },
    Statistics { market_id: u32 },
}

/// Name of the plain order-book channel of a market.
pub open spec fn orderbook_channel(market_id: u32, tick_size: TickSize) -> Seq<char> {
    "orderbook:"@ + text::decimal_text(market_id as nat) + ":"@ + tick_size.text()
}

/// Name of the order-book channel that merges in pool liquidity.
pub open spec fn amm_channel(market_id: u32, tick_size: TickSize) -> Seq<char> {
    "orderbook-include-amm:"@ + text::decimal_text(market_id as nat) + ":"@ + tick_size.text()
}

/// Name of a market's trade channel.
pub open spec fn trade_channel(market_id: u32) -> Seq<char> {
    "market-trade:"@ + text::decimal_text(market_id as nat)
}

/// Name of a market's statistics channel.
pub open spec fn statistics_channel(market_id: u32) -> Seq<char> {
    "statistics:"@ + text::decimal_text(market_id as nat)
}

/// Name of a market's market-data channel.
pub open spec fn market_data_channel(market_id: u32) -> Seq<char> {
    "market-data:"@ + text::decimal_text(market_id as nat)
}

/// Name of the event that a channel's updates arrive under.
pub open spec fn update_event(channel: Seq<char>) -> Seq<char> {
    channel + ":update"@
}

/// A list with one more channel, where it is wanted.
pub open spec fn and_channel(channels: Seq<Seq<char>>, wanted: bool, channel: Seq<char>) -> Seq<Seq<char>> {
    if wanted {
        channels.push(channel)
    } else {
        channels
    }
}

/// A list of channels with those of one market behind it, in the order in which
/// they are subscribed. Order-book channels need an accepted tick size and are
/// skipped without one.
pub open spec fn with_market_channels(channels: Seq<Seq<char>>, m: MarketFeedConfig) -> Seq<Seq<char>> {
    let tick = event::admitted(m.tick_size);
    let book = and_channel(
        channels,
        m.subscribe_orderbook && tick is Some,
        orderbook_channel(m.market_id, tick->0),
    );
    let amm = and_channel(
        book,
        m.subscribe_orderbook_amm && tick is Some,
        amm_channel(m.market_id, tick->0),
    );
    let trades = and_channel(amm, m.subscribe_trades, trade_channel(m.market_id));
    let statistics = and_channel(trades, m.subscribe_statistics, statistics_channel(m.market_id));
    and_channel(statistics, m.subscribe_market_data, market_data_channel(m.market_id))
}

/// Routes with one more, where it is wanted.
pub open spec fn and_route(
    routes: Map<Seq<char>, Route>,
    wanted: bool,
    name: Seq<char>,
    route: Route,
) -> Map<Seq<char>, Route> {
    if wanted {
        routes.insert(name, route)
    } else {
        routes
    }
}

/// Routes by event name with those of one market added. The pool-inclusive book
/// has one fixed event name, so the last market subscribed to it has the route.
pub open spec fn with_market_routes(routes: Map<Seq<char>, Route>, m: MarketFeedConfig) -> Map<
    Seq<char>,
    Route,
> {
    let tick = event::admitted(m.tick_size);
    let book = and_route(
        routes,
        m.subscribe_orderbook && tick is Some,
        update_event(orderbook_channel(m.market_id, tick->0)),
        Route::Orderbook { market_id: m.market_id, tick_size: tick->0, include_amm: false },
    );
    let amm = and_route(
        book,
        m.subscribe_orderbook_amm && tick is Some,
        "orderbook-include-amm-update"@,
        Route::Orderbook { market_id: m.market_id, tick_size: tick->0, include_amm: true },
    );
    let trades = and_route(
        amm,
        m.subscribe_trades,
        update_event(trade_channel(m.market_id)),
        Route::MarketTrade { market_id: m.market_id },
    );
    and_route(
        trades,
        m.subscribe_statistics,
        update_event(statistics_channel(m.market_id)),
        Route::Statistics { market_id: m.market_id },
    )
}

/// The channels of the first `n` markets.
pub open spec fn channels_of(markets: Seq<MarketFeedConfig>, n: nat) -> Seq<Seq<char>>
    decreases n,
{
    if n == 0 {
        Seq::empty()
    } else {
        with_market_channels(channels_of(markets, (n - 1) as nat), markets[n - 1])
    }
}

/// The routes of the first `n` markets.
pub open spec fn routes_of(markets: Seq<MarketFeedConfig>, n: nat) -> Map<Seq<char>, Route>
    decreases n,
{
    if n == 0 {
        Map::empty()
    } else {
        with_market_routes(routes_of(markets, (n - 1) as nat), markets[n - 1])
    }
}

/// Every channel that a configuration subscribes to, the account last.
pub open spec fn planned_channels(cfg: BorosConfig) -> Seq<Seq<char>> {
    let markets = channels_of(cfg.markets@, cfg.markets@.len());
    match cfg.account {
        Some(account) => markets.push("account-updates:"@ + account.root_address@),
        None => markets,
    }
}

/// The texts of a list of strings.
pub open spec fn texts(strings: Seq<String>) -> Seq<Seq<char>> {
    strings.map_values(|s: String| s@)
}

/// What to subscribe to, and where the resulting events go.
pub struct SubscriptionPlan {
    channels: Vec<String>,
    routes: StringHashMap<Route>,
}

fn named(prefix: &str, market_id: u32) -> (r: String)
    ensures
        r@ == prefix@ + text::decimal_text(market_id as nat),
{
    let mut s: String = prefix.to_owned();
    let id: String = decimal(market_id);
    s.append(id.as_str());
    s
}

fn book_channel(prefix: &str, market_id: u32, tick_size: TickSize) -> (r: String)
    ensures
        r@ == prefix@ + text::decimal_text(market_id as nat) + ":"@ + tick_size.text(),
{
    let mut s: String = named(prefix, market_id);
    let size: String = tick_size.label();
    s.append(":");
    s.append(size.as_str());
    s
}

fn update_name(channel: &String) -> (r: String)
    ensures
        r@ == update_event(channel@),
{
    let mut s: String = channel.as_str().to_owned();
    s.append(":update");
    s
}

impl SubscriptionPlan {
    /// Channel names, in order.
    pub closed spec fn channel_texts(&self) -> Seq<Seq<char>> {
        texts(self.channels@)
    }

    /// Channel names to subscribe to once connected.
    pub fn channels(&self) -> (r: &Vec<String>)
        ensures
            texts(r@) == self.channel_texts(),
    {
        &self.channels
    }

    /// Routes by event name.
    pub closed spec fn route_map(&self) -> Map<Seq<char>, Route> {
        self.routes@
    }

    /// Adds a channel that has no route of its own.
    fn add_channel(&mut self, channel: String)
        ensures
            final(self).channel_texts() == old(self).channel_texts().push(channel@),
            final(self).route_map() == old(self).route_map(),
    {
        self.channels.push(channel);
        assert(texts(self.channels@) =~= texts(old(self).channels@).push(channel@));
    }

    /// Adds a channel and the route of the event that its updates arrive under.
    fn add_routed(&mut self, channel: String, name: String, route: Route)
        ensures
            final(self).channel_texts() == old(self).channel_texts().push(channel@),
            final(self).route_map() == old(self).route_map().insert(name@, route),
    {
        self.routes.insert(name, route);
        self.add_channel(channel);
    }

    fn add_market(&mut self, m: &MarketFeedConfig)
        ensures
            final(self).channel_texts() == with_market_channels(old(self).channel_texts(), *m),
            final(self).route_map() == with_market_routes(old(self).route_map(), *m),
    {
        let id: u32 = m.market_id;
        match TickSize::new(m.tick_size) {
            Ok(tick_size) => {
                if m.subscribe_orderbook {
                    let channel: String = book_channel("orderbook:", id, tick_size);
                    let name: String = update_name(&channel);
                    self.add_routed(
                        channel,
                        name,
                        Route::Orderbook { market_id: id, tick_size, include_amm: false },
                    );
                }
                if m.subscribe_orderbook_amm {
                    let channel: String = book_channel("orderbook-include-amm:", id, tick_size);
                    self.add_routed(
                        channel,
                        "orderbook-include-amm-update".to_owned(),
                        Route::Orderbook { market_id: id, tick_size, include_amm: true },
                    );
                }
            },
            Err(_) => {},
        }
        if m.subscribe_trades {
            let channel: String = named("market-trade:", id);
            let name: String = update_name(&channel);
            self.add_routed(channel, name, Route::MarketTrade { market_id: id });
        }
        if m.subscribe_statistics {
            let channel: String = named("statistics:", id);
            let name: String = update_name(&channel);
            self.add_routed(channel, name, Route::Statistics { market_id: id });
        }
        if m.subscribe_market_data {
            self.add_channel(named("market-data:", id));
        }
    }

    /// Where an event goes.
    pub fn target(&self, name: &str) -> (r: Target)
        ensures
            r == target_of(self.route_map(), name@),
    {
        match self.routes.get(name) {
            Some(route) => match *route {
                Route::Orderbook { market_id, tick_size, include_amm } => Target::Orderbook {
                    market_id,
                    tick_size,
                    include_amm,
                },
                Route::MarketTrade { market_id } => Target::MarketTrade { market_id },
                Route::Statistics { market_id } => Target::Statistics { market_id },
            },
            None => {
                if same_text(name, "market-data-update") {
                    Target::MarketData
                } else if same_text(name, "position-update") {
                    Target::Position
                } else if same_text(name, "order-update") {
                    Target::Order
                } else if same_text(name, "settlement-update") {
                    Target::Settlement
                } else {
                    Target::Unhandled
                }
            },
        }
    }
}

/// Plans the subscriptions of a configuration.
pub fn build_plan(cfg: &BorosConfig) -> (r: SubscriptionPlan)
    ensures
        r.channel_texts() == planned_channels(*cfg),
        r.route_map() == routes_of(cfg.markets@, cfg.markets@.len()),
{
    let mut plan: SubscriptionPlan = SubscriptionPlan {
        channels: Vec::new(),
        routes: StringHashMap::new(),
    };
    assert(texts(plan.channels@) =~= Seq::<Seq<char>>::empty());
    let mut i: usize = 0;
    while i < cfg.markets.len()
        invariant
            i <= cfg.markets@.len(),
            plan.channel_texts() == channels_of(cfg.markets@, i as nat),
            plan.route_map() == routes_of(cfg.markets@, i as nat),
        decreases cfg.markets@.len() - i,
    {
        plan.add_market(&cfg.markets[i]);
        i = i + 1;
    }
    match &cfg.account {
        Some(account) => {
            let mut channel: String = "account-updates:".to_owned();
            channel.append(account.root_address.as_str());
            plan.add_channel(channel);
        },
        None => {},
    }
    plan
}

/// What an event's payload is decoded as.
#[derive(Debug, Clone, Copy, PartialEq, Eq, Structural)]
pub enum Target {
    Orderbook { market_id: u32, tick_size: TickSize, include_amm: bool },
    MarketTrade { market_id: u32 },
    Statistics { market_id: u32 },
    MarketData,
    Position,
    Order,
    Settlement,
    Unhandled,
}

/// Where an event name leads: a planned route first, then the fixed names.
pub open spec fn target_of(routes: Map<Seq<char>, Route>, name: Seq<char>) -> Target {
    if routes.contains_key(name) {
        match routes[name] {
            Route::Orderbook { market_id, tick_size, include_amm } => Target::Orderbook {
                market_id,
                tick_size,
                include_amm,
            },
            Route::MarketTrade { market_id } => Target::MarketTrade { market_id },
            Route::Statistics { market_id } => Target::Statistics { market_id },
        }
    } else if name == "market-data-update"@ {
        Target::MarketData
    } else if name == "position-update"@ {
        Target::Position
    } else if name == "order-update"@ {
        Target::Order
    } else if name == "settlement-update"@ {
        Target::Settlement
    } else {
        Target::Unhandled
    }
}

/// A payload, decoded as its target asks.
pub enum Decoded {
    Orderbook(OrderbookUpdate),
    MarketTrade(MarketTradeUpdate),
    Statistics(StatisticsUpdate),
    MarketData(MarketDataUpdate),
    Position(PositionUpdate),
    Order(OrderUpdate),
    Settlement(SettlementUpdate),
    /// The payload is not of the target's shape.
    Malformed,
}

/// What consumers are sent.
pub enum Outgoing {
    Book(BookEvent),
    Trade(TradeEvent),
    Statistics(MarketStatisticsEvent),
    MarkRate(MarkRateEvent),
    Account(AccountUpdateEvent),
}

/// The event of a payload: the payload's data with the market of its channel. A
/// malformed payload and one of another shape give none.
pub open spec fn outgoing_of(target: Target, decoded: Decoded) -> Option<Outgoing> {
    match (target, decoded) {
        (Target::Orderbook { market_id, tick_size, include_amm }, Decoded::Orderbook(u)) => Some(
            Outgoing::Book(
                BookEvent {
                    market_id,
                    tick_size,
                    include_amm,
                    long: u.long,
                    short: u.short,
                    sync_status: u.sync_status,
                },
            ),
        ),
        (Target::MarketTrade { market_id }, Decoded::MarketTrade(t)) => Some(
            Outgoing::Trade(
                TradeEvent {
                    market_id,
                    rate: t.rate,
                    size: t.size,
                    block_timestamp: t.block_timestamp,
                    tx_hash: t.tx_hash,
                    side: None,
                },
            ),
        ),
        (Target::Statistics { market_id }, Decoded::Statistics(stats)) => Some(
            Outgoing::Statistics(MarketStatisticsEvent { market_id, stats }),
        ),
        (Target::MarketData, Decoded::MarketData(m)) => Some(
            Outgoing::MarkRate(
                MarkRateEvent {
                    market_id: m.market_id,
                    mark_apr: m.mk,
                    block_number: m.bn,
                    block_timestamp: m.bt,
                },
            ),
        ),
        (Target::Position, Decoded::Position(p)) => Some(
            Outgoing::Account(AccountUpdateEvent::Position(p)),
        ),
        (Target::Order, Decoded::Order(o)) => Some(Outgoing::Account(AccountUpdateEvent::Order(o))),
        (Target::Settlement, Decoded::Settlement(s)) => Some(
            Outgoing::Account(AccountUpdateEvent::Settlement(s)),
        ),
        _ => None,
    }
}

/// Turns a decoded payload into the event that its consumers are sent.
pub fn dispatch(target: Target, decoded: Decoded) -> (r: Option<Outgoing>)
    ensures
        r == outgoing_of(target, decoded),
{
    match (target, decoded) {
        (Target::Orderbook { market_id, tick_size, include_amm }, Decoded::Orderbook(u)) => Some(
            Outgoing::Book(
                BookEvent {
                    market_id,
                    tick_size,
                    include_amm,
                    long: u.long,
                    short: u.short,
                    sync_status: u.sync_status,
                },
            ),
        ),
        (Target::MarketTrade { market_id }, Decoded::MarketTrade(t)) => Some(
            Outgoing::Trade(
                TradeEvent {
                    market_id,
                    rate: t.rate,
                    size: t.size,
                    block_timestamp: t.block_timestamp,
                    tx_hash: t.tx_hash,
                    side: None,
                },
            ),
        ),
        (Target::Statistics { market_id }, Decoded::Statistics(stats)) => Some(
            Outgoing::Statistics(MarketStatisticsEvent { market_id, stats }),
        ),
        (Target::MarketData, Decoded::MarketData(m)) => Some(
            Outgoing::MarkRate(MarkRateEvent::from(&m)),
        ),
        (Target::Position, Decoded::Position(p)) => Some(
            Outgoing::Account(AccountUpdateEvent::Position(p)),
        ),
        (Target::Order, Decoded::Order(o)) => Some(Outgoing::Account(AccountUpdateEvent::Order(o))),
        (Target::Settlement, Decoded::Settlement(s)) => Some(
            Outgoing::Account(AccountUpdateEvent::Settlement(s)),
        ),
        _ => None,
    }
}

/// How the event names of planned routes begin.
proof fn lemma_name_beginnings(market_id: u32, tick_size: TickSize)
    ensures
        ({
            let book = update_event(orderbook_channel(market_id, tick_size));
            let trade = update_event(trade_channel(market_id));
            let stat = update_event(statistics_channel(market_id));
            let amm = "orderbook-include-amm-update"@;
            &&& book.len() > 10 && book[0] == 'o' && book[5] == 'b' && book[9] == ':'
            &&& trade.len() > 13 && trade[0] == 'm' && trade[7] == 't'
            &&& stat.len() > 11 && stat[0] == 's' && stat[1] == 't'
            &&& amm.len() == 28 && amm[0] == 'o' && amm[5] == 'b' && amm[9] == '-'
        }),
{
    reveal_strlit("orderbook:");
    reveal_strlit("market-trade:");
    reveal_strlit("statistics:");
    reveal_strlit("orderbook-include-amm-update");
    reveal_strlit(":update");
}

/// Names that frame a number alike are alike only for one number.
proof fn lemma_framed_number(prefix: Seq<char>, a: u32, b: u32, suffix: Seq<char>)
    requires
        prefix + text::decimal_text(a as nat) + suffix == prefix + text::decimal_text(b as nat) + suffix,
    ensures
        a == b,
{
    let x = text::decimal_text(a as nat);
    let y = text::decimal_text(b as nat);
    let left = prefix + x + suffix;
    let right = prefix + y + suffix;
    assert(left.len() == right.len());
    assert(x =~= left.subrange(prefix.len() as int, (prefix.len() + x.len()) as int));
    assert(y =~= right.subrange(prefix.len() as int, (prefix.len() + y.len()) as int));
    text::law_decimal_is_injective(a as nat, b as nat);
}

/// An order-book event name says which market and tick size it is for.
proof fn lemma_book_name(a: u32, t: TickSize, b: u32, u: TickSize)
    requires
        t.valid(),
        u.valid(),
        update_event(orderbook_channel(a, t)) == update_event(orderbook_channel(b, u)),
    ensures
        a == b,
        t == u,
{
    let left = update_event(orderbook_channel(a, t));
    let right = update_event(orderbook_channel(b, u));
    let x = text::decimal_text(a as nat);
    let y = text::decimal_text(b as nat);
    reveal_strlit("orderbook:");
    reveal_strlit(":");
    reveal_strlit(":update");
    text::lemma_decimal_digits(a as nat);
    text::lemma_decimal_digits(b as nat);
    assert(left[10 + x.len() as int] == ':');
    assert(right[10 + y.len() as int] == ':');
    if x.len() < y.len() {
        assert(right[10 + x.len() as int] == y[x.len() as int]);
        assert(text::is_digit(y[x.len() as int]));
    } else if y.len() < x.len() {
        assert(left[10 + y.len() as int] == x[y.len() as int]);
        assert(text::is_digit(x[y.len() as int]));
    }
    assert(x.len() == y.len());
    assert(x =~= left.subrange(10, 10 + x.len() as int));
    assert(y =~= right.subrange(10, 10 + y.len() as int));
    text::law_decimal_is_injective(a as nat, b as nat);
    assert(left.len() == 10 + x.len() + 1 + t.text().len() + 7);
    assert(right.len() == 10 + y.len() + 1 + u.text().len() + 7);
    let start = 11 + x.len() as int;
    assert(t.text() =~= left.subrange(start, start + t.text().len()));
    assert(u.text() =~= right.subrange(start, start + u.text().len()));
    event::law_tick_sizes_are_written_apart(t, u);
}

/// Whether a market is subscribed to its plain book.
pub open spec fn wants_book(m: MarketFeedConfig) -> bool {
    m.subscribe_orderbook && event::admitted(m.tick_size) is Some
}

/// Whether a market is subscribed to its pool-inclusive book.
pub open spec fn wants_amm(m: MarketFeedConfig) -> bool {
    m.subscribe_orderbook_amm && event::admitted(m.tick_size) is Some
}

/// Whether routes serve the subscriptions of one market, the pool-inclusive
/// book aside.
pub open spec fn serves(routes: Map<Seq<char>, Route>, m: MarketFeedConfig) -> bool {
    let tick = event::admitted(m.tick_size)->0;
    &&& wants_book(m) ==> target_of(routes, update_event(orderbook_channel(m.market_id, tick)))
        == (Target::Orderbook { market_id: m.market_id, tick_size: tick, include_amm: false })
    &&& m.subscribe_trades ==> target_of(routes, update_event(trade_channel(m.market_id)))
        == (Target::MarketTrade { market_id: m.market_id })
    &&& m.subscribe_statistics ==> target_of(routes, update_event(statistics_channel(m.market_id)))
        == (Target::Statistics { market_id: m.market_id })
}

/// Adding a market serves it and keeps serving the others.
proof fn lemma_market_routes_serve(routes: Map<Seq<char>, Route>, m: MarketFeedConfig, other: MarketFeedConfig)
    requires
        serves(routes, other) || m == other,
        routes_are_plain(routes),
    ensures
        serves(with_market_routes(routes, m), other),
{
    let tm = event::admitted(m.tick_size)->0;
    let to = event::admitted(other.tick_size)->0;
    lemma_name_beginnings(m.market_id, tm);
    lemma_name_beginnings(other.market_id, to);
    lemma_fixed_names();
    event::lemma_tick_size_is_its_value(tm, m.tick_size);
    event::lemma_tick_size_is_its_value(to, other.tick_size);
    if wants_book(m) && wants_book(other) && update_event(orderbook_channel(m.market_id, tm)) == update_event(
        orderbook_channel(other.market_id, to),
    ) {
        lemma_book_name(m.market_id, tm, other.market_id, to);
    }
    if update_event(trade_channel(m.market_id)) == update_event(trade_channel(other.market_id)) {
        lemma_framed_number("market-trade:"@, m.market_id, other.market_id, ":update"@);
    }
    if update_event(statistics_channel(m.market_id)) == update_event(
        statistics_channel(other.market_id),
    ) {
        lemma_framed_number("statistics:"@, m.market_id, other.market_id, ":update"@);
    }
}

/// No route stands under one of the fixed event names.
pub open spec fn routes_are_plain(routes: Map<Seq<char>, Route>) -> bool {
    &&& !routes.contains_key("market-data-update"@)
    &&& !routes.contains_key("position-update"@)
    &&& !routes.contains_key("order-update"@)
    &&& !routes.contains_key("settlement-update"@)
}

/// How the fixed event names differ from those of planned routes.
proof fn lemma_fixed_names()
    ensures
        "market-data-update"@.len() > 7 && "market-data-update"@[0] == 'm' && "market-data-update"@[7] == 'd',
        "position-update"@.len() > 7 && "position-update"@[0] == 'p',
        "order-update"@.len() > 7 && "order-update"@[0] == 'o' && "order-update"@[5] == '-',
        "settlement-update"@.len() > 7 && "settlement-update"@[0] == 's' && "settlement-update"@[1] == 'e',
{
    reveal_strlit("market-data-update");
    reveal_strlit("position-update");
    reveal_strlit("order-update");
    reveal_strlit("settlement-update");
}

/// The fixed event names always keep their meaning: no subscription takes one
/// over.
pub proof fn law_fixed_events_keep_their_target(markets: Seq<MarketFeedConfig>, n: nat)
    requires
        n <= markets.len(),
    ensures
        routes_are_plain(routes_of(markets, n)),
        target_of(routes_of(markets, n), "market-data-update"@) == Target::MarketData,
        target_of(routes_of(markets, n), "position-update"@) == Target::Position,
        target_of(routes_of(markets, n), "order-update"@) == Target::Order,
        target_of(routes_of(markets, n), "settlement-update"@) == Target::Settlement,
    decreases n,
{
    lemma_fixed_names();
    if n > 0 {
        law_fixed_events_keep_their_target(markets, (n - 1) as nat);
        let m = markets[n - 1];
        lemma_name_beginnings(m.market_id, event::admitted(m.tick_size)->0);
    }
}

/// Updates reach the market that was subscribed, however many markets there
/// are: each plain book, trade and statistics event resolves to its own market.
pub proof fn law_updates_reach_their_market(markets: Seq<MarketFeedConfig>, i: int, n: nat)
    requires
        0 <= i < n <= markets.len(),
    ensures
        serves(routes_of(markets, n), markets[i]),
    decreases n,
{
    law_fixed_events_keep_their_target(markets, (n - 1) as nat);
    if i < n - 1 {
        law_updates_reach_their_market(markets, i, (n - 1) as nat);
    }
    lemma_market_routes_serve(routes_of(markets, (n - 1) as nat), markets[n - 1], markets[i]);
}

/// The pool-inclusive book event, which has one fixed name, belongs to the last
/// market that subscribed to it.
pub proof fn law_amm_updates_reach_the_last_subscriber(markets: Seq<MarketFeedConfig>, i: int, n: nat)
    requires
        0 <= i < n <= markets.len(),
        wants_amm(markets[i]),
        forall|j: int| i < j < n ==> !wants_amm(#[trigger] markets[j]),
    ensures
        target_of(routes_of(markets, n), "orderbook-include-amm-update"@) == (Target::Orderbook {
            market_id: markets[i].market_id,
            tick_size: event::admitted(markets[i].tick_size)->0,
            include_amm: true,
        }),
    decreases n,
{
    let m = markets[n - 1];
    lemma_name_beginnings(m.market_id, event::admitted(m.tick_size)->0);
    if i < n - 1 {
        law_amm_updates_reach_the_last_subscriber(markets, i, (n - 1) as nat);
        assert(!wants_amm(markets[n - 1]));
    }
}

} // verus!
