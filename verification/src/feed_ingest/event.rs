use vstd::arithmetic::power2::{lemma_pow2_adds, lemma_pow2_pos, lemma_pow2_strictly_increases, pow2};
use vstd::prelude::*;

use crate::feed_ingest::error::{FeedError, ProtocolError};
use crate::float_bits;
use crate::float_bits::F64Bits;
use crate::float_math;
use crate::float_round;
use crate::float_text;
use crate::float_text::write_fraction;
use crate::text;
use crate::text::parse_i128;
use crate::tick_math::FixedX18;

verus! {

#[derive(Debug, Clone, Copy, PartialEq, Eq, Structural)]
pub enum Side {
    Long,
    Short,
}

impl TryFrom<u8> for Side {
    type Error = FeedError;

    fn try_from(v: u8) -> (r: Result<Self, FeedError>) {
        match v {
            0 => Ok(Side::Long),
            1 => Ok(Side::Short),
            other => Err(FeedError::Protocol(ProtocolError::UnknownSide(other))),
        }
    }
}

impl vstd::std_specs::convert::TryFromSpecImpl<u8> for Side {
    open spec fn obeys_try_from_spec() -> bool {
        true
    }

    open spec fn try_from_spec(v: u8) -> Result<Self, FeedError> {
        if v == 0 {
            Ok(Side::Long)
        } else if v == 1 {
            Ok(Side::Short)
        } else {
            Err(FeedError::Protocol(ProtocolError::UnknownSide(v)))
        }
    }
}

#[derive(Debug, Clone, Copy, PartialEq, Eq, Structural)]
pub enum OrderType {
    Limit,
    Market,
    TakeProfitMarket,
    StopLossMarket,
}

impl TryFrom<u8> for OrderType {
    type Error = FeedError;

    fn try_from(v: u8) -> (r: Result<Self, FeedError>) {
        match v {
            0 => Ok(OrderType::Limit),
            1 => Ok(OrderType::Market),
            2 => Ok(OrderType::TakeProfitMarket),
            3 => Ok(OrderType::StopLossMarket),
            other => Err(FeedError::Protocol(ProtocolError::UnknownOrderType(other))),
        }
    }
}

impl vstd::std_specs::convert::TryFromSpecImpl<u8> for OrderType {
    open spec fn obeys_try_from_spec() -> bool {
        true
    }

    open spec fn try_from_spec(v: u8) -> Result<Self, FeedError> {
        if v == 0 {
            Ok(OrderType::Limit)
        } else if v == 1 {
            Ok(OrderType::Market)
        } else if v == 2 {
            Ok(OrderType::TakeProfitMarket)
        } else if v == 3 {
            Ok(OrderType::StopLossMarket)
        } else {
            Err(FeedError::Protocol(ProtocolError::UnknownOrderType(v)))
        }
    }
}

#[derive(Debug, Clone, Copy, PartialEq, Eq, Structural)]
pub enum LimitOrderStatus {
    Filling,
    Cancelled,
    FullyFilled,
    Expired,
    Purged,
}

impl TryFrom<u8> for LimitOrderStatus {
    type Error = FeedError;

    fn try_from(v: u8) -> (r: Result<Self, FeedError>) {
        match v {
            0 => Ok(LimitOrderStatus::Filling),
            1 => Ok(LimitOrderStatus::Cancelled),
            2 => Ok(LimitOrderStatus::FullyFilled),
            3 => Ok(LimitOrderStatus::Expired),
            4 => Ok(LimitOrderStatus::Purged),
            other => Err(FeedError::Protocol(ProtocolError::UnknownLimitOrderStatus(other))),
        }
    }
}

impl vstd::std_specs::convert::TryFromSpecImpl<u8> for LimitOrderStatus {
    open spec fn obeys_try_from_spec() -> bool {
        true
    }

    open spec fn try_from_spec(v: u8) -> Result<Self, FeedError> {
        if v == 0 {
            Ok(LimitOrderStatus::Filling)
        } else if v == 1 {
            Ok(LimitOrderStatus::Cancelled)
        } else if v == 2 {
            Ok(LimitOrderStatus::FullyFilled)
        } else if v == 3 {
            Ok(LimitOrderStatus::Expired)
        } else if v == 4 {
            Ok(LimitOrderStatus::Purged)
        } else {
            Err(FeedError::Protocol(ProtocolError::UnknownLimitOrderStatus(v)))
        }
    }
}

/// What changed in an account, on the legacy account channel.
#[derive(Debug, Clone, Copy, PartialEq, Eq, Structural)]
pub enum AccountChangeType {
    Position,
    LimitOrder,
    Collateral,
}

/// Bucket width of an aggregated book: an accepted size, kept as it was given.
#[derive(Debug, Clone, Copy, PartialEq, Eq, Structural, Hash)]
pub struct TickSize(F64Bits);

/// `1e-12`, as the bits of a float.
pub const TICK_SIZE_TOLERANCE: u64 = 0x3d71_9799_812d_ea11;

/// `0.1`, as the bits of a float.
pub const TENTH: u64 = 0x3fb9_9999_9999_999a;

/// `0.01`, as the bits of a float.
pub const HUNDREDTH: u64 = 0x3f84_7ae1_47ae_147b;

/// `0.001`, as the bits of a float.
pub const THOUSANDTH: u64 = 0x3f50_624d_d2f1_a9fc;

/// `0.0001`, as the bits of a float.
pub const TEN_THOUSANDTH: u64 = 0x3f1a_36e2_eb1c_432d;

/// Whether a float lies less than `1e-12` away from an accepted value.
pub open spec fn close_to(value: F64Bits, f: F64Bits) -> bool {
    float_bits::less(
        float_bits::unsigned(float_math::difference(value, f)),
        F64Bits(TICK_SIZE_TOLERANCE),
    )
}

/// Whether a float is accepted as a tick size.
pub open spec fn accepted(f: F64Bits) -> bool {
    ||| close_to(F64Bits(TENTH), f)
    ||| close_to(F64Bits(HUNDREDTH), f)
    ||| close_to(F64Bits(THOUSANDTH), f)
    ||| close_to(F64Bits(TEN_THOUSANDTH), f)
}

/// The tick size of a float, where it is accepted.
pub open spec fn admitted(f: F64Bits) -> Option<TickSize> {
    if accepted(f) {
        Some(TickSize::of(f))
    } else {
        None
    }
}

impl TickSize {
    /// The value.
    pub closed spec fn bits(self) -> F64Bits {
        self.0
    }

    /// The tick size that holds a value.
    pub closed spec fn of(f: F64Bits) -> TickSize {
        TickSize(f)
    }

    /// Only accepted values are tick sizes.
    #[verifier::type_invariant]
    pub open spec fn valid(self) -> bool {
        accepted(self.bits())
    }

    /// The value as channel names write it.
    pub open spec fn text(self) -> Seq<char> {
        float_text::fraction_text(self.bits())
    }

    /// The four accepted values.
    pub fn allowed() -> (r: [F64Bits; 4])
        ensures
            r@ == seq![
                F64Bits(TENTH),
                F64Bits(HUNDREDTH),
                F64Bits(THOUSANDTH),
                F64Bits(TEN_THOUSANDTH),
            ],
    {
        [F64Bits(TENTH), F64Bits(HUNDREDTH), F64Bits(THOUSANDTH), F64Bits(TEN_THOUSANDTH)]
    }

    /// Admits a value within rounding noise of an accepted one, and keeps it as
    /// it is.
    pub fn new(v: F64Bits) -> (r: Result<Self, FeedError>)
        ensures
            r == (match admitted(v) {
                Some(t) => Ok::<TickSize, FeedError>(t),
                None => Err(FeedError::Protocol(ProtocolError::TickSize(v))),
            }),
    {
        if is_close_to(F64Bits(TENTH), v) || is_close_to(F64Bits(HUNDREDTH), v) || is_close_to(
            F64Bits(THOUSANDTH),
            v,
        ) || is_close_to(F64Bits(TEN_THOUSANDTH), v) {
            Ok(TickSize(v))
        } else {
            Err(FeedError::Protocol(ProtocolError::TickSize(v)))
        }
    }

    /// The value.
    pub fn value(self) -> (r: F64Bits)
        ensures
            r == self.bits(),
    {
        self.0
    }

    /// The value as channel names write it.
    pub fn label(self) -> (r: String)
        ensures
            r@ == self.text(),
    {
        proof {
            use_type_invariant(self);
            lemma_accepted_is_small(self.0);
        }
        write_fraction(self.0)
    }
}

fn is_close_to(value: F64Bits, v: F64Bits) -> (r: bool)
    ensures
        r == close_to(value, v),
{
    value.minus(v).abs().is_less(F64Bits(TICK_SIZE_TOLERANCE))
}

/// A tick size is its value.
pub proof fn lemma_tick_size_is_its_value(t: TickSize, f: F64Bits)
    ensures
        TickSize::of(f).bits() == f,
        TickSize::of(t.bits()) == t,
{
}

/// What is close to a value has nearly the same magnitude.
proof fn lemma_close_magnitude(value: F64Bits, f: F64Bits, t: nat, s: int)
    requires
        close_to(value, f),
        float_bits::mag(value) == t * 0x10_0000_0000_0000 + s,
        !float_bits::signed(value),
        1008 <= t <= 1018,
        0x10_0000_4000_0000 < s < 0x1f_ffff_c000_0000,
    ensures
        !float_bits::signed(f),
        t * 0x10_0000_0000_0000 + s - 0x4000_0000 < float_bits::mag(f) < t * 0x10_0000_0000_0000 + s
            + 0x4000_0000,
{
    reveal(float_math::sum);
    let m = float_bits::mag(value);
    let total = float_math::value(value) - float_math::value(f);
    let size = if total < 0 {
        -total
    } else {
        total
    };
    let most = float_round::multiple(TICK_SIZE_TOLERANCE as int);
    assert(float_bits::finite(f));
    assert(size < most) by {
        if size >= most {
            float_math::lemma_small_multiples();
            float_round::lemma_multiple_ascends(0, TICK_SIZE_TOLERANCE as int);
            float_math::lemma_rounded_exact(TICK_SIZE_TOLERANCE as int);
            float_round::law_rounding_keeps_order(most, 1, size, 1);
            float_round::law_nearest_exists(size, 1);
        }
    }
    let p = pow2(982) as int;
    let x = pow2(t) as int;
    float_round::lemma_multiple(982, 0x11_9799_812d_ea11);
    float_round::lemma_multiple(t, s);
    float_round::lemma_multiple(t, s + 0x4000_0000);
    float_round::lemma_multiple(t, s - 0x4000_0000);
    vstd::arithmetic::power2::lemma2_to64();
    lemma_pow2_adds(26, 982);
    lemma_pow2_pos(982);
    if t > 1008 {
        lemma_pow2_strictly_increases(1008, t);
    }
    assert(most == 0x11_9799_812d_ea11 * p);
    assert(x >= 0x400_0000 * p);
    let g = 0x4000_0000 * x;
    assert((s + 0x4000_0000) * x == s * x + g && (s - 0x4000_0000) * x == s * x - g && s * x >= g)
        by (nonlinear_arith)
        requires
            g == 0x4000_0000 * x,
            s >= 0x4000_0000,
            x >= 0,
    ;
    assert(g > most) by (nonlinear_arith)
        requires
            g == 0x4000_0000 * x,
            x >= 0x400_0000 * p,
            most == 0x11_9799_812d_ea11 * p,
            p > 0,
    ;
    float_math::lemma_small_multiples();
    let n = float_bits::mag(f);
    if n > 0 {
        float_round::lemma_multiple_ascends(0, n);
    }
    if !float_bits::signed(f) {
        if n > m + 0x4000_0000 {
            float_round::lemma_multiple_ascends(m + 0x4000_0000, n);
        }
        if n < m - 0x4000_0000 {
            float_round::lemma_multiple_ascends(n, m - 0x4000_0000);
        }
    }
}

/// Accepted values are small fractions.
pub proof fn lemma_accepted_is_small(f: F64Bits)
    requires
        accepted(f),
    ensures
        float_text::small_fraction(f),
{
    if close_to(F64Bits(TENTH), f) {
        lemma_close_magnitude(F64Bits(TENTH), f, 1018, 0x19_9999_9999_999a);
    } else if close_to(F64Bits(HUNDREDTH), f) {
        lemma_close_magnitude(F64Bits(HUNDREDTH), f, 1015, 0x14_7ae1_47ae_147b);
    } else if close_to(F64Bits(THOUSANDTH), f) {
        lemma_close_magnitude(F64Bits(THOUSANDTH), f, 1012, 0x10_624d_d2f1_a9fc);
    } else {
        lemma_close_magnitude(F64Bits(TEN_THOUSANDTH), f, 1008, 0x1a_36e2_eb1c_432d);
    }
}

/// Different tick sizes are written differently.
pub proof fn law_tick_sizes_are_written_apart(a: TickSize, b: TickSize)
    requires
        a.valid(),
        b.valid(),
        a.text() == b.text(),
    ensures
        a == b,
{
    lemma_accepted_is_small(a.bits());
    lemma_accepted_is_small(b.bits());
    float_text::law_fractions_are_written_apart(a.bits(), b.bits());
}

/// A float is close to itself.
proof fn lemma_close_to_itself(a: F64Bits)
    requires
        float_bits::finite(a),
    ensures
        close_to(a, a),
{
    reveal(float_math::sum);
}

/// The four accepted values are admitted, and are written as usual.
pub proof fn law_accepted_values_are_tick_sizes()
    ensures
        accepted(F64Bits(TENTH)),
        accepted(F64Bits(HUNDREDTH)),
        accepted(F64Bits(THOUSANDTH)),
        accepted(F64Bits(TEN_THOUSANDTH)),
        TickSize::of(F64Bits(TENTH)).text() == "0.1"@,
        TickSize::of(F64Bits(HUNDREDTH)).text() == "0.01"@,
        TickSize::of(F64Bits(THOUSANDTH)).text() == "0.001"@,
        TickSize::of(F64Bits(TEN_THOUSANDTH)).text() == "0.0001"@,
{
    lemma_close_to_itself(F64Bits(TENTH));
    lemma_close_to_itself(F64Bits(HUNDREDTH));
    lemma_close_to_itself(F64Bits(THOUSANDTH));
    lemma_close_to_itself(F64Bits(TEN_THOUSANDTH));
    vstd::arithmetic::power2::lemma2_to64();
    vstd::arithmetic::power2::lemma2_to64_rest();
    lemma_pow2_adds(64, 2);
    reveal_with_fuel(text::ten_to, 5);
    reveal_with_fuel(text::padded_text, 5);
    float_text::lemma_single_unit(F64Bits(TENTH), 1, 0x19_9999_9999_999a, 0x100_0000_0000_0000, 1);
    float_text::lemma_single_unit(F64Bits(HUNDREDTH), 2, 0x14_7ae1_47ae_147b, 0x800_0000_0000_0000, 10);
    float_text::lemma_single_unit(
        F64Bits(THOUSANDTH),
        3,
        0x10_624d_d2f1_a9fc,
        0x4000_0000_0000_0000,
        100,
    );
    float_text::lemma_single_unit(
        F64Bits(TEN_THOUSANDTH),
        4,
        0x1a_36e2_eb1c_432d,
        0x4_0000_0000_0000_0000int,
        1000,
    );
    reveal_strlit("0.");
    reveal_strlit("0.1");
    reveal_strlit("0.01");
    reveal_strlit("0.001");
    reveal_strlit("0.0001");
    assert("0."@ + text::padded_text(1, 1) =~= "0.1"@);
    assert("0."@ + text::padded_text(1, 2) =~= "0.01"@);
    assert("0."@ + text::padded_text(1, 3) =~= "0.001"@);
    assert("0."@ + text::padded_text(1, 4) =~= "0.0001"@);
}

/// One side of an aggregated snapshot. The two lists pair up by index.
#[derive(Debug, Clone)]
pub struct OrderbookSide {
    /// Bucket indices: the rate of a bucket is its index times the tick size.
    pub ia: Vec<F64Bits>,
    /// Raw fixed-point sizes as they came over the wire.
    pub sz: Vec<String>,
}

#[derive(Debug, Clone, Copy, PartialEq, Eq, Structural)]
pub struct SyncStatus {
    pub block_number: u64,
    pub timestamp: u64,
}

/// Payload of the order-book channels: always a full snapshot.
#[derive(Debug, Clone)]
pub struct OrderbookUpdate {
    pub long: OrderbookSide,
    pub short: OrderbookSide,
    pub sync_status: SyncStatus,
}

/// One aggregated price level.
#[derive(Debug, Clone, Copy, PartialEq, Eq, Structural)]
pub struct BookLevel {
    pub apr: F64Bits,
    pub size: FixedX18,
}

/// A snapshot together with the channel that it came on.
#[derive(Debug, Clone)]
pub struct BookEvent {
    pub market_id: u32,
    pub tick_size: TickSize,
    pub include_amm: bool,
    pub long: OrderbookSide,
    pub short: OrderbookSide,
    pub sync_status: SyncStatus,
}

/// Payload of the market-trade channel, numbers as decimal text.
#[derive(Debug, Clone)]
pub struct MarketTradeUpdate {
    pub rate: String,
    pub size: String,
    pub block_timestamp: u64,
    pub tx_hash: String,
}

#[derive(Debug, Clone, Copy, PartialEq, Eq, Structural)]
pub enum TradeSide {
    Long,
    Short,
}

#[derive(Debug, Clone)]
pub struct TradeEvent {
    pub market_id: u32,
    pub rate: String,
    pub size: String,
    pub block_timestamp: u64,
    pub tx_hash: String,
    /// The channel does not say which side took.
    pub side: Option<TradeSide>,
}

/// Payload of the statistics channel.
#[derive(Debug, Clone, Copy, PartialEq, Eq, Structural)]
pub struct StatisticsUpdate {
    pub mark_apr: F64Bits,
    pub mid_apr: F64Bits,
    pub last_traded_apr: F64Bits,
    pub floating_apr: F64Bits,
    pub volume_24h: F64Bits,
    pub notional_oi: F64Bits,
    pub next_settlement_time: u64,
    pub long_yield_apr: F64Bits,
}

/// Payload of the market-data channel.
#[derive(Debug, Clone, Copy, PartialEq, Eq, Structural)]
pub struct MarketDataUpdate {
    pub market_id: u32,
    pub bn: u64,
    pub bt: u64,
    pub oi: F64Bits,
    pub mid: F64Bits,
    pub mk: F64Bits,
    pub lt: F64Bits,
    pub nst: u64,
    pub bb: Option<F64Bits>,
    pub ba: Option<F64Bits>,
    pub ai: Option<F64Bits>,
}

/// The mark rate of a market, taken from its market data.
#[derive(Debug, Clone, Copy, PartialEq, Eq, Structural)]
pub struct MarkRateEvent {
    pub market_id: u32,
    pub mark_apr: F64Bits,
    pub block_number: u64,
    pub block_timestamp: u64,
}

impl From<&MarketDataUpdate> for MarkRateEvent {
    fn from(m: &MarketDataUpdate) -> (r: Self) {
        MarkRateEvent {
            market_id: m.market_id,
            mark_apr: m.mk,
            block_number: m.bn,
            block_timestamp: m.bt,
        }
    }
}

impl vstd::std_specs::convert::FromSpecImpl<&MarketDataUpdate> for MarkRateEvent {
    open spec fn obeys_from_spec() -> bool {
        true
    }

    open spec fn from_spec(m: &MarketDataUpdate) -> Self {
        MarkRateEvent {
            market_id: m.market_id,
            mark_apr: m.mk,
            block_number: m.bn,
            block_timestamp: m.bt,
        }
    }
}

/// A packed account, as hex text.
pub type MarketAccRaw = String;

#[derive(Debug, Clone)]
pub struct PositionUpdate {
    pub ei: u64,
    pub bn: u64,
    pub bt: u64,
    pub tx: String,
    pub market_id: u32,
    pub ma: MarketAccRaw,
    pub prf: String,
    pub prs: String,
    pub ptf: String,
    pub pts: String,
}

#[derive(Debug, Clone)]
pub struct OrderUpdate {
    pub ei: u64,
    pub bn: u64,
    pub bt: u64,
    pub tx: String,
    pub market_id: u32,
    pub order_id: String,
    pub sd: Side,
    pub ps: String,
    pub us: String,
    pub tk: i16,
    pub ot: OrderType,
    pub os: LimitOrderStatus,
    pub efs: Option<String>,
}

#[derive(Debug, Clone)]
pub struct SettlementUpdate {
    pub ei: u64,
    pub bn: u64,
    pub bt: u64,
    pub tx: String,
    pub ma: MarketAccRaw,
    pub market_id: u32,
    pub ps: String,
    pub yp: String,
    pub yr: String,
    pub pa: F64Bits,
    pub ra: F64Bits,
    pub fee: String,
}

/// Statistics together with the market of their channel.
#[derive(Debug, Clone, Copy, PartialEq, Eq, Structural)]
pub struct MarketStatisticsEvent {
    pub market_id: u32,
    pub stats: StatisticsUpdate,
}

/// The three account events on one channel, in arrival order.
#[derive(Debug, Clone)]
pub enum AccountUpdateEvent {
    Position(PositionUpdate),
    Order(OrderUpdate),
    Settlement(SettlementUpdate),
}

#[derive(Debug, Clone, Copy, PartialEq, Eq, Structural, Hash)]
pub enum Venue {
    Binance,
    Bybit,
    Hyperliquid,
    Okx,
}

/// A funding rate of another venue.
#[derive(Debug, Clone)]
pub struct FundingRateEvent {
    pub venue: Venue,
    pub symbol: String,
    pub rate: F64Bits,
    pub interval_secs: u64,
    pub next_funding_ts: u64,
    pub fetched_at_ms: u64,
}

/// Reads a raw fixed-point value: decimal text of a signed 128-bit number.
pub fn parse_fixed_x18_raw(s: &str) -> (r: Result<FixedX18, FeedError>)
    ensures
        match text::signed_value(s@) {
            Some(v) => r == Ok::<FixedX18, FeedError>(FixedX18(v)),
            None => r matches Err(FeedError::FixedX18(shown)) && shown@ == s@,
        },
{
    match parse_i128(s) {
        Some(v) => Ok(FixedX18(v)),
        None => Err(FeedError::FixedX18(s.to_owned())),
    }
}

} // verus!
