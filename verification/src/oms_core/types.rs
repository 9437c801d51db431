use vstd::prelude::*;

use crate::oms_core::error::OmsError;
use crate::oms_core::order_id::{OrderId, Side};
use crate::tick_math::fixed;
use crate::tick_math::math;
use crate::tick_math::FixedX18;

verus! {

/// How long an order stays and how it may match.
#[derive(Debug, Clone, Copy, PartialEq, Eq, Structural)]
pub enum TimeInForce {
    Gtc,
    Ioc,
    Fok,
    Alo,
    SoftAlo,
}

impl TimeInForce {
    /// Whether the order only ever adds liquidity.
    pub fn is_alo(self) -> (r: bool)
        ensures
            r == (self == TimeInForce::Alo || self == TimeInForce::SoftAlo),
    {
        match self {
            TimeInForce::Alo => true,
            TimeInForce::SoftAlo => true,
            _ => false,
        }
    }

    /// Whether an order that would cross the book is dropped instead of
    /// matched.
    pub fn should_skip_matchable_orders(self) -> (r: bool)
        ensures
            r == (self == TimeInForce::SoftAlo),
    {
        match self {
            TimeInForce::SoftAlo => true,
            _ => false,
        }
    }
}

/// Order status as the market itself reports it. A cancelled order is simply
/// gone; only a purge is remembered.
#[derive(Debug, Clone, Copy, PartialEq, Eq, Structural)]
pub enum OrderStatus {
    NotExist,
    Open,
    PendingSettle,
    Purged,
}

/// Order status as reconstructed from lifecycle events.
#[derive(Debug, Clone, Copy, PartialEq, Eq, Structural)]
pub enum LocalOrderStatus {
    /// Resting without fills.
    Open,
    /// Resting with part of it filled.
    PartiallyFilled,
    /// Fully filled; terminal.
    Filled,
    /// Cancelled by the user; terminal.
    Cancelled,
    /// Purged by the protocol; terminal.
    ForcedCancelled,
}

/// A size and its cost, both signed.
#[derive(Debug, Clone, Copy, PartialEq, Eq, Structural)]
pub struct Trade {
    pub signed_size: FixedX18,
    pub signed_cost: FixedX18,
}

/// The trade of a signed size at a rate: the cost rounds toward zero.
pub open spec fn trade_at(signed_size: FixedX18, rate: FixedX18) -> Result<Trade, OmsError> {
    match math::trunc_outcome(signed_size.0 * rate.0, FixedX18::SCALE as int) {
        Err(e) => Err(OmsError::Math(e)),
        Ok(cost) => Ok(Trade { signed_size, signed_cost: FixedX18(cost) }),
    }
}

/// A magnitude with the sign of a side.
pub open spec fn signed_for(side: Side, size: FixedX18) -> FixedX18 {
    match side {
        Side::Long => size,
        Side::Short => FixedX18((-size.0) as i128),
    }
}

impl Trade {
    /// The empty trade.
    pub fn zero() -> (r: Self)
        ensures
            r == (Trade { signed_size: FixedX18(0), signed_cost: FixedX18(0) }),
    {
        Trade { signed_size: FixedX18::zero(), signed_cost: FixedX18::zero() }
    }

    /// The side of the size; an empty trade counts as short.
    pub fn side(&self) -> (r: Side)
        ensures
            r == (if self.signed_size.0 > 0 {
                Side::Long
            } else {
                Side::Short
            }),
    {
        if self.signed_size.is_positive() {
            Side::Long
        } else {
            Side::Short
        }
    }

    pub fn abs_size(&self) -> (r: FixedX18)
        requires
            self.signed_size.0 != i128::MIN,
        ensures
            r == fixed::abs_of(self.signed_size),
    {
        self.signed_size.abs()
    }

    pub fn abs_cost(&self) -> (r: FixedX18)
        requires
            self.signed_cost.0 != i128::MIN,
        ensures
            r == fixed::abs_of(self.signed_cost),
    {
        self.signed_cost.abs()
    }

    /// Adds size to size and cost to cost.
    pub fn add(self, other: Self) -> (r: Self)
        ensures
            r == (Trade {
                signed_size: FixedX18(
                    fixed::wrapped_add(self.signed_size.0, other.signed_size.0),
                ),
                signed_cost: FixedX18(
                    fixed::wrapped_add(self.signed_cost.0, other.signed_cost.0),
                ),
            }),
    {
        Trade {
            signed_size: self.signed_size + other.signed_size,
            signed_cost: self.signed_cost + other.signed_cost,
        }
    }

    /// The same trade seen by the counterparty.
    pub fn opposite(self) -> (r: Self)
        requires
            self.signed_size.0 != i128::MIN,
            self.signed_cost.0 != i128::MIN,
        ensures
            r.signed_size.0 == -self.signed_size.0,
            r.signed_cost.0 == -self.signed_cost.0,
    {
        Trade {
            signed_size: FixedX18(-self.signed_size.0),
            signed_cost: FixedX18(-self.signed_cost.0),
        }
    }

    pub fn is_zero(&self) -> (r: bool)
        ensures
            r == (self.signed_size.0 == 0 && self.signed_cost.0 == 0),
    {
        self.signed_size.is_zero() && self.signed_cost.is_zero()
    }

    /// The trade of a signed size at a rate.
    pub fn from_size_and_rate(signed_size: FixedX18, rate: FixedX18) -> (r: Result<Self, OmsError>)
        ensures
            r == trade_at(signed_size, rate),
    {
        match signed_size.mul_down(rate) {
            Err(e) => Err(OmsError::Math(e)),
            Ok(signed_cost) => Ok(Trade { signed_size, signed_cost }),
        }
    }

    /// The trade of a magnitude on a side at a rate.
    pub fn from3(side: Side, size: FixedX18, rate: FixedX18) -> (r: Result<Self, OmsError>)
        requires
            side == Side::Short ==> size.0 != i128::MIN,
        ensures
            r == trade_at(signed_for(side, size), rate),
    {
        let signed_size: FixedX18 = match side {
            Side::Long => size,
            Side::Short => FixedX18(-size.0),
        };
        Trade::from_size_and_rate(signed_size, rate)
    }
}

/// An account of one user in one market.
#[derive(Debug, Clone, Copy, PartialEq, Eq, Hash)]
pub struct MarketAcc {
    pub root: [u8; 20],
    pub account_id: u8,
    pub token_id: u16,
    /// Only the low 24 bits are meaningful.
    pub market_id: u32,
}

/// A batch of orders on one side, submitted together.
#[derive(Debug, Clone)]
pub struct LongShort {
    pub tif: TimeInForce,
    pub side: Side,
    pub sizes: Vec<FixedX18>,
    pub limit_ticks: Vec<i16>,
}

/// A batch of cancellations.
#[derive(Debug, Clone)]
pub struct CancelData {
    pub ids: Vec<OrderId>,
    pub is_all: bool,
    pub is_strict: bool,
}

impl Default for CancelData {
    fn default() -> (r: Self)
        ensures
            r.ids@ == Seq::<OrderId>::empty(),
            !r.is_all,
            !r.is_strict,
    {
        CancelData { ids: Vec::new(), is_all: false, is_strict: false }
    }
}

/// A bilateral trade against a named counterparty at an agreed cash amount.
#[derive(Debug, Clone, Copy)]
pub struct OtcTrade {
    pub counter: MarketAcc,
    pub trade: Trade,
    pub cash_to_counter: FixedX18,
}

/// The cost of a trade is its size times the rate, rounded toward zero: no farther
/// from zero than the exact product, and less than one raw unit nearer. The size
/// is kept as it is.
pub proof fn law_cost_rounds_toward_zero(signed_size: FixedX18, rate: FixedX18)
    requires
        trade_at(signed_size, rate) is Ok,
    ensures
        ({
            let trade = trade_at(signed_size, rate)->Ok_0;
            let exact = signed_size.0 * rate.0;
            let cost = trade.signed_cost.0 as int;
            let scale: int = 1_000_000_000_000_000_000;
            &&& trade.signed_size == signed_size
            &&& exact >= 0 ==> 0 <= cost && cost * scale <= exact < (cost + 1) * scale
            &&& exact <= 0 ==> cost <= 0 && (cost - 1) * scale < exact <= cost * scale
        }),
{
    let n = signed_size.0 * rate.0;
    math::law_rounding_directions(n, 1_000_000_000_000_000_000);
    math::law_rounding_directions(-n, 1_000_000_000_000_000_000);
}

/// Every cost that fits is found: a trade is refused only where the cost is out of
/// range.
pub proof fn law_costs_that_fit_are_found(signed_size: FixedX18, rate: FixedX18)
    ensures
        trade_at(signed_size, rate) is Ok <==> -(i128::MAX + 1) * 1_000_000_000_000_000_000 < signed_size.0
            * rate.0 < (i128::MAX + 1) * 1_000_000_000_000_000_000,
        trade_at(signed_size, rate) matches Err(e) ==> e == OmsError::Math(
            crate::tick_math::MathError::Overflow,
        ),
{
    let n = signed_size.0 * rate.0;
    math::law_rounding_directions(n, 1_000_000_000_000_000_000);
    math::law_rounding_directions(-n, 1_000_000_000_000_000_000);
}

proof fn lemma_trunc_is_odd(n: int, d: int)
    requires
        d > 0,
    ensures
        math::trunc_outcome(n, d) matches Ok(v) ==> math::trunc_outcome(-n, d) == Ok::<
            i128,
            crate::tick_math::MathError,
        >((-v) as i128),
        math::trunc_outcome(n, d) is Err ==> math::trunc_outcome(-n, d) == math::trunc_outcome(n, d),
{
    math::law_rounding_directions(n, d);
    math::law_rounding_directions(-n, d);
    if n == 0 {
        assert(0int / d == 0) by (nonlinear_arith)
            requires
                d > 0,
        ;
    }
}

/// Long and short trades of one size at one rate mirror each other, cost
/// included: truncation has no preferred side.
pub proof fn law_sides_mirror(size: FixedX18, rate: FixedX18)
    requires
        size.0 != i128::MIN,
    ensures
        trade_at(signed_for(Side::Long, size), rate) matches Ok(long) ==> trade_at(
            signed_for(Side::Short, size),
            rate,
        ) == Ok::<Trade, OmsError>(
            Trade {
                signed_size: FixedX18((-long.signed_size.0) as i128),
                signed_cost: FixedX18((-long.signed_cost.0) as i128),
            },
        ),
{
    lemma_trunc_is_odd(size.0 * rate.0, FixedX18::SCALE as int);
    assert((-size.0) * rate.0 == -(size.0 * rate.0)) by (nonlinear_arith);
}

} // verus!
