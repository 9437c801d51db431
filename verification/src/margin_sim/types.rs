use vstd::prelude::*;

use crate::float_bits::F64Bits;
use crate::tick_math::fixed;
use crate::tick_math::math;
use crate::tick_math::{mul3_div_floor_u32, FixedX18, MathError, ONE_MUL_YEAR};

verus! {

/// Subaccount index of a user address.
#[derive(Debug, Clone, Copy, PartialEq, Eq, Structural, Hash)]
pub struct SubaccountId(pub u8);

impl SubaccountId {
    /// The subaccount of a user that never chose one.
    pub fn default_id() -> (r: Self)
        ensures
            r == SubaccountId(0),
    {
        SubaccountId(0)
    }
}

/// Market identifier.
#[derive(Debug, Clone, Copy, PartialEq, Eq, Structural, Hash)]
pub struct MarketId(pub u32);

/// Collateral token identifier.
#[derive(Debug, Clone, Copy, PartialEq, Eq, Structural, Hash)]
pub struct TokenId(pub u32);

/// Cross margin shares collateral across markets, isolated margin confines it.
#[derive(Debug, Clone, Copy, PartialEq, Eq, Structural)]
pub enum MarginMode {
    Cross,
    Isolated { market_id: MarketId },
}

/// Fast-changing market data shared by every position and order of a market.
#[derive(Debug, Clone, Copy, PartialEq, Eq, Structural)]
pub struct MarketState {
    pub mark_rate: FixedX18,
    /// Raw seconds, never a year fraction.
    pub time_to_maturity_secs: u32,
}

/// A swap position in one market: positive pays fixed, negative receives it.
#[derive(Debug, Clone, Copy, PartialEq, Eq, Structural)]
pub struct Position {
    pub market_id: MarketId,
    pub size: FixedX18,
}

/// Present value of a size at a market's mark rate and time to maturity.
pub open spec fn value_of(size: FixedX18, market: MarketState) -> Result<FixedX18, MathError> {
    fixed::as_fixed(
        math::floor_outcome(
            size.0 * market.mark_rate.0 * market.time_to_maturity_secs,
            ONE_MUL_YEAR as int,
        ),
    )
}

impl Position {
    /// Size times mark rate times time to maturity in years, as one triple
    /// product and one division, rounded toward minus infinity.
    pub fn value(&self, market: &MarketState) -> (r: Result<FixedX18, MathError>)
        ensures
            r == value_of(self.size, *market),
    {
        match mul3_div_floor_u32(
            self.size.0,
            market.mark_rate.0,
            market.time_to_maturity_secs,
            ONE_MUL_YEAR,
        ) {
            Ok(v) => Ok(FixedX18(v)),
            Err(e) => Err(e),
        }
    }
}

/// Margin ratios of one account in one market.
#[derive(Debug, Clone, Copy, PartialEq, Eq, Structural)]
pub struct MarginConfig {
    /// Initial-margin ratio.
    pub k_im: FixedX18,
    /// Maintenance-margin ratio.
    pub k_mm: FixedX18,
    /// Least rate magnitude that margin is computed with.
    pub k_i_thresh: FixedX18,
    /// Least time to maturity that margin is computed with, in raw seconds.
    pub t_thresh: u32,
    /// Token that the market settles in.
    pub token_id: TokenId,
}

#[derive(Debug, Clone, Copy, PartialEq, Eq, Structural)]
pub enum OrderSide {
    Long,
    Short,
}

/// A resting limit order. It has no maturity of its own: that belongs to the
/// market.
#[derive(Debug, Clone, Copy, PartialEq, Eq, Structural)]
pub struct OpenOrder {
    pub market_id: MarketId,
    pub side: OrderSide,
    /// Always positive.
    pub size: FixedX18,
    /// Rate at the order's own tick.
    pub rate: FixedX18,
}

/// An account as margin sees it.
#[derive(Debug, Clone)]
pub struct MarginAccount {
    pub subaccount_id: SubaccountId,
    pub token_id: TokenId,
    pub margin_mode: MarginMode,
    /// Collateral deposited minus upfront costs paid.
    pub cash: FixedX18,
    pub positions: Vec<Position>,
    pub open_orders: Vec<OpenOrder>,
    /// Unix seconds of the last settlement.
    pub last_settled_at: u64,
}

/// What margin reads of an account.
#[verifier::ext_equal]
pub struct AccountModel {
    pub token_id: TokenId,
    pub margin_mode: MarginMode,
    pub cash: FixedX18,
    pub positions: Seq<Position>,
    pub open_orders: Seq<OpenOrder>,
}

impl AccountModel {
    /// The same account with one more resting order.
    pub open spec fn with_order(self, order: OpenOrder) -> AccountModel {
        AccountModel { open_orders: self.open_orders.push(order), ..self }
    }
}

impl View for MarginAccount {
    type V = AccountModel;

    open spec fn view(&self) -> AccountModel {
        AccountModel {
            token_id: self.token_id,
            margin_mode: self.margin_mode,
            cash: self.cash,
            positions: self.positions@,
            open_orders: self.open_orders@,
        }
    }
}

impl MarginAccount {
    pub fn is_cross(&self) -> (r: bool)
        ensures
            r == (self.margin_mode is Cross),
    {
        match self.margin_mode {
            MarginMode::Cross => true,
            MarginMode::Isolated { .. } => false,
        }
    }

    /// The same account with one more resting order.
    pub fn with_order(&self, order: OpenOrder) -> (r: Self)
        ensures
            r@ == self@.with_order(order),
            r.subaccount_id == self.subaccount_id,
            r.last_settled_at == self.last_settled_at,
    {
        let mut open_orders: Vec<OpenOrder> = self.open_orders.clone();
        assert(open_orders@ =~= self.open_orders@);
        open_orders.push(order);
        let positions: Vec<Position> = self.positions.clone();
        assert(positions@ =~= self.positions@);
        MarginAccount {
            subaccount_id: self.subaccount_id,
            token_id: self.token_id,
            margin_mode: self.margin_mode,
            cash: self.cash,
            positions,
            open_orders,
            last_settled_at: self.last_settled_at,
        }
    }
}

/// The health ratio below which an account is liquidatable, as the bits of a
/// float: exactly `1.0`.
pub const LIQUIDATION_HEALTH_RATIO: u64 = 0x3ff0_0000_0000_0000;

/// Governance settings of the liquidation incentive.
#[derive(Debug, Clone, Copy, PartialEq, Eq, Structural)]
pub struct LiqSettings {
    pub base: FixedX18,
    pub slope: FixedX18,
    pub fee_rate: FixedX18,
}

/// The computed margin state of an account.
#[derive(Debug, Clone, Copy, PartialEq, Eq, Structural)]
pub struct AccountMarginState {
    pub total_value: FixedX18,
    pub total_im: FixedX18,
    pub total_mm: FixedX18,
    /// Total value over total maintenance margin; infinite where nothing is
    /// required.
    pub health_ratio: F64Bits,
    /// Whether the health ratio lies below [`LIQUIDATION_HEALTH_RATIO`].
    pub is_liquidatable: bool,
}

} // verus!
