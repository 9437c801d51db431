use vstd::prelude::*;

use crate::tick_math::fixed;
use crate::tick_math::FixedX18;

verus! {

/// A fill, tagged with the market's event tag at the moment it was processed.
/// The tag is a sequence counter over market events, not a timestamp.
#[derive(Debug, Clone, Copy, PartialEq, Eq, Structural)]
pub struct Fill {
    pub f_tag: u32,
    /// Signed: a long fill is positive, a short fill negative.
    pub size_delta: FixedX18,
}

/// One published index record.
#[derive(Debug, Clone, Copy, PartialEq, Eq, Structural)]
pub struct FIndexRecord {
    pub f_tag: u32,
    /// Unix seconds, informational: no settlement rule reads it.
    pub f_time: u64,
    /// Cumulative floating leg, signed.
    pub floating_index: FixedX18,
    /// Cumulative protocol fee, never decreasing.
    pub fee_index: FixedX18,
}

/// The two legs of one settlement.
#[derive(Debug, Clone, Copy, PartialEq, Eq, Structural)]
pub struct PayFee {
    /// Positive when the account receives cash, negative when it owes.
    pub payment: FixedX18,
    /// Protocol fee owed, never negative for a single sub-period.
    pub fee: FixedX18,
}

/// Leg-wise sum of two settlements.
pub open spec fn sum_of(a: PayFee, b: PayFee) -> PayFee {
    PayFee {
        payment: FixedX18(fixed::wrapped_add(a.payment.0, b.payment.0)),
        fee: FixedX18(fixed::wrapped_add(a.fee.0, b.fee.0)),
    }
}

/// The settlement that moves nothing.
pub open spec fn nothing() -> PayFee {
    PayFee { payment: FixedX18(0), fee: FixedX18(0) }
}

impl PayFee {
    /// No payment and no fee.
    pub fn zero() -> (r: Self)
        ensures
            r == nothing(),
    {
        PayFee { payment: FixedX18::zero(), fee: FixedX18::zero() }
    }

    /// Adds leg by leg.
    pub fn add(self, other: Self) -> (r: Self)
        ensures
            r == sum_of(self, other),
    {
        PayFee { payment: self.payment + other.payment, fee: self.fee + other.fee }
    }
}

impl Default for PayFee {
    fn default() -> (r: Self)
        ensures
            r == nothing(),
    {
        PayFee::zero()
    }
}

/// One sub-period of a settlement: constant size between consecutive tags.
#[derive(Debug, Clone, Copy, PartialEq, Eq, Structural)]
pub struct SubPeriod {
    pub start_f_tag: u32,
    pub end_f_tag: u32,
    pub size_held: FixedX18,
    pub result: PayFee,
}

/// What one settlement of a market paid, with its sub-periods for audit.
#[derive(Debug, Clone, PartialEq)]
pub struct SettlementResult {
    pub market_id: u32,
    pub start_f_tag: u32,
    pub end_f_tag: u32,
    pub total: PayFee,
    pub sub_periods: Vec<SubPeriod>,
}

} // verus!
