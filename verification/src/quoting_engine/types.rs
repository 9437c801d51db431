use vstd::prelude::*;

use crate::float_bits;
use crate::float_bits::F64Bits;
use crate::float_math;
use crate::oms_core::Side;
use crate::quoting_engine::error::QuoteError;
use crate::tick_math::FixedX18;

verus! {

/// Calibration of the reservation-rate model.
#[derive(Debug, Clone, Copy, PartialEq, Eq, Structural)]
pub struct AvellanedaStoikovParams {
    /// Risk aversion.
    pub gamma: F64Bits,
    /// Rate volatility over the horizon.
    pub sigma: F64Bits,
    /// Decay of the order arrival intensity.
    pub kappa: F64Bits,
    /// Requoting horizon in seconds, not the time to maturity.
    pub horizon_secs: u32,
    /// Weight of the carry adjustment; zero disables it.
    pub carry_weight: F64Bits,
}

/// Whether a float is a number above zero.
pub open spec fn above_zero(f: F64Bits) -> bool {
    float_bits::less(F64Bits(0), f)
}

/// Whether a float is a number of at least zero.
pub open spec fn at_least_zero(f: F64Bits) -> bool {
    float_bits::less(F64Bits(0), f) || float_bits::equal(F64Bits(0), f)
}

/// The rule of the first parameter that is out of range.
pub open spec fn param_fault(p: AvellanedaStoikovParams) -> Option<Seq<char>> {
    if !above_zero(p.gamma) {
        Some("gamma must be > 0"@)
    } else if !at_least_zero(p.sigma) {
        Some("sigma must be >= 0"@)
    } else if !above_zero(p.kappa) {
        Some("kappa must be > 0"@)
    } else if p.horizon_secs == 0 {
        Some("horizon_secs must be > 0"@)
    } else if !at_least_zero(p.carry_weight) {
        Some("carry_weight must be >= 0"@)
    } else {
        None
    }
}

impl AvellanedaStoikovParams {
    /// Checks every parameter; one that is not a number is out of range.
    pub fn validate(&self) -> (r: Result<(), QuoteError>)
        ensures
            match param_fault(*self) {
                Some(rule) => r matches Err(QuoteError::InvalidParams(m)) && m@ == rule,
                None => r == Ok::<(), QuoteError>(()),
            },
    {
        if !F64Bits(0).is_less(self.gamma) {
            return Err(QuoteError::InvalidParams("gamma must be > 0".to_owned()));
        }
        if !F64Bits(0).is_at_most(self.sigma) {
            return Err(QuoteError::InvalidParams("sigma must be >= 0".to_owned()));
        }
        if !F64Bits(0).is_less(self.kappa) {
            return Err(QuoteError::InvalidParams("kappa must be > 0".to_owned()));
        }
        if self.horizon_secs == 0 {
            return Err(QuoteError::InvalidParams("horizon_secs must be > 0".to_owned()));
        }
        if !F64Bits(0).is_at_most(self.carry_weight) {
            return Err(QuoteError::InvalidParams("carry_weight must be >= 0".to_owned()));
        }
        Ok(())
    }
}

/// Parameters are valid exactly when none is not a number, risk aversion and arrival
/// decay are above zero, volatility and carry weight are not below it, and there is a
/// horizon.
pub proof fn law_parameters_are_valid_in_their_ranges(p: AvellanedaStoikovParams)
    ensures
        param_fault(p) is None <==> {
            &&& !float_bits::nan(p.gamma) && !float_bits::signed(p.gamma) && float_bits::mag(p.gamma) > 0
            &&& !float_bits::nan(p.kappa) && !float_bits::signed(p.kappa) && float_bits::mag(p.kappa) > 0
            &&& !float_bits::nan(p.sigma) && (!float_bits::signed(p.sigma) || float_bits::mag(p.sigma) == 0)
            &&& !float_bits::nan(p.carry_weight) && (!float_bits::signed(p.carry_weight) || float_bits::mag(
                p.carry_weight,
            ) == 0)
            &&& p.horizon_secs > 0
        },
{
}

/// Exposure in one market, in rate sensitivity rather than notional.
#[derive(Debug, Clone, Copy, PartialEq, Eq, Structural)]
pub struct InventoryState {
    /// Positive benefits from rising rates.
    pub net_dv01: F64Bits,
    /// Average fixed rate locked in; `None` when flat.
    pub avg_locked_fixed_rate: Option<F64Bits>,
}

impl Default for InventoryState {
    /// No exposure.
    fn default() -> (r: Self)
        ensures
            r == (InventoryState { net_dv01: F64Bits(0), avg_locked_fixed_rate: None }),
    {
        InventoryState { net_dv01: F64Bits(0), avg_locked_fixed_rate: None }
    }
}

/// Maker rate bounds, in hundredths of a percent.
#[derive(Debug, Clone, Copy, PartialEq, Eq, Structural)]
pub struct MakerRateBounds {
    pub lo_upper_slope_base1e4: i16,
    pub lo_upper_const_base1e4: i16,
    pub lo_lower_slope_base1e4: i16,
    pub lo_lower_const_base1e4: i16,
}

/// The bound for a positive mark rate: scaled by the slope at or above the
/// threshold, shifted by the constant below it, never both.
pub open spec fn positive_bound(
    b: MakerRateBounds,
    side: Side,
    mark_rate_abs: F64Bits,
    k_i_thresh: F64Bits,
) -> F64Bits {
    let base = float_math::of_integer(10_000);
    if float_bits::less(k_i_thresh, mark_rate_abs) || float_bits::equal(k_i_thresh, mark_rate_abs) {
        let slope = match side {
            Side::Long => b.lo_upper_slope_base1e4,
            Side::Short => b.lo_lower_slope_base1e4,
        };
        float_math::product(
            mark_rate_abs,
            float_math::quotient(float_math::of_integer(slope as int), base),
        )
    } else {
        let konst = match side {
            Side::Long => b.lo_upper_const_base1e4,
            Side::Short => b.lo_lower_const_base1e4,
        };
        float_math::sum(
            mark_rate_abs,
            float_math::quotient(float_math::of_integer(konst as int), base),
        )
    }
}

/// The bound of a side: below zero the other side's bound, mirrored.
pub open spec fn bound_of(
    b: MakerRateBounds,
    side: Side,
    mark_rate: F64Bits,
    k_i_thresh: F64Bits,
) -> F64Bits {
    if at_least_zero(mark_rate) {
        positive_bound(b, side, mark_rate, k_i_thresh)
    } else {
        float_math::negated(
            positive_bound(b, side.other(), float_math::negated(mark_rate), k_i_thresh),
        )
    }
}

impl MakerRateBounds {
    /// The bound of a side. A long order must not lie above its bound, a short
    /// order not below.
    pub fn bound_for(&self, side: Side, mark_rate: F64Bits, k_i_thresh: F64Bits) -> (r: F64Bits)
        ensures
            r == bound_of(*self, side, mark_rate, k_i_thresh),
    {
        if F64Bits(0).is_at_most(mark_rate) {
            self.bound_positive(side, mark_rate, k_i_thresh)
        } else {
            self.bound_positive(side.opposite(), mark_rate.opposite(), k_i_thresh).opposite()
        }
    }

    fn bound_positive(&self, side: Side, mark_rate_abs: F64Bits, k_i_thresh: F64Bits) -> (r: F64Bits)
        ensures
            r == positive_bound(*self, side, mark_rate_abs, k_i_thresh),
    {
        if k_i_thresh.is_at_most(mark_rate_abs) {
            let slope: i16 = match side {
                Side::Long => self.lo_upper_slope_base1e4,
                Side::Short => self.lo_lower_slope_base1e4,
            };
            mark_rate_abs.times(F64Bits::of(slope as i128).over(F64Bits::of(10_000)))
        } else {
            let konst: i16 = match side {
                Side::Long => self.lo_upper_const_base1e4,
                Side::Short => self.lo_lower_const_base1e4,
            };
            mark_rate_abs.plus(F64Bits::of(konst as i128).over(F64Bits::of(10_000)))
        }
    }
}

/// A bid and an ask in rate space, still to be moved onto ticks.
#[derive(Debug, Clone, Copy, PartialEq, Eq, Structural)]
pub struct Quote {
    pub bid_rate: FixedX18,
    pub ask_rate: FixedX18,
    pub reservation_rate: FixedX18,
}

/// A negative mark rate mirrors the bound of the other side at the positive
/// one.
pub proof fn law_negative_mark_mirrors_the_other_side(
    b: MakerRateBounds,
    side: Side,
    mark_rate: F64Bits,
    k_i_thresh: F64Bits,
)
    requires
        above_zero(mark_rate),
    ensures
        bound_of(b, side, float_math::negated(mark_rate), k_i_thresh) == float_math::negated(
            bound_of(b, side.other(), mark_rate, k_i_thresh),
        ),
{
    assert(float_math::negated(float_math::negated(mark_rate)) == mark_rate);
}

} // verus!
