use vstd::prelude::*;

use crate::oms_core::types::Trade;
use crate::tick_math::fixed;
use crate::tick_math::math;
use crate::tick_math::{mul_div_ceil, FixedX18, MathError, SECONDS_PER_YEAR};

verus! {

/// The share of a yearly cost that falls on the time to maturity, rounded up.
pub open spec fn upfront_cost(cost: FixedX18, time_to_maturity_secs: u32) -> Result<FixedX18, MathError> {
    fixed::as_fixed(math::ceil_outcome(cost.0 * time_to_maturity_secs, SECONDS_PER_YEAR as int))
}

/// Cost of the fixed leg, paid when a trade fills: one division by the seconds
/// in a year, rounded toward plus infinity.
pub fn calc_upfront_fixed_cost(cost: FixedX18, time_to_maturity_secs: u32) -> (r: Result<
    FixedX18,
    MathError,
>)
    ensures
        r == upfront_cost(cost, time_to_maturity_secs),
{
    match mul_div_ceil(cost.0, time_to_maturity_secs as i128, SECONDS_PER_YEAR as i128) {
        Ok(v) => Ok(FixedX18(v)),
        Err(e) => Err(e),
    }
}

/// Upfront cost of a trade, from the trade's own cost.
pub fn trade_upfront_fixed_cost(trade: &Trade, time_to_maturity_secs: u32) -> (r: Result<
    FixedX18,
    MathError,
>)
    ensures
        r == upfront_cost(trade.signed_cost, time_to_maturity_secs),
{
    calc_upfront_fixed_cost(trade.signed_cost, time_to_maturity_secs)
}

/// The rounding never favours the trader: the charge is at least the exact
/// share, by less than one raw unit.
pub proof fn law_upfront_cost_never_undercharges(cost: FixedX18, time_to_maturity_secs: u32)
    requires
        upfront_cost(cost, time_to_maturity_secs) is Ok,
    ensures
        ({
            let charged = upfront_cost(cost, time_to_maturity_secs)->Ok_0.0;
            let exact = cost.0 * time_to_maturity_secs;
            (charged - 1) * SECONDS_PER_YEAR < exact <= charged * SECONDS_PER_YEAR
        }),
{
    math::law_rounding_directions(cost.0 * time_to_maturity_secs, SECONDS_PER_YEAR as int);
    let n = cost.0 * time_to_maturity_secs;
    math::lemma_ceil_in_range(n, SECONDS_PER_YEAR as int);
}

/// A charge is refused only where it is out of range.
pub proof fn law_upfront_costs_in_range_are_charged(cost: FixedX18, time_to_maturity_secs: u32)
    requires
        -(i128::MAX as int) * SECONDS_PER_YEAR <= cost.0 * time_to_maturity_secs <= i128::MAX * SECONDS_PER_YEAR,
    ensures
        upfront_cost(cost, time_to_maturity_secs) is Ok,
{
    math::law_rounding_directions(cost.0 * time_to_maturity_secs, SECONDS_PER_YEAR as int);
}

/// A full year costs the yearly cost.
pub proof fn law_full_year_costs_the_cost(cost: FixedX18)
    requires
        cost.0 != i128::MIN,
    ensures
        upfront_cost(cost, SECONDS_PER_YEAR) == Ok::<FixedX18, MathError>(cost),
{
}

} // verus!
