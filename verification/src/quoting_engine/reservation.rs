//! Reservation rate and spread of the closed-form Avellaneda-Stoikov model, with
//! inventory measured in rate sensitivity.
//!
//! The carry adjustment is a heuristic on top of the model: a position whose
//! locked rate looks good against the reference is less urgent to unwind. A
//! weight of zero turns it off.

use vstd::arithmetic::power2::{lemma_pow2_adds, lemma_pow2_pos, lemma_pow2_strictly_increases};
use vstd::prelude::*;

use crate::float_bits;
use crate::float_bits::{F64Bits, MINUS_ONE, NOT_A_NUMBER, ONE, TWO};
use crate::float_math;
use crate::float_order;
use crate::float_round;
use crate::quoting_engine::types;
use crate::quoting_engine::types::{AvellanedaStoikovParams, InventoryState};
use crate::tick_math::SECONDS_PER_YEAR;

verus! {

/// The horizon in years.
pub open spec fn years(params: AvellanedaStoikovParams) -> F64Bits {
    float_math::quotient(
        float_math::of_integer(params.horizon_secs as int),
        float_math::of_integer(SECONDS_PER_YEAR as int),
    )
}

/// The variance of the rate.
pub open spec fn variance(params: AvellanedaStoikovParams) -> F64Bits {
    float_math::product(params.sigma, params.sigma)
}

/// What inventory takes off the reference rate.
pub open spec fn skew_of(net_dv01: F64Bits, params: AvellanedaStoikovParams) -> F64Bits {
    float_math::product(
        float_math::product(float_math::product(net_dv01, params.gamma), variance(params)),
        years(params),
    )
}

/// One, with the sign of a float.
pub open spec fn sign_of(f: F64Bits) -> F64Bits {
    if float_bits::nan(f) {
        float_math::not_a_number()
    } else if float_bits::signed(f) {
        F64Bits(MINUS_ONE)
    } else {
        F64Bits(ONE)
    }
}

/// What the locked rate adds: nothing without a locked rate, an exposure and a
/// weight. A long likes a locked rate below the reference, a short one above.
pub open spec fn carry_of(
    reference_rate: F64Bits,
    inventory: InventoryState,
    params: AvellanedaStoikovParams,
) -> F64Bits {
    match inventory.avg_locked_fixed_rate {
        None => F64Bits(0),
        Some(locked) => if float_bits::equal(inventory.net_dv01, F64Bits(0)) || float_bits::equal(
            params.carry_weight,
            F64Bits(0),
        ) {
            F64Bits(0)
        } else {
            float_math::product(
                params.carry_weight,
                float_math::product(
                    sign_of(inventory.net_dv01),
                    float_math::difference(reference_rate, locked),
                ),
            )
        },
    }
}

/// The rate to quote around.
pub open spec fn reservation_of(
    reference_rate: F64Bits,
    inventory: InventoryState,
    params: AvellanedaStoikovParams,
) -> F64Bits {
    float_math::sum(
        float_math::difference(reference_rate, skew_of(inventory.net_dv01, params)),
        carry_of(reference_rate, inventory, params),
    )
}

/// The distance of ask and bid: inventory risk over the horizon, and what the
/// arrival of orders allows. `log` is the logarithm of [`arrival_operand`].
pub open spec fn spread_of(params: AvellanedaStoikovParams, log: F64Bits) -> F64Bits {
    float_math::sum(inventory_term(params), liquidity_term(params, log))
}

/// What inventory risk over the horizon adds to the spread.
pub open spec fn inventory_term(params: AvellanedaStoikovParams) -> F64Bits {
    float_math::product(float_math::product(params.gamma, variance(params)), years(params))
}

/// What the arrival of orders adds to the spread.
pub open spec fn liquidity_term(params: AvellanedaStoikovParams, log: F64Bits) -> F64Bits {
    float_math::product(float_math::quotient(F64Bits(TWO), params.gamma), log)
}

fn horizon_years(params: &AvellanedaStoikovParams) -> (r: F64Bits)
    ensures
        r == years(*params),
{
    F64Bits::of(params.horizon_secs as i128).over(F64Bits::of(SECONDS_PER_YEAR as i128))
}

/// The reference rate, moved away from inventory, with the carry adjustment.
pub fn reservation_rate(
    reference_rate: F64Bits,
    inventory: &InventoryState,
    params: &AvellanedaStoikovParams,
) -> (r: F64Bits)
    ensures
        r == reservation_of(reference_rate, *inventory, *params),
{
    let variance: F64Bits = params.sigma.times(params.sigma);
    let skew: F64Bits = inventory.net_dv01.times(params.gamma).times(variance).times(
        horizon_years(params),
    );
    reference_rate.minus(skew).plus(carry_adjustment(reference_rate, inventory, params))
}

fn carry_adjustment(
    reference_rate: F64Bits,
    inventory: &InventoryState,
    params: &AvellanedaStoikovParams,
) -> (r: F64Bits)
    ensures
        r == carry_of(reference_rate, *inventory, *params),
{
    match inventory.avg_locked_fixed_rate {
        None => F64Bits(0),
        Some(locked) => {
            if inventory.net_dv01.is_equal(F64Bits(0)) || params.carry_weight.is_equal(F64Bits(0)) {
                return F64Bits(0);
            }
            let advantage: F64Bits = signum(inventory.net_dv01).times(reference_rate.minus(locked));
            params.carry_weight.times(advantage)
        },
    }
}

fn signum(f: F64Bits) -> (r: F64Bits)
    ensures
        r == sign_of(f),
{
    if f.is_nan() {
        F64Bits(NOT_A_NUMBER)
    } else if f.0 >= 0x8000_0000_0000_0000 {
        F64Bits(MINUS_ONE)
    } else {
        F64Bits(ONE)
    }
}

/// One plus risk aversion over arrival decay, whose logarithm the spread takes.
pub fn arrival_operand(params: &AvellanedaStoikovParams) -> (r: F64Bits)
    ensures
        r == float_math::sum(
            F64Bits(ONE),
            float_math::quotient(params.gamma, params.kappa),
        ),
{
    F64Bits(ONE).plus(params.gamma.over(params.kappa))
}

/// The full spread, ask minus bid. `log` is the natural logarithm of
/// [`arrival_operand`]. Makers pay no fee, so the spread has no floor.
pub fn optimal_spread(params: &AvellanedaStoikovParams, log: F64Bits) -> (r: F64Bits)
    ensures
        r == spread_of(*params, log),
{
    let variance: F64Bits = params.sigma.times(params.sigma);
    let inventory_term: F64Bits = params.gamma.times(variance).times(horizon_years(params));
    let liquidity_term: F64Bits = F64Bits(TWO).over(params.gamma).times(log);
    inventory_term.plus(liquidity_term)
}

/// More inventory never raises the reservation rate: what is longer is quoted
/// lower or equal. The rates are those without a carry adjustment.
pub proof fn law_inventory_lowers_the_reservation(
    reference_rate: F64Bits,
    smaller: F64Bits,
    larger: F64Bits,
    params: AvellanedaStoikovParams,
)
    requires
        types::param_fault(params) is None,
        float_bits::finite(reference_rate),
        float_bits::finite(params.gamma),
        float_bits::finite(variance(params)),
        float_order::at_most(smaller, larger),
        float_bits::finite(float_math::product(smaller, params.gamma)),
        float_bits::finite(float_math::product(larger, params.gamma)),
    ensures
        ({
            let less = InventoryState { net_dv01: smaller, avg_locked_fixed_rate: None };
            let more = InventoryState { net_dv01: larger, avg_locked_fixed_rate: None };
            float_order::at_most(
                reservation_of(reference_rate, more, params),
                reservation_of(reference_rate, less, params),
            )
        }),
{
    let a = float_math::product(smaller, params.gamma);
    let b = float_math::product(larger, params.gamma);
    float_order::law_product_keeps_order(smaller, larger, params.gamma);
    lemma_variance(params);
    float_order::law_product_keeps_weak_order(a, b, variance(params));
    lemma_years(params);
    float_order::law_product_keeps_order(
        float_math::product(a, variance(params)),
        float_math::product(b, variance(params)),
        years(params),
    );
    let s = skew_of(smaller, params);
    let t = skew_of(larger, params);
    float_order::law_negation_reverses_order(s, t);
    float_order::law_sum_keeps_order(
        float_math::negated(t),
        float_math::negated(s),
        reference_rate,
    );
    float_order::law_sum_commutes(reference_rate, float_math::negated(s));
    float_order::law_sum_commutes(reference_rate, float_math::negated(t));
    float_order::law_sum_keeps_order(
        float_math::difference(reference_rate, t),
        float_math::difference(reference_rate, s),
        F64Bits(0),
    );
}

/// Without inventory the reservation rate is the reference rate.
pub proof fn law_no_inventory_keeps_the_reference(
    reference_rate: F64Bits,
    net_dv01: F64Bits,
    locked: Option<F64Bits>,
    params: AvellanedaStoikovParams,
)
    requires
        types::param_fault(params) is None,
        !float_bits::nan(reference_rate),
        float_bits::finite(params.gamma),
        float_bits::finite(variance(params)),
        float_math::zero(net_dv01),
    ensures
        float_bits::equal(
            reservation_of(
                reference_rate,
                InventoryState { net_dv01, avg_locked_fixed_rate: locked },
                params,
            ),
            reference_rate,
        ),
{
    float_order::lemma_product_with_zero(params.gamma, net_dv01);
    float_math::lemma_product_commutes(params.gamma, net_dv01);
    let a = float_math::product(net_dv01, params.gamma);
    float_order::lemma_product_with_zero(variance(params), a);
    float_math::lemma_product_commutes(variance(params), a);
    let b = float_math::product(a, variance(params));
    lemma_years(params);
    float_order::lemma_product_with_zero(years(params), b);
    float_math::lemma_product_commutes(years(params), b);
    let skew = skew_of(net_dv01, params);
    float_order::law_sum_with_zero(reference_rate, float_math::negated(skew));
    float_order::law_sum_with_zero(float_math::difference(reference_rate, skew), F64Bits(0));
}

/// Neither term of the spread is negative, unless it is not a number.
proof fn lemma_terms_are_unsigned(params: AvellanedaStoikovParams, log: F64Bits)
    requires
        types::param_fault(params) is None,
        !float_bits::less(log, F64Bits(0)),
    ensures
        !float_bits::less(inventory_term(params), F64Bits(0)),
        !float_bits::less(liquidity_term(params, log), F64Bits(0)),
{
    float_order::law_product_of_unsigned(params.sigma, params.sigma);
    float_order::law_product_of_unsigned(params.gamma, variance(params));
    lemma_years(params);
    float_order::law_product_of_unsigned(
        float_math::product(params.gamma, variance(params)),
        years(params),
    );
    let two = F64Bits(TWO);
    float_order::law_quotient_of_unsigned(two, params.gamma);
    float_order::law_product_of_unsigned(float_math::quotient(two, params.gamma), log);
}

/// The spread is never negative: the logarithm of an operand of at least one is
/// not.
pub proof fn law_spread_is_not_negative(params: AvellanedaStoikovParams, log: F64Bits)
    requires
        types::param_fault(params) is None,
        !float_bits::less(log, F64Bits(0)),
    ensures
        !float_bits::less(spread_of(params, log), F64Bits(0)),
{
    lemma_terms_are_unsigned(params, log);
    float_order::law_sum_of_unsigned(inventory_term(params), liquidity_term(params, log));
}

/// The spread is above zero for a logarithm above zero, unless both terms are so
/// small that they round to zero.
pub proof fn law_spread_is_positive(params: AvellanedaStoikovParams, log: F64Bits)
    requires
        types::param_fault(params) is None,
        float_bits::finite(params.gamma),
        types::above_zero(log),
        !float_math::zero(inventory_term(params)) || !float_math::zero(liquidity_term(params, log)),
    ensures
        types::above_zero(spread_of(params, log)),
{
    let inventory = inventory_term(params);
    let liquidity = liquidity_term(params, log);
    lemma_terms_are_unsigned(params, log);
    lemma_terms_are_numbers(params, log);
    float_order::law_sums_cover_their_parts(inventory, liquidity);
    float_order::law_sums_cover_their_parts(liquidity, inventory);
    float_order::law_sum_commutes(inventory, liquidity);
}

/// With a finite risk aversion both terms of the spread are numbers.
proof fn lemma_terms_are_numbers(params: AvellanedaStoikovParams, log: F64Bits)
    requires
        types::param_fault(params) is None,
        float_bits::finite(params.gamma),
        types::above_zero(log),
    ensures
        !float_bits::nan(inventory_term(params)),
        !float_bits::nan(liquidity_term(params, log)),
{
    let two = F64Bits(TWO);
    lemma_years(params);
    assert(!float_bits::nan(variance(params))) by {
        reveal(float_math::product);
        let n = float_math::size(params.sigma);
        float_round::law_nearest_exists(n * n, float_math::unit());
    }
    float_math::lemma_product_sign(variance(params), params.gamma);
    float_math::lemma_product_commutes(params.gamma, variance(params));
    float_math::lemma_product_sign(float_math::product(params.gamma, variance(params)), years(params));
    let rate = float_math::quotient(two, params.gamma);
    assert(!float_bits::nan(rate) && !float_math::zero(rate)) by {
        reveal(float_math::quotient);
        lemma_two_over(params.gamma);
    }
    reveal(float_math::product);
    let n = float_math::size(rate) * float_math::size(log);
    float_round::law_nearest_exists(n, float_math::unit());
}

/// Two over a finite float does not round to zero.
proof fn lemma_two_over(gamma: F64Bits)
    requires
        float_order::positive(gamma),
    ensures
        ({
            let m = float_round::rounded(float_math::size(F64Bits(TWO)) * float_math::unit(), float_math::size(gamma));
            0 < m <= float_round::INFINITE
        }),
{
    let u = float_math::unit();
    let g = float_math::size(gamma);
    let n = float_math::size(F64Bits(TWO)) * u;
    float_math::lemma_two();
    float_math::lemma_small_multiples();
    float_round::lemma_multiple_ascends(0, float_bits::mag(gamma));
    float_round::lemma_multiple_ascends(float_bits::mag(gamma), float_round::INFINITE as int);
    float_round::lemma_powers();
    float_round::lemma_multiple(2046, 0x10_0000_0000_0000);
    lemma_pow2_adds(52, 2046);
    lemma_pow2_adds(1074, 1074);
    lemma_pow2_strictly_increases(2098, 2148);
    lemma_pow2_pos(1074);
    assert(g <= n) by (nonlinear_arith)
        requires
            n == 2 * u * u,
            g < u * u,
            u > 0,
    ;
    assert(1 * g <= n * 1);
    float_round::law_rounding_keeps_order(1, 1, n, g);
    float_math::lemma_rounded_exact(1);
    float_round::law_nearest_exists(n, g);
}

/// A locked rate on the good side of the reference never counts against the
/// position, one on the bad side never for it: a long with a rate below the
/// reference is quoted no lower than without, one with a rate above it no
/// higher, and a short the other way round.
pub proof fn law_carry_follows_the_locked_rate(
    reference_rate: F64Bits,
    net_dv01: F64Bits,
    locked: F64Bits,
    params: AvellanedaStoikovParams,
)
    requires
        types::param_fault(params) is None,
        float_bits::finite(params.carry_weight),
        float_bits::finite(reference_rate),
        float_bits::finite(locked),
        float_bits::finite(float_math::difference(reference_rate, locked)),
        float_bits::finite(float_math::difference(reference_rate, skew_of(net_dv01, params))),
        !float_bits::nan(net_dv01),
    ensures
        ({
            let with = reservation_of(
                reference_rate,
                InventoryState { net_dv01, avg_locked_fixed_rate: Some(locked) },
                params,
            );
            let without = reservation_of(
                reference_rate,
                InventoryState { net_dv01, avg_locked_fixed_rate: None },
                params,
            );
            let below = float_order::at_most(locked, reference_rate);
            let above = float_order::at_most(reference_rate, locked);
            let long = types::above_zero(net_dv01);
            let short = float_bits::less(net_dv01, F64Bits(0));
            &&& (long && below) || (short && above) ==> float_order::at_most(without, with)
            &&& (long && above) || (short && below) ==> float_order::at_most(with, without)
        }),
{
    lemma_difference_sign(reference_rate, locked);
    lemma_carry_side(
        net_dv01,
        params.carry_weight,
        float_math::difference(reference_rate, locked),
        float_math::difference(reference_rate, skew_of(net_dv01, params)),
    );
}

/// On which side of zero the carry of a difference lies.
proof fn lemma_carry_side(net_dv01: F64Bits, weight: F64Bits, diff: F64Bits, base: F64Bits)
    requires
        !float_bits::nan(net_dv01),
        float_order::not_negative(weight),
        float_bits::finite(diff),
        float_bits::finite(base),
    ensures
        ({
            let zero = F64Bits(0);
            let carry = if float_bits::equal(net_dv01, zero) || float_bits::equal(weight, zero) {
                zero
            } else {
                float_math::product(weight, float_math::product(sign_of(net_dv01), diff))
            };
            let without = float_math::sum(base, zero);
            let with = float_math::sum(base, carry);
            let good = float_order::at_most(zero, diff);
            let bad = float_order::at_most(diff, zero);
            let long = types::above_zero(net_dv01);
            let short = float_bits::less(net_dv01, zero);
            &&& (long && good) || (short && bad) ==> float_order::at_most(without, with)
            &&& (long && bad) || (short && good) ==> float_order::at_most(with, without)
        }),
{
    let zero = F64Bits(0);
    if float_bits::equal(net_dv01, zero) || float_bits::equal(weight, zero) {
        float_order::law_sum_keeps_order(base, base, zero);
    } else {
        let advantage = float_math::product(sign_of(net_dv01), diff);
        float_math::lemma_signed_one(sign_of(net_dv01), diff);
        lemma_weighted(weight, advantage);
        lemma_added(base, float_math::product(weight, advantage));
    }
}

/// Weighing keeps the side of zero.
proof fn lemma_weighted(weight: F64Bits, advantage: F64Bits)
    requires
        float_order::positive(weight),
        float_bits::finite(advantage),
    ensures
        ({
            let zero = F64Bits(0);
            let weighted = float_math::product(weight, advantage);
            &&& float_order::at_most(zero, advantage) ==> float_order::at_most(zero, weighted)
            &&& float_order::at_most(advantage, zero) ==> float_order::at_most(weighted, zero)
        }),
{
    let zero = F64Bits(0);
    float_math::lemma_product_commutes(weight, advantage);
    float_math::lemma_product_sign(zero, weight);
    if float_order::at_most(zero, advantage) {
        float_order::law_product_keeps_order(zero, advantage, weight);
    }
    if float_order::at_most(advantage, zero) {
        float_order::law_product_keeps_order(advantage, zero, weight);
    }
}

/// Adding moves a float to the side of what is added.
proof fn lemma_added(base: F64Bits, carry: F64Bits)
    requires
        float_bits::finite(base),
    ensures
        ({
            let zero = F64Bits(0);
            let without = float_math::sum(base, zero);
            let with = float_math::sum(base, carry);
            &&& float_order::at_most(zero, carry) ==> float_order::at_most(without, with)
            &&& float_order::at_most(carry, zero) ==> float_order::at_most(with, without)
        }),
{
    let zero = F64Bits(0);
    if float_order::at_most(zero, carry) {
        float_order::law_sum_keeps_order(zero, carry, base);
    }
    if float_order::at_most(carry, zero) {
        float_order::law_sum_keeps_order(carry, zero, base);
    }
    float_order::law_sum_commutes(base, carry);
    float_order::law_sum_commutes(base, zero);
}

/// The sign of a difference.
proof fn lemma_difference_sign(a: F64Bits, b: F64Bits)
    requires
        float_bits::finite(a),
        float_bits::finite(b),
    ensures
        float_order::at_most(b, a) ==> float_order::at_most(F64Bits(0), float_math::difference(a, b)),
        float_order::at_most(a, b) ==> float_order::at_most(float_math::difference(a, b), F64Bits(0)),
{
    reveal(float_math::sum);
    let c = float_math::negated(b);
    assert(float_math::zero(float_math::sum(b, c)));
    if float_order::at_most(b, a) {
        float_order::law_sum_keeps_order(b, a, c);
    }
    if float_order::at_most(a, b) {
        float_order::law_sum_keeps_order(a, b, c);
    }
}

/// A carry weight of zero turns the carry adjustment off.
pub proof fn law_zero_weight_disables_carry(
    reference_rate: F64Bits,
    inventory: InventoryState,
    params: AvellanedaStoikovParams,
)
    requires
        float_math::zero(params.carry_weight),
    ensures
        reservation_of(reference_rate, inventory, params) == reservation_of(
            reference_rate,
            InventoryState { avg_locked_fixed_rate: None, ..inventory },
            params,
        ),
{
}

proof fn lemma_years(params: AvellanedaStoikovParams)
    requires
        params.horizon_secs > 0,
    ensures
        float_order::positive(years(params)),
{
    float_order::lemma_integer_is_moderate(params.horizon_secs as int);
    float_order::lemma_integer_is_moderate(SECONDS_PER_YEAR as int);
    float_order::law_moderate_quotient_is_positive(
        float_math::of_integer(params.horizon_secs as int),
        float_math::of_integer(SECONDS_PER_YEAR as int),
    );
}

proof fn lemma_variance(params: AvellanedaStoikovParams)
    requires
        types::param_fault(params) is None,
        float_bits::finite(variance(params)),
    ensures
        float_order::not_negative(variance(params)),
{
    float_order::law_product_of_unsigned(params.sigma, params.sigma);
}

} // verus!
