//! Where rates lie on the tick grid, against the exact places.

use vstd::arithmetic::power2::lemma_pow2_pos;
use vstd::prelude::*;

use crate::float_bits;
use crate::float_bits::{F64Bits, ONE};
use crate::float_error;
use crate::float_error::FULL;
use crate::float_math;
use crate::float_near;
use crate::float_near::{distance, full, near};
use crate::tick_math::accuracy;
use crate::tick_math::conversion;
use crate::tick_math::conversion::{GridPosition, Rounding, LN_TICK_BASE};
use crate::tick_math::error::MathError;
use crate::tick_math::fixed;
use crate::tick_math::fixed::FixedX18;

verus! {

/// The rate at a tick is the power less one, with the sign of the tick: off by at
/// most one raw unit and a few parts in `2^52` of it.
pub proof fn law_a_tick_is_worth_its_power_less_one(tick: i16, tick_step: u8, power: F64Bits)
    requires
        tick != 0,
        tick_step != 0,
        float_bits::finite(power),
        float_bits::finite(float_math::difference(power, F64Bits(ONE))),
        float_math::value(power) >= float_math::unit(),
        (float_math::value(power) - float_math::unit()) * 1_000_000_000_000_000_000
            <= 0x2000_0000_0000_0000_0000_0000_0000_0000 * float_math::unit(),
    ensures
        ({
            let exact = (float_math::value(power) - float_math::unit()) * 1_000_000_000_000_000_000;
            let rate = conversion::rate_of_tick(tick, tick_step, conversion::magnitude_of(power));
            &&& rate matches Ok(r) && {
                &&& tick > 0 ==> r.0 >= 0 && distance(r.0 * float_math::unit() - exact) * FULL
                    <= float_math::unit() * FULL + 14 * exact
                &&& tick < 0 ==> r.0 <= 0 && distance(-r.0 * float_math::unit() - exact) * FULL
                    <= float_math::unit() * FULL + 14 * exact
            }
        }),
{
    let u = float_math::unit();
    lemma_pow2_pos(1074);
    float_math::lemma_one();
    let one = F64Bits(ONE);
    assert(float_math::value(one) == u);
    let m = float_math::difference(power, one);
    let total = float_math::value(power) - u;
    float_near::law_difference_is_near(power, one);
    float_error::lemma_sizes(m);
    let x = float_math::size(m);
    float_near::law_near_is_off_by_little(x, total, 1);
    assert(float_math::value(m) == x);
    if float_bits::less(m, F64Bits(0)) {
        assert(float_bits::signed(m) && !float_math::zero(m));
        assert(float_math::value(m) == -x);
        assert(false);
    }
    conversion::lemma_from_float_keeps_sign(m);
    accuracy::law_a_fixed_value_is_near_its_float(m);
    let k: int = 1_000_000_000_000_000_000;
    let r = crate::tick_math::fixed::from_float(m).0 as int;
    let exact = total * k;
    let e = FULL as int;
    let (a, b) = (distance(r * u - x * k), distance(x - total));
    assert(distance(r * u - exact) <= a + b * k) by (nonlinear_arith)
        requires
            a == distance(r * u - x * k),
            b == distance(x - total),
            exact == total * k,
            k > 0,
            distance(r * u - exact) == (if r * u - exact < 0 { -(r * u - exact) } else { r * u - exact }),
            a == (if r * u - x * k < 0 { -(r * u - x * k) } else { r * u - x * k }),
            b == (if x - total < 0 { -(x - total) } else { x - total }),
    {
        assert(x * k - total * k == (x - total) * k);
    }
    assert(distance(r * u - exact) * e <= u * e + 14 * exact) by (nonlinear_arith)
        requires
            distance(r * u - exact) <= a + b * k,
            a * e <= u * e + 6 * (x * k),
            b * e <= 2 * (1 * total),
            x <= 2 * total,
            exact == total * k,
            k > 0,
            e > 0,
    {
        assert((a + b * k) * e == a * e + (b * e) * k);
        assert((b * e) * k <= (2 * total) * k);
        assert(x * k <= (2 * total) * k);
    }
    assert(-(-r) == r);
}

/// The place of a logarithm on the grid lies between whole ticks that are the same
/// or neighbours, and is the logarithm over that of one step, over the tick step, as
/// far as rounding goes.
pub proof fn law_a_place_on_the_grid_is_the_logarithm_over_the_step(log: F64Bits, tick_step: u8)
    requires
        float_bits::finite(log),
        tick_step != 0,
        full(float_math::quotient(log, F64Bits(LN_TICK_BASE))),
        full(
            float_math::quotient(
                float_math::quotient(log, F64Bits(LN_TICK_BASE)),
                float_math::of_integer(tick_step as int),
            ),
        ),
    ensures
        ({
            let ticks = float_math::quotient(
                float_math::quotient(log, F64Bits(LN_TICK_BASE)),
                float_math::of_integer(tick_step as int),
            );
            let place = conversion::position_of(log, tick_step);
            &&& near(
                float_math::size(ticks) * tick_step * float_math::size(F64Bits(LN_TICK_BASE)),
                float_math::size(log) * float_math::unit(),
                3,
            )
            &&& float_bits::signed(ticks) == float_bits::signed(log)
            &&& place matches Some(p) && (i128::MIN < p.below && p.above < i128::MAX ==> p.below * float_math::unit()
                <= float_math::value(ticks) <= p.above * float_math::unit() && p.above - p.below <= 1)
        }),
{
    let u = float_math::unit();
    lemma_pow2_pos(1074);
    let ln = F64Bits(LN_TICK_BASE);
    let step = float_math::of_integer(tick_step as int);
    let coarse = float_math::quotient(log, ln);
    let ticks = float_math::quotient(coarse, step);
    float_math::lemma_of_integer(tick_step as int);
    float_math::law_small_integers_are_exact(tick_step as int);
    float_near::law_quotient_is_near(log, ln);
    float_near::law_quotient_is_near(coarse, step);
    float_error::lemma_sizes(log);
    float_error::lemma_sizes(ln);
    float_error::lemma_sizes(coarse);
    float_error::lemma_sizes(ticks);
    let (t, c, b, l, k) = (
        float_math::size(ticks),
        float_math::size(coarse),
        float_math::size(ln),
        float_math::size(log),
        tick_step as int,
    );
    // t * (k * u) is near c * u, and c * b is near l * u.
    assert(t * (k * u) == (t * k) * u) by (nonlinear_arith);
    float_near::law_near_cancels(t * k, c, u, 1);
    float_near::law_near_scales(t * k, c, b, 1);
    assert((t * k) * b >= 0 && l * u >= 0) by (nonlinear_arith)
        requires
            t >= 0,
            k >= 0,
            b >= 0,
            l >= 0,
            u > 0,
    {
        assert(t * k >= 0);
    }
    float_near::law_near_chains((t * k) * b, c * b, l * u, 1, 1);
    lemma_whole_neighbours(ticks);
}

/// Floor and ceiling of a finite float.
proof fn lemma_whole_neighbours(f: F64Bits)
    requires
        float_bits::finite(f),
    ensures
        ({
            let u = float_math::unit();
            let (low, high) = (float_math::floor_integer(f), float_math::ceil_integer(f));
            &&& low * u <= float_math::value(f) <= high * u
            &&& low <= high <= low + 1
        }),
{
    let u = float_math::unit();
    lemma_pow2_pos(1074);
    vstd::arithmetic::div_mod::lemma_fundamental_div_mod(float_math::size(f), u);
    let (q, r) = (float_math::whole(f), float_math::fraction(f));
    assert((q + 1) * u == u * q + u && q * u == u * q && (-q) * u == -(u * q) && (-q - 1) * u == -(u * q) - u)
        by (nonlinear_arith);
}

/// The tick of a rate is the whole number of ticks below or above its place, counted
/// from zero on the rate's own side: the floor is the lower tick and the ceiling the
/// higher one, whatever the sign. A tick beyond 16 bits is refused.
pub proof fn law_a_rounding_picks_the_lower_or_the_higher_tick(
    rate: FixedX18,
    tick_step: u8,
    rounding: Rounding,
    place: GridPosition,
)
    requires
        tick_step != 0,
        rate.0 != 0,
        place.wf(),
        place.above < i128::MAX,
    ensures
        ({
            let lower = if rate.0 > 0 {
                place.below as int
            } else {
                -place.above
            };
            let higher = if rate.0 > 0 {
                place.above as int
            } else {
                -place.below
            };
            let tick = match rounding {
                Rounding::Floor => lower,
                Rounding::Ceil => higher,
            };
            let found = conversion::tick_of_rate(rate, tick_step, rounding, Some(place));
            &&& lower <= higher
            &&& -32768 <= tick <= 32767 ==> found == Ok::<i16, MathError>(tick as i16)
            &&& tick < -32768 || tick > 32767 ==> found == Err::<i16, MathError>(
                MathError::RateNotRepresentable(rate),
            )
        }),
{
}

/// The power of a tick is its distance from zero times the step.
pub proof fn law_an_exponent_is_ticks_times_the_step(tick: i16, tick_step: u8)
    ensures
        conversion::exponent_of(tick, tick_step) == distance(tick as int) * tick_step,
{
}

/// The growth of a rate is one more than the rate without its sign, as far as rounding
/// goes.
pub proof fn law_growth_is_one_more_than_the_rate(rate: FixedX18)
    requires
        float_bits::finite(conversion::growth_of(rate)),
    ensures
        near(
            float_math::size(conversion::growth_of(rate)) * 1_000_000_000_000_000_000,
            (distance(rate.0 as int) + 1_000_000_000_000_000_000) * float_math::unit(),
            7,
        ),
        float_math::value(conversion::growth_of(rate)) > 0,
{
    let scale: int = 1_000_000_000_000_000_000;
    let u = float_math::unit();
    lemma_pow2_pos(1074);
    float_math::lemma_one();
    let f = float_bits::unsigned(fixed::to_float(rate));
    let g = conversion::growth_of(rate);
    accuracy::law_a_float_is_near_its_fixed_value(rate);
    float_near::law_sum_is_near(f, F64Bits(ONE));
    float_error::lemma_sizes(f);
    float_error::lemma_sizes(g);
    let (x, y, n) = (float_math::size(g), float_math::size(f), distance(rate.0 as int));
    assert(y == float_math::size(fixed::to_float(rate)));
    float_near::law_near_scales(x, y + u, scale, 1);
    lemma_shifted(y * scale, n * u, scale * u, 5);
    assert((y + u) * scale == y * scale + scale * u) by (nonlinear_arith);
    assert((n + scale) * u == n * u + scale * u) by (nonlinear_arith);
    assert(n * u >= 0) by (nonlinear_arith)
        requires
            n >= 0,
            u > 0,
    ;
    float_near::law_near_chains(x * scale, (y + u) * scale, (n + scale) * u, 1, 5);
}

proof fn lemma_shifted(x: int, y: int, c: int, k: int)
    requires
        near(x, y, k),
        c >= 0,
        k >= 0,
    ensures
        near(x + c, y + c, k),
{
    assert(c * FULL <= c * (FULL + k)) by (nonlinear_arith)
        requires
            c >= 0,
            k >= 0,
    ;
    assert((x + c) * FULL == x * FULL + c * FULL) by (nonlinear_arith);
    assert((y + c) * FULL == y * FULL + c * FULL) by (nonlinear_arith);
    assert((x + c) * (FULL + k) == x * (FULL + k) + c * (FULL + k)) by (nonlinear_arith);
    assert((y + c) * (FULL + k) == y * (FULL + k) + c * (FULL + k)) by (nonlinear_arith);
}

} // verus!
