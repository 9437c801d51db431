use vstd::arithmetic::power2::{lemma_pow2_adds, lemma_pow2_pos, lemma_pow2_strictly_increases, pow2};
use vstd::prelude::*;

use crate::float_bits;
use crate::float_bits::{F64Bits, ONE};
use crate::float_error;
use crate::float_error::FULL;
use crate::float_math;
use crate::float_order;
use crate::float_round;
use crate::tick_math::error::MathError;
use crate::tick_math::fixed;
use crate::tick_math::fixed::FixedX18;

verus! {

/// The lowest tick: the grid is the full 16-bit range of an order id's tick.
pub const TICK_MIN: i16 = -32768;

/// The highest tick.
pub const TICK_MAX: i16 = 32767;

/// `ln(1.00005)`, `4.999875006249896e-5`, as the bits of a float.
pub const LN_TICK_BASE: u64 = 0x3f0a_36b7_f88b_3afe;

/// Direction in which a rate between two ticks is moved onto the grid.
#[derive(Debug, Clone, Copy, PartialEq, Eq, Structural)]
pub enum Rounding {
    /// Toward the lower tick, the conservative side for a long order.
    Floor,
    /// Toward the higher tick, the conservative side for a short order.
    Ceil,
}

/// Where the magnitude of a rate falls on the tick grid: the whole numbers of
/// ticks just below and just above it (equal on a grid point).
#[derive(Debug, Clone, Copy, PartialEq, Eq, Structural)]
pub struct GridPosition {
    pub below: i128,
    pub above: i128,
}

impl GridPosition {
    /// Both neighbours count ticks of a magnitude, in order.
    pub open spec fn wf(self) -> bool {
        0 <= self.below <= self.above
    }
}

/// The number of elementary `1.00005` steps between rate zero and a tick.
pub open spec fn exponent_of(tick: i16, tick_step: u8) -> int {
    (if tick >= 0 { tick as int } else { -tick }) * tick_step
}

/// The exponent of the rate formula: `|tick| * tick_step`.
pub fn tick_exponent(tick: i16, tick_step: u8) -> (r: u32)
    ensures
        r == exponent_of(tick, tick_step),
{
    let steps: u32 = if tick >= 0 { tick as u32 } else { (-(tick as i32)) as u32 };
    assert(steps * tick_step <= 32768 * 255) by (nonlinear_arith)
        requires
            0 <= steps <= 32768,
            0 <= tick_step <= 255,
    ;
    steps * tick_step as u32
}

/// What a tick is worth, given the magnitude `1.00005^(|tick| * tick_step) - 1`.
pub open spec fn rate_of_tick(tick: i16, tick_step: u8, magnitude: Option<FixedX18>) -> Result<
    FixedX18,
    MathError,
> {
    if tick_step == 0 {
        Err(MathError::InvalidTickStep(tick_step))
    } else if tick == 0 {
        Ok(FixedX18(0))
    } else {
        match magnitude {
            None => Err(MathError::InvalidTick(tick)),
            Some(m) => if tick > 0 {
                Ok(m)
            } else {
                Ok(FixedX18((-m.0) as i128))
            },
        }
    }
}

/// The magnitude of a tick's rate, `power - 1`, where it is finite.
pub open spec fn magnitude_of(power: F64Bits) -> Option<FixedX18> {
    let magnitude = float_math::difference(power, F64Bits(ONE));
    if !float_bits::finite(magnitude) || float_bits::less(magnitude, F64Bits(0)) {
        None
    } else {
        Some(fixed::from_float(magnitude))
    }
}

/// The magnitude of a tick's rate.
pub(crate) fn rate_magnitude(power: F64Bits) -> (r: Option<FixedX18>)
    ensures
        r == magnitude_of(power),
        r matches Some(m) ==> m.0 >= 0,
{
    let magnitude: F64Bits = power.minus(F64Bits(ONE));
    if !magnitude.is_finite() || magnitude.is_less(F64Bits(0)) {
        None
    } else {
        proof {
            lemma_from_float_keeps_sign(magnitude);
        }
        Some(FixedX18::from_f64(magnitude))
    }
}

/// What is not negative as a float is not negative as a fixed-point value.
pub proof fn lemma_from_float_keeps_sign(v: F64Bits)
    requires
        float_bits::finite(v),
        !float_bits::less(v, F64Bits(0)),
    ensures
        fixed::from_float(v).0 >= 0,
{
    let scale = float_math::of_integer(FixedX18::SCALE as int);
    let scaled = float_math::product(v, scale);
    float_math::lemma_of_integer(FixedX18::SCALE as int);
    float_math::lemma_product_sign(v, scale);
    float_math::lemma_whole_parts(scaled);
}

/// The rate at a tick. `power` is the float `1.00005^(|tick| * tick_step)`, with
/// the exponent as [`tick_exponent`] gives it; the tick gives the sign.
pub fn tick_to_rate(tick: i16, tick_step: u8, power: F64Bits) -> (r: Result<FixedX18, MathError>)
    ensures
        r == rate_of_tick(tick, tick_step, magnitude_of(power)),
{
    if tick_step == 0 {
        return Err(MathError::InvalidTickStep(tick_step));
    }
    if tick == 0 {
        return Ok(FixedX18::zero());
    }
    match rate_magnitude(power) {
        None => Err(MathError::InvalidTick(tick)),
        Some(m) => if tick > 0 {
            Ok(m)
        } else {
            Ok(FixedX18(-m.0))
        },
    }
}

/// The signed number of ticks that a rate of the given sign is moved to.
pub open spec fn rounded_ticks(negative: bool, position: GridPosition, rounding: Rounding) -> int {
    match rounding {
        Rounding::Floor => if negative {
            -position.above
        } else {
            position.below as int
        },
        Rounding::Ceil => if negative {
            -position.below
        } else {
            position.above as int
        },
    }
}

/// The tick that a rate is moved to.
pub open spec fn tick_of_rate(
    rate: FixedX18,
    tick_step: u8,
    rounding: Rounding,
    position: Option<GridPosition>,
) -> Result<i16, MathError> {
    if tick_step == 0 {
        Err(MathError::InvalidTickStep(tick_step))
    } else if rate.0 == 0 {
        Ok(0)
    } else {
        match position {
            None => Err(MathError::RateNotRepresentable(rate)),
            Some(p) => {
                let ticks = rounded_ticks(rate.0 < 0, p, rounding);
                if TICK_MIN <= ticks <= TICK_MAX {
                    Ok(ticks as i16)
                } else {
                    Err(MathError::RateNotRepresentable(rate))
                }
            },
        }
    }
}

/// The operand of a rate's logarithm: `|rate| + 1`.
pub open spec fn growth_of(rate: FixedX18) -> F64Bits {
    float_math::sum(float_bits::unsigned(fixed::to_float(rate)), F64Bits(ONE))
}

/// The operand of a rate's logarithm: `|rate| + 1`.
pub fn growth(rate: FixedX18) -> (r: F64Bits)
    ensures
        r == growth_of(rate),
{
    rate.to_f64().abs().plus(F64Bits(ONE))
}

/// Where a rate falls on the tick grid, from the logarithm of its growth:
/// divided by `ln(1.00005)` and by the tick step.
pub open spec fn position_of(log: F64Bits, tick_step: u8) -> Option<GridPosition> {
    let ticks = float_math::quotient(
        float_math::quotient(log, F64Bits(LN_TICK_BASE)),
        float_math::of_integer(tick_step as int),
    );
    if !float_bits::finite(ticks) {
        None
    } else {
        Some(
            GridPosition {
                below: float_math::saturated(
                    ticks,
                    float_math::floor_integer(ticks),
                    i128::MIN as int,
                    i128::MAX as int,
                ) as i128,
                above: float_math::saturated(
                    ticks,
                    float_math::ceil_integer(ticks),
                    i128::MIN as int,
                    i128::MAX as int,
                ) as i128,
            },
        )
    }
}

fn grid_position(log: F64Bits, tick_step: u8) -> (r: Option<GridPosition>)
    ensures
        r == position_of(log, tick_step),
{
    let ticks: F64Bits = log.over(F64Bits(LN_TICK_BASE)).over(F64Bits::of(tick_step as i128));
    if !ticks.is_finite() {
        return None;
    }
    Some(GridPosition { below: ticks.floored(), above: ticks.raised() })
}

/// The tick of a rate. `log` is the natural logarithm of the rate's [`growth`].
pub fn rate_to_tick(rate: FixedX18, tick_step: u8, rounding: Rounding, log: F64Bits) -> (r: Result<
    i16,
    MathError,
>)
    ensures
        r == tick_of_rate(rate, tick_step, rounding, position_of(log, tick_step)),
{
    if tick_step == 0 {
        return Err(MathError::InvalidTickStep(tick_step));
    }
    if rate.0 == 0 {
        return Ok(0);
    }
    match grid_position(log, tick_step) {
        None => Err(MathError::RateNotRepresentable(rate)),
        Some(p) => {
            let negative: bool = rate.0 < 0;
            let ticks: i128 = match rounding {
                Rounding::Floor => if negative {
                    p.above
                } else {
                    p.below
                },
                Rounding::Ceil => if negative {
                    p.below
                } else {
                    p.above
                },
            };
            if ticks > 0x8000 || ticks < -0x8000 {
                return Err(MathError::RateNotRepresentable(rate));
            }
            let tick: i128 = if negative {
                -ticks
            } else {
                ticks
            };
            if tick > TICK_MAX as i128 || tick < TICK_MIN as i128 {
                Err(MathError::RateNotRepresentable(rate))
            } else {
                Ok(tick as i16)
            }
        },
    }
}

/// The ticks around a rate: where a bid and where an ask would be posted.
pub fn rate_to_tick_bracket(rate: FixedX18, tick_step: u8, log: F64Bits) -> (r: Result<
    (i16, i16),
    MathError,
>)
    ensures
        match (
            tick_of_rate(rate, tick_step, Rounding::Floor, position_of(log, tick_step)),
            tick_of_rate(rate, tick_step, Rounding::Ceil, position_of(log, tick_step)),
        ) {
            (Ok(bid), Ok(ask)) => r == Ok::<(i16, i16), MathError>((bid, ask)),
            (Err(e), _) => r == Err::<(i16, i16), MathError>(e),
            (Ok(_), Err(e)) => r == Err::<(i16, i16), MathError>(e),
        },
{
    match rate_to_tick(rate, tick_step, Rounding::Floor, log) {
        Err(e) => Err(e),
        Ok(bid) => match rate_to_tick(rate, tick_step, Rounding::Ceil, log) {
            Err(e) => Err(e),
            Ok(ask) => Ok((bid, ask)),
        },
    }
}

/// A tick and its mirror image have opposite rates.
pub proof fn law_tick_rates_are_symmetric(tick: i16, tick_step: u8, power: F64Bits)
    requires
        tick != i16::MIN,
    ensures
        exponent_of((-tick) as i16, tick_step) == exponent_of(tick, tick_step),
        rate_of_tick(tick, tick_step, magnitude_of(power)) matches Ok(rate) ==> rate_of_tick(
            (-tick) as i16,
            tick_step,
            magnitude_of(power),
        ) == Ok::<FixedX18, MathError>(FixedX18((-rate.0) as i128)),
{
    if magnitude_of(power) is Some {
        lemma_from_float_keeps_sign(float_math::difference(power, F64Bits(ONE)));
    }
}

/// The step from one to the next float is a rate above zero.
proof fn lemma_least_rate()
    ensures
        fixed::from_float(F64Bits(0x3cb0_0000_0000_0000)).0 > 0,
{
    reveal(float_math::product);
    let v = F64Bits(0x3cb0_0000_0000_0000);
    let scale = float_math::of_integer(FixedX18::SCALE as int);
    let half = 0x10_0000_0000_0000int;
    float_math::lemma_of_integer(FixedX18::SCALE as int);
    float_math::lemma_of_integer(half);
    float_math::law_small_integers_are_exact(half);
    float_order::law_of_integer_keeps_order(half, FixedX18::SCALE as int);
    let least = float_math::of_integer(half);
    lemma_pow2_pos(1074);
    float_round::lemma_powers();
    float_round::lemma_multiple(970, half);
    lemma_pow2_adds(52, 970);
    lemma_pow2_adds(52, 1022);
    lemma_pow2_pos(1022);
    float_math::lemma_one();
    let u = float_math::unit();
    let p = pow2(1022) as int;
    let (s, w) = (float_math::size(scale), float_math::size(v));
    assert(w == p);
    if float_bits::mag(least) < float_bits::mag(scale) {
        float_round::lemma_multiple_ascends(float_bits::mag(least), float_bits::mag(scale));
    }
    assert(s >= half * u);
    assert(u * u <= (w * s) * 1) by (nonlinear_arith)
        requires
            s >= half * u,
            w == p,
            u == half * p,
            p > 0,
            u > 0,
    {
        assert(p * s >= p * (half * u));
        assert(p * (half * u) == (half * p) * u);
    }
    let scaled = float_math::product(v, scale);
    float_round::law_nearest_exists(w * s, u);
    float_round::law_rounding_keeps_order(u, 1, w * s, u);
    if float_bits::finite(scaled) {
        float_order::law_nearest_integer_keeps_order(F64Bits(ONE), scaled);
        float_math::law_small_integers_are_exact(1);
        assert(float_math::size(F64Bits(ONE)) == 1 * u);
        vstd::arithmetic::div_mod::lemma_fundamental_div_mod_converse(u, u, 1, 0);
    }
}

/// A rate has the sign of its tick: zero at tick zero, and on either side of it
/// wherever the power exceeds one.
pub proof fn law_rates_have_the_sign_of_their_tick(tick: i16, tick_step: u8, power: F64Bits)
    requires
        float_bits::less(F64Bits(ONE), power),
        rate_of_tick(tick, tick_step, magnitude_of(power)) is Ok,
    ensures
        ({
            let rate = rate_of_tick(tick, tick_step, magnitude_of(power))->Ok_0;
            &&& tick > 0 <==> rate.0 > 0
            &&& tick == 0 <==> rate.0 == 0
            &&& tick < 0 <==> rate.0 < 0
        }),
{
    if tick != 0 {
        let one = F64Bits(ONE);
        let next = F64Bits((ONE + 1) as u64);
        let step = F64Bits(0x3cb0_0000_0000_0000);
        lemma_least_rate();
        assert(float_math::difference(next, one) == step) by {
            reveal(float_math::sum);
            let half = 0x10_0000_0000_0000int;
            float_round::lemma_powers();
            float_round::lemma_multiple(1022, half);
            float_round::lemma_multiple(1022, half + 1);
            float_round::lemma_multiple(970, half);
            lemma_pow2_adds(52, 970);
            lemma_pow2_pos(1022);
            let p = pow2(1022) as int;
            assert((half + 1) * p - half * p == p) by (nonlinear_arith);
            float_math::lemma_rounded_exact(step.0 as int);
        }
        float_order::law_sum_keeps_order(next, power, float_math::negated(one));
        fixed::law_from_float_keeps_order(step, float_math::difference(power, one));
    }
}

/// Larger powers give rates further from zero: never nearer.
pub proof fn law_rates_follow_the_powers(smaller: F64Bits, larger: F64Bits)
    requires
        float_order::at_most(smaller, larger),
        magnitude_of(smaller) is Some,
        magnitude_of(larger) is Some,
    ensures
        0 <= magnitude_of(smaller)->Some_0.0 <= magnitude_of(larger)->Some_0.0,
{
    let c = float_math::negated(F64Bits(ONE));
    lemma_from_float_keeps_sign(float_math::difference(smaller, F64Bits(ONE)));
    float_order::law_sum_keeps_order(smaller, larger, c);
    fixed::law_from_float_keeps_order(
        float_math::difference(smaller, F64Bits(ONE)),
        float_math::difference(larger, F64Bits(ONE)),
    );
}

/// The neighbours on the grid of a logarithm that is not negative.
proof fn lemma_position(log: F64Bits, tick_step: u8)
    requires
        tick_step != 0,
        !float_bits::less(log, F64Bits(0)),
    ensures
        position_of(log, tick_step) matches Some(p) ==> p.wf(),
{
    let per_tick = F64Bits(LN_TICK_BASE);
    let step = float_math::of_integer(tick_step as int);
    let coarse = float_math::quotient(log, per_tick);
    float_math::lemma_of_integer(tick_step as int);
    float_math::lemma_quotient_sign(log, per_tick);
    float_math::lemma_quotient_sign(coarse, step);
    float_math::lemma_whole_parts(float_math::quotient(coarse, step));
}

/// The bid tick never lies above the ask tick, on either side of zero.
pub proof fn law_bracket_is_ordered(rate: FixedX18, tick_step: u8, log: F64Bits)
    requires
        !float_bits::less(log, F64Bits(0)),
        tick_of_rate(rate, tick_step, Rounding::Floor, position_of(log, tick_step)) is Ok,
        tick_of_rate(rate, tick_step, Rounding::Ceil, position_of(log, tick_step)) is Ok,
    ensures
        tick_of_rate(rate, tick_step, Rounding::Floor, position_of(log, tick_step))->Ok_0
            <= tick_of_rate(rate, tick_step, Rounding::Ceil, position_of(log, tick_step))->Ok_0,
{
    lemma_position(log, tick_step);
}

/// Mirrored rates get mirrored brackets: the bid of one is the opposite of the
/// ask of the other.
pub proof fn law_brackets_are_symmetric(rate: FixedX18, tick_step: u8, log: F64Bits)
    requires
        rate.0 != i128::MIN,
        !float_bits::less(log, F64Bits(0)),
        tick_of_rate(rate, tick_step, Rounding::Floor, position_of(log, tick_step)) is Ok,
        tick_of_rate(FixedX18((-rate.0) as i128), tick_step, Rounding::Ceil, position_of(log, tick_step))
            is Ok,
    ensures
        tick_of_rate(
            FixedX18((-rate.0) as i128),
            tick_step,
            Rounding::Ceil,
            position_of(log, tick_step),
        )->Ok_0 == -tick_of_rate(rate, tick_step, Rounding::Floor, position_of(log, tick_step))->Ok_0,
{
    lemma_position(log, tick_step);
}

/// A larger logarithm never gets a nearer tick.
pub proof fn law_ticks_follow_the_logarithms(
    rate: FixedX18,
    further: FixedX18,
    tick_step: u8,
    rounding: Rounding,
    smaller: F64Bits,
    larger: F64Bits,
)
    requires
        0 < rate.0,
        0 < further.0,
        !float_bits::less(smaller, F64Bits(0)),
        float_order::at_most(smaller, larger),
        tick_of_rate(rate, tick_step, rounding, position_of(smaller, tick_step)) is Ok,
        tick_of_rate(further, tick_step, rounding, position_of(larger, tick_step)) is Ok,
    ensures
        tick_of_rate(rate, tick_step, rounding, position_of(smaller, tick_step))->Ok_0 <= tick_of_rate(
            further,
            tick_step,
            rounding,
            position_of(larger, tick_step),
        )->Ok_0,
{
    let per_tick = F64Bits(LN_TICK_BASE);
    let step = float_math::of_integer(tick_step as int);
    let a = float_math::quotient(float_math::quotient(smaller, per_tick), step);
    let b = float_math::quotient(float_math::quotient(larger, per_tick), step);
    float_math::lemma_of_integer(tick_step as int);
    float_math::lemma_quotient_sign(smaller, per_tick);
    float_math::lemma_quotient_sign(float_math::quotient(smaller, per_tick), step);
    float_order::law_quotient_keeps_order(smaller, larger, per_tick);
    float_order::law_quotient_keeps_order(
        float_math::quotient(smaller, per_tick),
        float_math::quotient(larger, per_tick),
        step,
    );
    float_order::law_whole_numbers_keep_order(a, b);
}

/// A tick's own grid position brings the tick back, whichever way it is rounded.
pub proof fn law_tick_round_trip(tick: i16, tick_step: u8, magnitude: FixedX18, rounding: Rounding)
    requires
        tick_step != 0,
        magnitude.0 > 0,
    ensures
        ({
            let rate = rate_of_tick(tick, tick_step, Some(magnitude))->Ok_0;
            let steps = (if tick >= 0 { tick as int } else { -tick }) as i128;
            tick_of_rate(rate, tick_step, rounding, Some((GridPosition { below: steps, above: steps })))
                == Ok::<i16, MathError>(tick)
        }),
{
}

/// Whether a logarithm lies less than one tick away from that of a tick, by one
/// part in `2^20` of a tick at least.
pub open spec fn near_tick(log: F64Bits, tick: i16, tick_step: u8) -> bool {
    let one_tick = tick_step * float_math::size(F64Bits(LN_TICK_BASE));
    let own = exponent_of(tick, tick_step) * float_math::size(F64Bits(LN_TICK_BASE));
    &&& float_bits::finite(log)
    &&& float_error::within((float_math::value(log) - own) * 0x10_0000, one_tick * 0xf_ffff)
}

/// Where a logarithm near that of a tick falls on the grid: between the ticks
/// before and after.
proof fn lemma_near_position(log: F64Bits, n: int, tick_step: u8)
    requires
        tick_step != 0,
        1 <= n <= 0x8000,
        float_bits::finite(log),
        ({
            let one_tick = tick_step * float_math::size(F64Bits(LN_TICK_BASE));
            float_error::within((float_math::value(log) - n * one_tick) * 0x10_0000, one_tick * 0xf_ffff)
        }),
    ensures
        position_of(log, tick_step) matches Some(p) && n - 1 <= p.below <= p.above <= n + 1,
{
    let u = float_math::unit();
    let per_tick = F64Bits(LN_TICK_BASE);
    let step = float_math::of_integer(tick_step as int);
    let k = tick_step as int;
    let w = float_math::size(per_tick);
    let v = float_math::value(log);
    let e = FULL as int;
    lemma_pow2_pos(1074);
    lemma_pow2_pos(1023);
    vstd::arithmetic::power2::lemma2_to64();
    vstd::arithmetic::power2::lemma2_to64_rest();
    lemma_pow2_strictly_increases(80, 1074);
    lemma_pow2_strictly_increases(64, 1023);
    lemma_pow2_adds(64, 16);
    float_error::lemma_sizes(per_tick);
    float_error::lemma_sizes(log);
    let one = k * w;
    assert(one >= w) by (nonlinear_arith)
        requires
            one == k * w,
            k >= 1,
            w > 0,
    ;
    let own = n * one;
    assert(own >= one) by (nonlinear_arith)
        requires
            own == n * one,
            n >= 1,
            one > 0,
    ;
    assert(v > 0);
    assert(v * 0x10_0000 >= one);
    assert(v <= own + one);
    assert(float_order::positive(log));
    assert(float_math::size(log) == v);
    // Steps of the grid.
    let coarse = float_math::quotient(log, per_tick);
    assert(e * w <= v * u) by (nonlinear_arith)
        requires
            v * 0x10_0000 >= w,
            u >= 0x1_0000_0000_0000_0000_0000,
            w > 0,
            v > 0,
            e == 0x10_0000_0000_0000,
    {
        assert(v * u >= v * 0x1_0000_0000_0000_0000_0000);
    }
    assert(v <= w * float_error::cap()) by (nonlinear_arith)
        requires
            v <= own + one,
            own == n * one,
            one == k * w,
            n <= 0x8000,
            k <= 255,
            w > 0,
            one > 0,
            float_error::cap() >= 0x1_0000_0000_0000_0000,
    {
        assert(n * one <= 0x8000 * one);
        assert(k * w <= 255 * w);
        assert(w * float_error::cap() >= w * 0x1_0000_0000_0000_0000);
    }
    float_error::law_quotient_error(log, per_tick);
    // Ticks of the market.
    let ticks = float_math::quotient(coarse, step);
    float_math::lemma_of_integer(k);
    float_math::law_small_integers_are_exact(k);
    let q = float_math::size(coarse);
    let d = float_math::size(step);
    assert(d == k * u);
    float_error::lemma_sizes(coarse);
    lemma_coarse_bounds(v, w, q, u, k, n, d);
    float_error::law_quotient_error(coarse, step);
    float_error::lemma_sizes(ticks);
    let t = float_math::size(ticks);
    lemma_fine_bounds(v, w, q, t, u, k, n, d);
    float_math::lemma_whole_parts(ticks);
    vstd::arithmetic::div_mod::lemma_fundamental_div_mod(t, u);
    let whole = float_math::whole(ticks);
    let rest = float_math::fraction(ticks);
    assert(n - 1 <= whole <= n && (whole == n || rest > 0 || whole == n - 1)) by (nonlinear_arith)
        requires
            t == u * whole + rest,
            0 <= rest < u,
            (n - 1) * u < t,
            t < (n + 1) * u,
            u > 0,
    ;
}

/// The steps of a logarithm near a tick lie in the range that quotients keep
/// their precision in.
proof fn lemma_coarse_bounds(v: int, w: int, q: int, u: int, k: int, n: int, d: int)
    requires
        w > 0,
        v > 0,
        q > 0,
        1 <= k <= 255,
        1 <= n <= 0x8000,
        u >= 0x1_0000_0000_0000_0000_0000,
        d == k * u,
        v * 0x10_0000 >= k * w,
        v <= n * (k * w) + k * w,
        q * w * FULL <= v * u * (FULL + 1),
        v * u * FULL <= q * w * (FULL + 1),
        float_error::cap() >= 0x1_0000_0000_0000_0000,
    ensures
        FULL * d <= q * u,
        q <= d * float_error::cap(),
{
    let e = FULL as int;
    // The quotient is at least `k / 2^21` units.
    assert(q * 0x20_0000 >= k * u) by (nonlinear_arith)
        requires
            v * u * e <= q * w * (e + 1),
            v * 0x10_0000 >= k * w,
            w > 0,
            u > 0,
            q > 0,
            e == 0x10_0000_0000_0000,
    {
        assert((v * 0x10_0000) * (u * e) >= (k * w) * (u * e));
        assert((v * u * e) * 0x10_0000 <= (q * w * (e + 1)) * 0x10_0000);
        assert(w * (k * u * e) <= w * (q * (e + 1) * 0x10_0000));
        assert(k * u * e <= q * (e + 1) * 0x10_0000);
        assert(q * (e + 1) <= q * (2 * e));
        assert(e * (k * u) <= e * (q * 0x20_0000));
    }
    assert(e * d <= q * u) by (nonlinear_arith)
        requires
            q * 0x20_0000 >= k * u,
            d == k * u,
            u >= 0x1_0000_0000_0000_0000_0000,
            e == 0x10_0000_0000_0000,
            k >= 1,
            q > 0,
    {
        assert(q * u >= q * 0x1_0000_0000_0000_0000_0000);
        assert(q * 0x1_0000_0000_0000_0000_0000 >= (q * 0x20_0000) * e);
        assert((q * 0x20_0000) * e >= d * e);
    }
    assert(q <= d * float_error::cap()) by (nonlinear_arith)
        requires
            q * w * e <= v * u * (e + 1),
            v <= n * (k * w) + k * w,
            n <= 0x8000,
            d == k * u,
            w > 0,
            u > 0,
            k >= 1,
            v > 0,
            e == 0x10_0000_0000_0000,
            float_error::cap() >= 0x1_0000_0000_0000_0000,
    {
        assert(v <= 0x8001 * (k * w));
        assert(v * u <= (0x8001 * (k * w)) * u);
        assert(v * u * (e + 1) <= v * u * (2 * e));
        assert(e * (q * w) <= e * (2 * (v * u)));
        assert(q * w <= 2 * (v * u));
        assert(w * q <= w * (0x10002 * (k * u)));
        assert(q <= 0x10002 * d);
        assert(d > 0);
        assert(d * float_error::cap() >= d * 0x1_0000_0000_0000_0000);
    }
}

/// The two roundings on the way to ticks, taken together.
proof fn lemma_fine_bounds(v: int, w: int, q: int, t: int, u: int, k: int, n: int, d: int)
    requires
        w > 0,
        v > 0,
        q > 0,
        t > 0,
        1 <= k,
        1 <= n <= 0x8000,
        u > 0,
        d == k * u,
        float_error::within((v - n * (k * w)) * 0x10_0000, (k * w) * 0xf_ffff),
        q * w * FULL <= v * u * (FULL + 1),
        v * u * FULL <= q * w * (FULL + 1),
        t * d * FULL <= q * u * (FULL + 1),
        q * u * FULL <= t * d * (FULL + 1),
    ensures
        (n - 1) * u < t,
        t < (n + 1) * u,
{
    let e = FULL as int;
    let c = k * w;
    assert(c > 0) by (nonlinear_arith)
        requires
            c == k * w,
            k >= 1,
            w > 0,
    ;
    let vu = v * u;
    assert(vu > 0) by (nonlinear_arith)
        requires
            vu == v * u,
            v > 0,
            u > 0,
    ;
    // t * k * w lies within three parts in 2^52 of v * u.
    let x = t * c;
    assert(t * k * e <= q * (e + 1) && q * e <= t * k * (e + 1)) by (nonlinear_arith)
        requires
            t * d * e <= q * u * (e + 1),
            q * u * e <= t * d * (e + 1),
            d == k * u,
            u > 0,
    {
        assert(u * (t * k * e) <= u * (q * (e + 1)));
        assert(u * (q * e) <= u * (t * k * (e + 1)));
    }
    let tk = t * k;
    assert(x == tk * w) by (nonlinear_arith)
        requires
            x == t * c,
            c == k * w,
            tk == t * k,
    ;
    assert(x * e <= vu * (e + 3)) by (nonlinear_arith)
        requires
            tk * e <= q * (e + 1),
            q * w * e <= vu * (e + 1),
            x == tk * w,
            w > 0,
            vu > 0,
            e == 0x10_0000_0000_0000,
    {
        assert((tk * e) * w <= (q * (e + 1)) * w);
        assert((q * (e + 1)) * w == (q * w) * (e + 1));
        assert((x * e) * e <= ((q * w) * (e + 1)) * e);
        assert(((q * w) * (e + 1)) * e == (q * w * e) * (e + 1));
        assert((q * w * e) * (e + 1) <= (vu * (e + 1)) * (e + 1));
        assert((e + 1) * (e + 1) <= e * (e + 3));
        assert(vu * ((e + 1) * (e + 1)) <= vu * (e * (e + 3)));
        assert(e * (x * e) <= e * (vu * (e + 3)));
    }
    assert(vu * e <= x * (e + 3)) by (nonlinear_arith)
        requires
            q * e <= tk * (e + 1),
            vu * e <= q * w * (e + 1),
            x == tk * w,
            w > 0,
            vu > 0,
            e == 0x10_0000_0000_0000,
    {
        assert((q * e) * w <= (tk * (e + 1)) * w);
        assert((vu * e) * e <= (q * w * (e + 1)) * e);
        assert((q * w * (e + 1)) * e == ((q * e) * w) * (e + 1));
        assert(((q * e) * w) * (e + 1) <= (x * (e + 1)) * (e + 1));
        assert((e + 1) * (e + 1) <= e * (e + 3));
        assert(x > 0);
        assert(x * ((e + 1) * (e + 1)) <= x * (e * (e + 3)));
        assert(e * (vu * e) <= e * (x * (e + 3)));
    }
    let nc = n * c;
    assert(v * 0x10_0000 <= nc * 0x10_0000 + c * 0xf_ffff);
    assert(v * 0x10_0000 >= nc * 0x10_0000 - c * 0xf_ffff);
    // Against the neighbouring ticks.
    let cu = c * u;
    assert(cu > 0) by (nonlinear_arith)
        requires
            cu == c * u,
            c > 0,
            u > 0,
    ;
    assert(vu * 0x10_0000 <= (n * cu) * 0x10_0000 + cu * 0xf_ffff && vu * 0x10_0000 >= (n * cu) * 0x10_0000
        - cu * 0xf_ffff) by (nonlinear_arith)
        requires
            v * 0x10_0000 <= nc * 0x10_0000 + c * 0xf_ffff,
            v * 0x10_0000 >= nc * 0x10_0000 - c * 0xf_ffff,
            nc == n * c,
            vu == v * u,
            cu == c * u,
            u > 0,
    {
        assert((v * 0x10_0000) * u <= (nc * 0x10_0000 + c * 0xf_ffff) * u);
        assert((v * 0x10_0000) * u >= (nc * 0x10_0000 - c * 0xf_ffff) * u);
    }
    assert(x < (n + 1) * cu && x > (n - 1) * cu) by (nonlinear_arith)
        requires
            x * e <= vu * (e + 3),
            vu * e <= x * (e + 3),
            vu * 0x10_0000 <= (n * cu) * 0x10_0000 + cu * 0xf_ffff,
            vu * 0x10_0000 >= (n * cu) * 0x10_0000 - cu * 0xf_ffff,
            1 <= n <= 0x8000,
            cu > 0,
            x > 0,
            e == 0x10_0000_0000_0000,
    {
        let m = n * cu;
        assert(cu <= m <= 0x8000 * cu);
        assert((n + 1) * cu == m + cu);
        assert((n - 1) * cu == m - cu);
        assert(x * e * 0x10_0000 <= (vu * 0x10_0000) * (e + 3));
        assert((vu * 0x10_0000) * e <= x * 0x10_0000 * (e + 3));
    }
    assert(t < (n + 1) * u && t > (n - 1) * u) by (nonlinear_arith)
        requires
            x == t * c,
            x < (n + 1) * cu,
            x > (n - 1) * cu,
            cu == c * u,
            c > 0,
    {
        assert(c * t < c * ((n + 1) * u));
        assert(c * t > c * ((n - 1) * u));
    }
}

/// A tick comes back from its rate up to one tick, whichever way it is rounded,
/// wherever the power exceeds one and the logarithm of the rate's growth is less
/// than one tick off.
pub proof fn law_tick_round_trip_within_one(
    tick: i16,
    tick_step: u8,
    power: F64Bits,
    log: F64Bits,
    rounding: Rounding,
)
    requires
        tick_step != 0,
        -0x7fff <= tick <= 0x7ffe,
        float_bits::less(F64Bits(ONE), power),
        rate_of_tick(tick, tick_step, magnitude_of(power)) is Ok,
        near_tick(log, tick, tick_step),
    ensures
        ({
            let rate = rate_of_tick(tick, tick_step, magnitude_of(power))->Ok_0;
            tick_of_rate(rate, tick_step, rounding, position_of(log, tick_step)) matches Ok(back) && tick - 1
                <= back <= tick + 1
        }),
{
    law_rates_have_the_sign_of_their_tick(tick, tick_step, power);
    if tick != 0 {
        let n = if tick > 0 {
            tick as int
        } else {
            -tick
        };
        let w = float_math::size(F64Bits(LN_TICK_BASE));
        assert((n * tick_step) * w == n * (tick_step * w)) by (nonlinear_arith);
        lemma_near_position(log, n, tick_step);
    }
}

} // verus!
