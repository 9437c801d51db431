use boros_mm::float_bits::F64Bits;
use boros_mm::tick_math::math::{mul_div_approx, mul_div_trunc, u128_wide_mul};
use boros_mm::tick_math::{
    growth, mul3_div_floor_u32, mul3_div_up_u32, mul_div_ceil, mul_div_down, mul_div_floor, mul_div_up, rate_to_tick,
    rate_to_tick_bracket, tick_exponent, tick_to_rate, FixedX18, MathError, Rounding, TICK_MAX,
};

const TICK_BASE: f64 = 1.00005;

fn bits(v: f64) -> F64Bits {
    F64Bits(v.to_bits())
}

fn fx(v: f64) -> FixedX18 {
    FixedX18::from_f64(F64Bits(v.to_bits()))
}

fn to_f64(v: FixedX18) -> f64 {
    f64::from_bits(v.to_f64().0)
}

fn rate_of(tick: i16, tick_step: u8) -> Result<FixedX18, MathError> {
    tick_to_rate(tick, tick_step, bits(TICK_BASE.powf(tick_exponent(tick, tick_step) as f64)))
}

fn log_of(rate: FixedX18) -> F64Bits {
    bits(f64::from_bits(growth(rate).0).ln())
}

fn tick_of(rate: FixedX18, tick_step: u8, rounding: Rounding) -> Result<i16, MathError> {
    rate_to_tick(rate, tick_step, rounding, log_of(rate))
}

fn bracket_of(rate: FixedX18, tick_step: u8) -> Result<(i16, i16), MathError> {
    rate_to_tick_bracket(rate, tick_step, log_of(rate))
}

#[test]
fn mul3_div_up_exact() {
    assert_eq!(mul3_div_up_u32(2_000_000_000_000_000_000, 3_000_000_000_000_000_000, 4, 4_000_000_000_000_000_000).unwrap(), 6_000_000_000_000_000_000);
}

#[test]
fn mul3_div_up_rounds_up_on_remainder() {
    assert_eq!(mul3_div_up_u32(1, 1, 1, 1_000_000_000_000_000_000).unwrap(), 1);
}

#[test]
fn mul3_div_up_zero_seconds_is_zero() {
    assert_eq!(mul3_div_up_u32(1_000_000_000_000_000_000, 1_000_000_000_000_000_000, 0, 1_000_000_000_000_000_000).unwrap(), 0);
}

#[test]
fn mul3_div_floor_matches_two_step_when_exact() {
    let a = 2_000_000_000_000_000_000i128;
    let b = 3_000_000_000_000_000_000i128;
    let d = 4_000_000_000_000_000_000i128;
    assert_eq!(mul3_div_floor_u32(a, b, 4, d).unwrap(), 6_000_000_000_000_000_000);
}

#[test]
fn mul3_div_floor_zero_seconds_is_zero() {
    assert_eq!(mul3_div_floor_u32(1_000_000_000_000_000_000, 1_000_000_000_000_000_000, 0, 1_000_000_000_000_000_000).unwrap(), 0);
}

#[test]
fn mul3_div_floor_single_division_differs_from_double_rounding() {
    let a = 1_000_000_000_000_000_003i128; // slightly more than 1.0
    let b = 1_000_000_000_000_000_003i128;
    let d = 1_000_000_000_000_000_000i128;
    let c: u32 = 3;

    let single = mul3_div_floor_u32(a, b, c, d).unwrap();
    let step1 = mul_div_floor(a, b, d).unwrap();
    let double = mul_div_floor(step1, c as i128, d).unwrap();
    assert_ne!(single, double, "single-division and double-rounding paths must diverge for this input, or the test doesn't prove anything");
}

#[test]
fn mul3_div_floor_exercises_third_limb() {
    let huge = i128::MAX / 2; // still leaves room for the sign-free unsigned_abs multiply
    let d = 1_000_000_000_000_000_000i128;
    let result = mul3_div_floor_u32(huge, huge, u32::MAX, d);
    match result {
        Ok(_) => {} // fits, fine
        Err(MathError::Overflow) => {} // correctly detected as too large for i128, fine
        Err(e) => panic!("unexpected error: {e:?}"),
    }
}

#[test]
fn mul3_div_floor_negative_rounds_toward_negative_infinity() {
    let a = -1i128;
    let b = 1i128;
    let d = 1_000_000_000_000_000_000i128;
    assert_eq!(mul3_div_floor_u32(a, b, 1, d).unwrap(), -1);
}

#[test]
fn mul3_div_floor_rejects_nonpositive_divisor() {
    assert_eq!(mul3_div_floor_u32(1, 1, 1, 0), Err(MathError::DivisionByZero));
    assert_eq!(mul3_div_floor_u32(1, 1, 1, -1), Err(MathError::DivisionByZero));
}

#[test]
fn wide_mul_identity() {
    let (hi, lo) = u128_wide_mul(1, 1);
    assert_eq!((hi, lo), (0, 1));
}

#[test]
fn wide_mul_max() {
    let (hi, lo) = u128_wide_mul(u128::MAX, u128::MAX);
    assert_eq!(hi, u128::MAX - 1, "hi mismatch");
    assert_eq!(lo, 1, "lo mismatch");
}

#[test]
fn wide_mul_round_numbers() {
    let base = 1u128 << 64;
    let (hi, lo) = u128_wide_mul(base, base);
    assert_eq!(hi, 1);
    assert_eq!(lo, 0);
}

#[test]
fn mul_div_approx_basic() {
    let r = mul_div_approx(3, 4, 6).unwrap();
    assert_eq!(r, 2);
}

#[test]
fn mul_div_approx_negative() {
    let r = mul_div_approx(-3, 4, 6).unwrap();
    assert_eq!(r, -2);
}

#[test]
fn mul_div_approx_div_zero() {
    assert_eq!(mul_div_approx(1, 1, 0), Err(MathError::DivisionByZero));
}

#[test]
fn mul_div_floor_exact_positive() {
    assert_eq!(mul_div_floor(3_000_000_000_000_000_000, 2_000_000_000_000_000_000, 1_000_000_000_000_000_000).unwrap(), 6_000_000_000_000_000_000);
}

#[test]
fn mul_div_floor_negative_exact_no_remainder() {
    let x = -1_500_000_000_000_000_000i128;
    let y = 100_000_000_000_000_000i128;
    assert_eq!(mul_div_floor(x, y, 1_000_000_000_000_000_000).unwrap(), -150_000_000_000_000_000);
}

#[test]
fn mul_div_floor_rounds_toward_negative_infinity() {
    assert_eq!(mul_div_floor(-1, 1, 1_000_000_000_000_000_000).unwrap(), -1);
    assert_eq!(mul_div_floor(1, -1, 1_000_000_000_000_000_000).unwrap(), -1);
}

#[test]
fn mul_div_floor_positive_truncates_down() {
    assert_eq!(mul_div_floor(1, 1, 1_000_000_000_000_000_000).unwrap(), 0);
}

#[test]
fn mul_div_ceil_rounds_toward_positive_infinity() {
    assert_eq!(mul_div_ceil(1, 1, 1_000_000_000_000_000_000).unwrap(), 1);
}

#[test]
fn mul_div_ceil_negative_truncates_toward_zero() {
    assert_eq!(mul_div_ceil(-1, 1, 1_000_000_000_000_000_000).unwrap(), 0);
    assert_eq!(mul_div_ceil(1, -1, 1_000_000_000_000_000_000).unwrap(), 0);
}

#[test]
fn mul_div_floor_ceil_agree_on_exact_division() {
    let a = 7_000_000_000_000_000_000i128;
    let b = 1_000_000_000_000_000_000i128;
    let d = 1_000_000_000_000_000_000i128;
    assert_eq!(mul_div_floor(a, b, d).unwrap(), mul_div_ceil(a, b, d).unwrap());
}

#[test]
fn mul_div_floor_rejects_nonpositive_divisor() {
    assert_eq!(mul_div_floor(1, 1, 0), Err(MathError::DivisionByZero));
    assert_eq!(mul_div_floor(1, 1, -1), Err(MathError::DivisionByZero));
}

#[test]
fn mul_div_floor_zero_operand_is_zero() {
    assert_eq!(mul_div_floor(0, 12345, 1_000_000_000_000_000_000).unwrap(), 0);
    assert_eq!(mul_div_ceil(0, 12345, 1_000_000_000_000_000_000).unwrap(), 0);
}

#[test]
fn mul_div_trunc_negative_truncates_toward_zero() {
    assert_eq!(mul_div_trunc(-1, 1, 1_000_000_000_000_000_000).unwrap(), 0);
    assert_eq!(mul_div_trunc(1, -1, 1_000_000_000_000_000_000).unwrap(), 0);
}

#[test]
fn mul_div_trunc_positive_matches_floor() {
    assert_eq!(mul_div_trunc(1, 1, 1_000_000_000_000_000_000).unwrap(), mul_div_floor(1, 1, 1_000_000_000_000_000_000).unwrap());
}

#[test]
fn mul_div_trunc_matches_ceil_for_negative_results() {
    let (a, b, d) = (-1i128, 1i128, 1_000_000_000_000_000_000i128);
    assert_eq!(mul_div_trunc(a, b, d).unwrap(), mul_div_ceil(a, b, d).unwrap());
}

#[test]
fn mul_div_trunc_differs_from_floor_by_one_with_negative_remainder() {
    let (a, b, d) = (-3i128, 1i128, 2i128);
    let floor = mul_div_floor(a, b, d).unwrap();
    let trunc = mul_div_trunc(a, b, d).unwrap();
    assert_eq!(floor, -2, "floor(-1.5) should round further from zero");
    assert_eq!(trunc, -1, "trunc(-1.5) should round toward zero");
    assert_eq!(trunc - floor, 1, "trunc must be exactly one unit closer to zero than floor");
}

#[test]
fn mul_div_trunc_exact_division_agrees_with_floor_and_ceil() {
    let a = 7_000_000_000_000_000_000i128;
    let b = 1_000_000_000_000_000_000i128;
    let d = 1_000_000_000_000_000_000i128;
    let result = mul_div_trunc(a, b, d).unwrap();
    assert_eq!(result, mul_div_floor(a, b, d).unwrap());
    assert_eq!(result, mul_div_ceil(a, b, d).unwrap());
}

#[test]
fn mul_div_trunc_rejects_nonpositive_divisor() {
    assert_eq!(mul_div_trunc(1, 1, 0), Err(MathError::DivisionByZero));
    assert_eq!(mul_div_trunc(1, 1, -1), Err(MathError::DivisionByZero));
}

#[test]
fn mul_div_trunc_zero_operand_is_zero() {
    assert_eq!(mul_div_trunc(0, 12345, 1_000_000_000_000_000_000).unwrap(), 0);
}

#[test]
fn mul_div_up_exact() {
    assert_eq!(mul_div_up(3_000_000_000_000_000_000, 2_000_000_000_000_000_000, 1_000_000_000_000_000_000).unwrap(), 6_000_000_000_000_000_000);
}

#[test]
fn mul_div_up_rounds_up_on_remainder() {
    assert_eq!(mul_div_up(1, 1, 1_000_000_000_000_000_000).unwrap(), 1);
}

#[test]
fn mul_div_down_truncates() {
    assert_eq!(mul_div_down(1, 1, 1_000_000_000_000_000_000).unwrap(), 0);
}

#[test]
fn mul_div_up_down_agree_on_exact_division() {
    let x = 7_000_000_000_000_000_000u128;
    let y = 1_000_000_000_000_000_000u128;
    let d = 1_000_000_000_000_000_000u128;
    assert_eq!(mul_div_up(x, y, d).unwrap(), mul_div_down(x, y, d).unwrap());
}

#[test]
fn mul_div_up_zero_operand_is_zero() {
    assert_eq!(mul_div_up(0, 12345, 1_000_000_000_000_000_000).unwrap(), 0);
    assert_eq!(mul_div_down(0, 12345, 1_000_000_000_000_000_000).unwrap(), 0);
}

#[test]
fn mul_div_up_div_zero() {
    assert_eq!(mul_div_up(1, 1, 0), Err(MathError::DivisionByZero));
    assert_eq!(mul_div_down(1, 1, 0), Err(MathError::DivisionByZero));
}

#[test]
fn mul_div_detects_quotient_overflow() {
    let huge = i128::MAX;
    assert_eq!(mul_div_floor(huge, huge, 1), Err(MathError::Overflow));
    assert_eq!(mul_div_up(u128::MAX, u128::MAX, 1), Err(MathError::Overflow));
}

#[test]
fn exact_and_approx_agree_within_f64_tolerance() {
    let a = 1_234_567_890_123_456_789i128;
    let b = 987_654_321_098_765_432i128;
    let d = 1_000_000_000_000_000_000i128;

    let exact = mul_div_floor(a, b, d).unwrap();
    let approx = mul_div_approx(a, b, d).unwrap();

    let diff = (exact - approx).abs();
    assert!(diff < 10_000, "exact={exact} approx={approx} diff={diff}");
}

fn approx_eq(a: f64, b: f64, tol: f64) -> bool {
    (a - b).abs() < tol
}

#[test]
fn zero_tick_is_zero_rate() {
    assert_eq!(rate_of(0, 1).unwrap(), FixedX18::zero());
    assert_eq!(rate_of(0, 2).unwrap(), FixedX18::zero());
}

#[test]
fn tick_step2_100() {
    let rate = to_f64(rate_of(100, 2).unwrap());
    assert!(approx_eq(rate, 0.010049914580, 1e-8), "got {rate}");
}

#[test]
fn negative_tick_is_negative_rate() {
    let pos = to_f64(rate_of(100, 2).unwrap());
    let neg = to_f64(rate_of(-100, 2).unwrap());
    assert!(approx_eq(pos, -neg, 1e-18), "symmetry broken: {pos} vs {neg}");
}

#[test]
fn a_rate_has_the_sign_of_its_tick() {
    for tick in [1_i16, 2, 50, 3000] {
        assert!(rate_of(tick, 1).unwrap().is_positive());
        assert!(rate_of(-tick, 1).unwrap().is_negative());
    }
    assert!(rate_of(0, 1).unwrap().is_zero());
    // The least power above one gives the least rate above zero.
    let next = bits(f64::from_bits(1.0_f64.to_bits() + 1));
    assert_eq!(boros_mm::tick_math::tick_to_rate(1, 1, next), Ok(FixedX18::raw(222)));
}

#[test]
fn roundtrip_positive() {
    let tick_in: i16 = 500;
    let rate = rate_of(tick_in, 2).unwrap();
    let tick_out = tick_of(rate, 2, Rounding::Floor).unwrap();
    assert!((tick_in - tick_out).abs() <= 1, "roundtrip drift: {tick_in} → {tick_out}");
}

#[test]
fn roundtrip_negative() {
    let tick_in: i16 = -500;
    let rate = rate_of(tick_in, 2).unwrap();
    let tick_out = tick_of(rate, 2, Rounding::Ceil).unwrap();
    assert!((tick_in - tick_out).abs() <= 1, "roundtrip drift: {tick_in} → {tick_out}");
}

#[test]
fn bracket_gives_floor_leq_ceil() {
    let rate = fx(0.05);
    let (bid, ask) = bracket_of(rate, 2).unwrap();
    assert!(bid <= ask);
}

#[test]
fn invalid_tick_step_zero() {
    assert!(rate_of(1, 0).is_err());
    assert!(tick_of(FixedX18::one(), 0, Rounding::Floor).is_err());
}

#[test]
fn max_tick_step1() {
    let rate = to_f64(rate_of(TICK_MAX, 1).unwrap());
    assert!(rate > 4.0 && rate < 5.0, "unexpected max rate: {rate}");
}

#[test]
fn from_integer_roundtrip() {
    let x = FixedX18::from_integer(5);
    assert_eq!(x.inner(), 5 * FixedX18::SCALE);
}

#[test]
fn add_sub_exact() {
    let a = fx(1.5);
    let b = fx(0.5);
    assert_eq!(to_f64(a + b), 2.0);
    assert_eq!(to_f64(a - b), 1.0);
}

#[test]
fn mul_fixed_basic() {
    let a = fx(0.1);
    let result = a.mul_fixed(a).unwrap();
    let diff = (to_f64(result) - 0.01).abs();
    assert!(diff < 1e-12, "expected ~0.01, got {}", to_f64(result));
}

#[test]
fn neg_rate_arithmetic() {
    let r = fx(-0.05);
    assert!(r.is_negative());
    assert_eq!(to_f64(-r), 0.05);
}

#[test]
fn mul_floor_vs_mul_ceil_differ_on_negative_remainder() {
    let x = FixedX18::raw(-1);
    let y = FixedX18::raw(1);
    assert_eq!(x.mul_floor(y).unwrap(), FixedX18::raw(-1));
    assert_eq!(x.mul_ceil(y).unwrap(), FixedX18::raw(0));
}

#[test]
fn mul_floor_matches_exact_expectation() {
    let x = fx(-1.5);
    let y = fx(0.1);
    assert_eq!(x.mul_floor(y).unwrap(), FixedX18::raw(-150_000_000_000_000_000));
    assert_eq!(x.mul_ceil(y).unwrap(), FixedX18::raw(-150_000_000_000_000_000));
}

#[test]
fn subtraction_undoes_addition_even_across_the_wrap() {
    let a = FixedX18::raw(i128::MAX);
    let b = FixedX18::raw(5);
    assert_eq!(a + b, FixedX18::raw(i128::MIN + 4));
    assert_eq!((a + b) - b, a);
    assert_eq!(a.checked_add(b), None);
    assert_eq!(FixedX18::raw(i128::MIN).checked_sub(b), None);
    assert_eq!(b.checked_sub(FixedX18::raw(7)), Some(FixedX18::raw(-2)));
}

#[test]
fn assigning_operators_match_the_plain_ones() {
    let mut a = fx(1.5);
    a += fx(0.25);
    assert_eq!(a, fx(1.75));
    a -= fx(2.0);
    assert_eq!(a, fx(-0.25));
    assert_eq!(a.abs(), fx(0.25));
    assert_eq!(a.signum(), -1);
    assert_eq!(a.max(FixedX18::one()), FixedX18::one());
    assert_eq!(a.min(FixedX18::neg_one()), FixedX18::neg_one());
    assert_eq!(FixedX18::default(), FixedX18::zero());
    assert_eq!(FixedX18::from(3i64), FixedX18::from_integer(3));
    assert_eq!(FixedX18::from(-3i32), FixedX18::from_integer(-3));
}

#[test]
fn floor_and_ceil_bracket_the_exact_product() {
    let x = FixedX18::raw(7);
    let y = FixedX18::raw(-500_000_000_000_000_000);
    let floor = x.mul_floor(y).unwrap();
    let ceil = x.mul_ceil(y).unwrap();
    assert_eq!(floor, FixedX18::raw(-4));
    assert_eq!(ceil, FixedX18::raw(-3));
    assert_eq!(x.mul_down(y).unwrap(), FixedX18::raw(-3));
}

#[test]
fn widening_product_holds_both_limbs() {
    let (hi, lo) = FixedX18::raw(i128::MAX).widening_inner(FixedX18::raw(4));
    assert_eq!((hi, lo), (1, u128::MAX - 3));
}

#[test]
fn dividing_once_never_falls_below_dividing_first() {
    let n = 1_999_999_999_999_999_999i128;
    let d = 1_000_000_000_000_000_000i128;
    assert_eq!(mul_div_floor(n, 1, d).unwrap() * 3, 3);
    assert_eq!(mul3_div_floor_u32(n, 1, 3, d).unwrap(), 5);
}

#[test]
fn a_divisor_beyond_half_the_range_divides_exactly() {
    assert_eq!(mul_div_down(u128::MAX, 2, u128::MAX), Ok(2));
    assert_eq!(mul_div_down(u128::MAX, u128::MAX - 1, u128::MAX), Ok(u128::MAX - 1));
    assert_eq!(mul_div_up(u128::MAX, u128::MAX - 2, u128::MAX - 1), Ok(u128::MAX - 1));
    assert_eq!(mul3_div_up_u32(u128::MAX, 3, 2, u128::MAX), Ok(6));
    assert_eq!(mul3_div_up_u32(u128::MAX, u128::MAX, u32::MAX, 1), Err(MathError::Overflow));
    assert_eq!(mul3_div_up_u32(1, 1, 1, 0), Err(MathError::DivisionByZero));
}

#[test]
fn the_most_negative_quotient_is_an_overflow() {
    assert_eq!(mul_div_floor(i128::MIN, 1, 1), Err(MathError::Overflow));
    assert_eq!(mul_div_floor(i128::MIN + 1, 1, 1), Ok(i128::MIN + 1));
    assert_eq!(mul_div_ceil(i128::MAX, 2, 1), Err(MathError::Overflow));
    assert_eq!(mul_div_trunc(i128::MAX, 2, 1), Err(MathError::Overflow));
}

#[test]
fn an_approximate_quotient_out_of_range_is_an_overflow() {
    assert_eq!(mul_div_approx(i128::MAX, i128::MAX, 1), Err(MathError::Overflow));
    assert_eq!(mul_div_approx(i128::MAX, 1, 1), Ok(i128::MAX));
    assert_eq!(mul_div_approx(i128::MIN, 1, 1), Ok(i128::MIN));
    assert_eq!(mul_div_approx(-7, 1, 2), Ok(-3));
}

#[test]
fn a_tick_without_a_finite_rate_is_invalid() {
    assert_eq!(tick_to_rate(7, 1, bits(f64::INFINITY)), Err(MathError::InvalidTick(7)));
    assert_eq!(tick_to_rate(7, 1, bits(f64::NAN)), Err(MathError::InvalidTick(7)));
    assert_eq!(tick_to_rate(7, 1, bits(0.5)), Err(MathError::InvalidTick(7)));
    assert_eq!(tick_to_rate(0, 1, bits(f64::NAN)), Ok(FixedX18::zero()));
    assert_eq!(tick_to_rate(7, 0, bits(1.1)), Err(MathError::InvalidTickStep(0)));
    assert_eq!(tick_to_rate(-7, 1, bits(1.5)), Ok(fx(-0.5)));
}

#[test]
fn a_rate_beyond_the_grid_is_not_representable() {
    let rate = fx(1_000_000.0);
    assert_eq!(tick_of(rate, 1, Rounding::Floor), Err(MathError::RateNotRepresentable(rate)));
    assert_eq!(rate_to_tick(rate, 1, Rounding::Ceil, bits(f64::NAN)), Err(MathError::RateNotRepresentable(rate)));
    assert_eq!(rate_to_tick(rate, 1, Rounding::Ceil, bits(f64::INFINITY)), Err(MathError::RateNotRepresentable(rate)));
    assert_eq!(tick_of(FixedX18::zero(), 1, Rounding::Floor), Ok(0));
}

#[test]
fn floats_and_fixed_point_values_convert_as_the_hardware_does() {
    for v in [0.0, -0.0, 1.0, -1.0, 0.1, -0.05, 1e-18, 4.9e-19, 5.1e-19, 1.5e19, -1.7e20, 1e300, 123_456.789] {
        assert_eq!(fx(v).inner(), (v * 1e18).round() as i128, "{v}");
    }
    for raw in [0i128, 1, -1, 999, 1_000_000_000_000_000_000, -123_456_789_012_345_678_901, i128::MAX, i128::MIN] {
        assert_eq!(to_f64(FixedX18::raw(raw)), raw as f64 / 1e18, "{raw}");
    }
}

#[test]
fn approximate_products_and_quotients_keep_to_floats() {
    let a = fx(2.5);
    let b = fx(0.5);
    assert_eq!(a.mul_fixed(b), Ok(fx(1.25)));
    assert_eq!(a.mul_fixed_unchecked(b), fx(1.25));
    assert_eq!(a.mul_raw(4_000_000_000_000_000_000), Ok(fx(10.0)));
    assert_eq!(a.div_fixed(b), Ok(fx(5.0)));
    assert_eq!(a.div_fixed(FixedX18::zero()), Err(MathError::DivisionByZero));
    assert_eq!(FixedX18::raw(i128::MAX).mul_fixed(FixedX18::raw(i128::MAX)), Err(MathError::Overflow));
}

#[test]
fn a_saturated_rate_stays_symmetric() {
    let power = bits(1e60);
    assert_eq!(tick_to_rate(9, 1, power), Ok(FixedX18::raw(i128::MAX)));
    assert_eq!(tick_to_rate(-9, 1, power), Ok(FixedX18::raw(-i128::MAX)));
}

#[test]
fn order_survives_the_way_through_floats() {
    let mut last = FixedX18::raw(i128::MIN);
    for raw in [-7_000_000_000_000_000_001i128, -7_000_000_000_000_000_000, -1, 0, 1, 3, 9_007_199_254_740_993] {
        let back = FixedX18::from_f64(FixedX18::raw(raw).to_f64());
        assert!(last <= back, "{raw}");
        last = back;
    }
}

#[test]
fn rounding_goes_to_the_lower_and_the_higher_tick_on_both_sides_of_zero() {
    let rate = fx(0.05);
    let (bid, ask) = bracket_of(rate, 2).unwrap();
    let (negative_bid, negative_ask) = bracket_of(-rate, 2).unwrap();
    assert_eq!((bid, ask), (487, 488));
    assert_eq!((negative_bid, negative_ask), (-488, -487));
    assert_eq!(tick_of(-rate, 2, Rounding::Floor), Ok(-488));
    assert_eq!(tick_of(-rate, 2, Rounding::Ceil), Ok(-487));
}

#[test]
fn the_exponent_of_a_tick_is_its_distance_in_steps() {
    assert_eq!(tick_exponent(-100, 2), 200);
    assert_eq!(tick_exponent(i16::MIN, 255), 32_768 * 255);
}

#[test]
fn rates_grow_with_the_tick() {
    let mut last = FixedX18::raw(i128::MIN);
    for tick in [-32_768i16, -500, -1, 0, 1, 2, 500, 20_000, 32_767] {
        let rate = rate_of(tick, 2).unwrap();
        assert!(last < rate, "at {tick}");
        last = rate;
    }
}

#[test]
fn ticks_grow_with_the_rate() {
    let mut last = i16::MIN;
    for rate in [-2.0, -0.05, -0.0001, 0.0, 0.00001, 0.00007, 0.05, 2.0] {
        for rounding in [Rounding::Floor, Rounding::Ceil] {
            let tick = tick_of(fx(rate), 1, rounding).unwrap();
            assert!(last <= tick, "at {rate}");
            last = tick;
        }
    }
}

#[test]
fn a_negative_logarithm_gives_ticks_past_zero() {
    assert_eq!(rate_to_tick(fx(0.5), 1, Rounding::Floor, bits(-0.0001)), Ok(-3));
    assert_eq!(rate_to_tick(fx(-0.5), 1, Rounding::Floor, bits(-0.0001)), Ok(2));
    assert_eq!(rate_to_tick(fx(0.5), 1, Rounding::Floor, bits(-1e300)), Err(MathError::RateNotRepresentable(fx(0.5))));
}

#[test]
fn a_tick_comes_back_within_one_under_either_rounding() {
    for tick_step in [1u8, 2, 10] {
        for tick in [-32_767i16, -20_000, -501, -2, -1, 0, 1, 2, 501, 20_000, 32_766] {
            let rate = rate_of(tick, tick_step).unwrap();
            for rounding in [Rounding::Floor, Rounding::Ceil] {
                let back = tick_of(rate, tick_step, rounding).unwrap();
                assert!((back as i32 - tick as i32).abs() <= 1, "{tick} at step {tick_step} came back as {back}");
            }
        }
    }
}
