use boros_mm::float_bits::F64Bits;
use boros_mm::oms_core::Side;
use boros_mm::quoting_engine::{
    arrival_operand, clamp_ask, clamp_bid, AvellanedaStoikovParams, InventoryState, MakerRateBounds, Quote, QuoteError,
    QuotingEngine,
};
use boros_mm::tick_math::{FixedX18, MathError, SECONDS_PER_YEAR};

fn bits(v: f64) -> F64Bits {
    F64Bits(v.to_bits())
}

fn float(v: F64Bits) -> f64 {
    f64::from_bits(v.0)
}

fn fx(v: f64) -> FixedX18 {
    FixedX18::from_f64(F64Bits(v.to_bits()))
}

fn to_f64(v: FixedX18) -> f64 {
    f64::from_bits(v.to_f64().0)
}

fn params() -> AvellanedaStoikovParams {
    AvellanedaStoikovParams {
        gamma: bits(0.1),
        sigma: bits(0.02),
        kappa: bits(1.5),
        horizon_secs: 3600,
        carry_weight: bits(0.0),
    }
}

fn bound_for(b: &MakerRateBounds, side: Side, mark_rate: f64, k_i_thresh: f64) -> f64 {
    float(b.bound_for(side, bits(mark_rate), bits(k_i_thresh)))
}

fn clamped_bid(raw: f64, b: &MakerRateBounds, mark_rate: f64, k_i_thresh: f64) -> f64 {
    float(clamp_bid(bits(raw), b, bits(mark_rate), bits(k_i_thresh)))
}

fn clamped_ask(raw: f64, b: &MakerRateBounds, mark_rate: f64, k_i_thresh: f64) -> f64 {
    float(clamp_ask(bits(raw), b, bits(mark_rate), bits(k_i_thresh)))
}

fn reservation_rate(reference: f64, inv: &InventoryState, p: &AvellanedaStoikovParams) -> f64 {
    float(boros_mm::quoting_engine::reservation_rate(bits(reference), inv, p))
}

fn log_of(p: &AvellanedaStoikovParams) -> F64Bits {
    bits(float(arrival_operand(p)).ln())
}

fn optimal_spread(p: &AvellanedaStoikovParams) -> f64 {
    float(boros_mm::quoting_engine::optimal_spread(p, log_of(p)))
}

fn quote(
    engine: &QuotingEngine,
    reference: f64,
    mark: f64,
    k_i_thresh: f64,
    inv: &InventoryState,
    b: &MakerRateBounds,
) -> Result<Quote, QuoteError> {
    engine.quote(fx(reference), fx(mark), fx(k_i_thresh), inv, b, log_of(&engine.params()))
}

fn bounds() -> MakerRateBounds {
    MakerRateBounds {
        lo_upper_slope_base1e4: 15_000,
        lo_upper_const_base1e4: 100,
        lo_lower_slope_base1e4: 5_000,
        lo_lower_const_base1e4: -100,
    }
}

#[test]
fn bid_within_bound_unchanged() {
    let clamped = clamped_bid(0.10, &bounds(), 0.08, 0.01);
    assert!((clamped - 0.10).abs() < 1e-12);
}

#[test]
fn bid_above_bound_gets_capped() {
    let clamped = clamped_bid(0.50, &bounds(), 0.08, 0.01);
    assert!((clamped - 0.12).abs() < 1e-9, "expected cap at 0.12, got {clamped}");
}

#[test]
fn bid_has_no_floor_from_this_check() {
    let clamped = clamped_bid(-10.0, &bounds(), 0.08, 0.01);
    assert!((clamped - (-10.0)).abs() < 1e-12);
}

#[test]
fn ask_within_bound_unchanged() {
    let clamped = clamped_ask(0.06, &bounds(), 0.08, 0.01);
    assert!((clamped - 0.06).abs() < 1e-12);
}

#[test]
fn ask_below_bound_gets_floored() {
    let clamped = clamped_ask(0.01, &bounds(), 0.08, 0.01);
    assert!((clamped - 0.04).abs() < 1e-9, "expected floor at 0.04, got {clamped}");
}

#[test]
fn near_zero_mark_rate_uses_const_branch_not_slope() {
    let b = bounds();
    let long_bound = bound_for(&b, Side::Long, 0.005, 0.01);
    assert!((long_bound - 0.015).abs() < 1e-9, "expected const branch, got {long_bound}");
}

#[test]
fn negative_mark_rate_flips_sign_and_side() {
    let b = bounds();
    let long_bound_pos = bound_for(&b, Side::Long, 0.08, 0.01);
    let long_bound_neg = bound_for(&b, Side::Long, -0.08, 0.01);
    let short_bound_pos = bound_for(&b, Side::Short, 0.08, 0.01);
    assert!((long_bound_neg - (-short_bound_pos)).abs() < 1e-9);
    assert_ne!(long_bound_pos, -long_bound_neg, "slopes differ by side, so this isn't just a sign flip");
}

#[test]
fn a_bound_is_exactly_one_of_slope_and_constant() {
    let b = bounds();
    assert_eq!(bound_for(&b, Side::Short, 0.01, 0.01), 0.01 * 0.5);
    assert_eq!(bound_for(&b, Side::Short, -0.0, 0.01), -0.01);
    assert_eq!(bound_for(&b, Side::Short, -0.005, 0.01), -(0.005 + 0.01));
    assert_eq!(bound_for(&b, Side::Long, 0.37, 0.01), 0.37 * 1.5);
    assert!(bound_for(&b, Side::Long, f64::NAN, 0.01).is_nan());
}

fn wide_bounds() -> MakerRateBounds {
    MakerRateBounds {
        lo_upper_slope_base1e4: 30_000,
        lo_upper_const_base1e4: 5_000,
        lo_lower_slope_base1e4: 30_000,
        lo_lower_const_base1e4: 5_000,
    }
}

#[test]
fn flat_inventory_quote_straddles_reference() {
    let engine = QuotingEngine::new(params()).unwrap();
    let inv = InventoryState::default();
    let quote = quote(&engine, 0.05, 0.05, 0.001, &inv, &wide_bounds()).unwrap();

    assert!(quote.bid_rate < quote.reservation_rate);
    assert!(quote.ask_rate > quote.reservation_rate);
    assert!(quote.bid_rate < quote.ask_rate);
}

#[test]
fn invalid_params_rejected_at_construction() {
    let bad = AvellanedaStoikovParams { gamma: bits(-1.0), ..params() };
    assert!(QuotingEngine::new(bad).is_err());
}

#[test]
fn quote_respects_maker_bounds_even_with_huge_inventory() {
    let engine = QuotingEngine::new(params()).unwrap();
    let inv = InventoryState { net_dv01: bits(1_000_000_000.0), avg_locked_fixed_rate: None };
    let narrow_bounds = MakerRateBounds {
        lo_upper_slope_base1e4: 10_100,
        lo_upper_const_base1e4: 100,
        lo_lower_slope_base1e4: 9_900,
        lo_lower_const_base1e4: -100,
    };

    let quote = quote(&engine, 0.05, 0.05, 0.001, &inv, &narrow_bounds);
    if let Ok(q) = quote {
        let long_bound = bound_for(&narrow_bounds, Side::Long, 0.05, 0.001);
        let short_bound = bound_for(&narrow_bounds, Side::Short, 0.05, 0.001);
        assert!(to_f64(q.bid_rate) <= long_bound + 1e-9);
        assert!(to_f64(q.ask_rate) >= short_bound - 1e-9);
    }
}

#[test]
fn one_sided_clamps_cannot_cross_even_with_absurdly_narrow_bounds() {
    let engine = QuotingEngine::new(params()).unwrap();
    let inv = InventoryState::default();
    let brutal_bounds = MakerRateBounds {
        lo_upper_slope_base1e4: 1,
        lo_upper_const_base1e4: -10_000,
        lo_lower_slope_base1e4: 1,
        lo_lower_const_base1e4: 10_000,
    };

    let quote = quote(&engine, 0.05, 0.05, 0.001, &inv, &brutal_bounds)
        .expect("one-sided clamps must never cross a positive spread");
    assert!(quote.bid_rate < quote.ask_rate);
}

#[test]
fn a_crossed_quote_is_refused_with_both_rates() {
    let tight = AvellanedaStoikovParams { sigma: bits(0.0), kappa: bits(1e300), ..params() };
    let engine = QuotingEngine::new(tight).unwrap();
    let loose = MakerRateBounds { lo_lower_slope_base1e4: -30_000, ..wide_bounds() };
    let reference = to_f64(fx(0.05));
    assert_eq!(
        quote(&engine, 0.05, 0.05, 0.001, &InventoryState::default(), &loose),
        Err(QuoteError::CrossedAfterClamp { bid: bits(reference), ask: bits(reference) }),
    );
    assert_eq!(QuoteError::from(MathError::Overflow), QuoteError::TickMath(MathError::Overflow));
}

#[test]
fn quoted_rates_match_the_hardware_bit_for_bit() {
    let p = params();
    let engine = QuotingEngine::new(p).unwrap();
    let inv = InventoryState { net_dv01: bits(250.0), avg_locked_fixed_rate: None };
    let rates = engine.rates(fx(0.05), fx(0.05), fx(0.001), &inv, &wide_bounds(), log_of(&p));
    let years = 3600.0 / SECONDS_PER_YEAR as f64;
    let reservation = 0.05 - 250.0 * 0.1 * (0.02 * 0.02) * years + 0.0;
    let spread = 0.1 * (0.02 * 0.02) * years + (2.0 / 0.1) * (1.0 + 0.1 / 1.5f64).ln();
    assert_eq!(rates.reservation, bits(reservation));
    assert_eq!(rates.bid, bits((reservation - spread / 2.0).min(0.05 * 3.0)));
    assert_eq!(rates.ask, bits((reservation + spread / 2.0).max(0.05 * 3.0)));
}

#[test]
fn zero_inventory_reservation_equals_reference() {
    let inv = InventoryState::default();
    let r = reservation_rate(0.05, &inv, &params());
    assert!((r - 0.05).abs() < 1e-12);
}

#[test]
fn long_inventory_skews_reservation_down() {
    let inv = InventoryState { net_dv01: bits(1000.0), avg_locked_fixed_rate: None };
    let r = reservation_rate(0.05, &inv, &params());
    assert!(r < 0.05, "long inventory should skew reservation below reference, got {r}");
}

#[test]
fn short_inventory_skews_reservation_up() {
    let inv = InventoryState { net_dv01: bits(-1000.0), avg_locked_fixed_rate: None };
    let r = reservation_rate(0.05, &inv, &params());
    assert!(r > 0.05, "short inventory should skew reservation above reference, got {r}");
}

#[test]
fn larger_inventory_skews_more() {
    let small = InventoryState { net_dv01: bits(100.0), avg_locked_fixed_rate: None };
    let large = InventoryState { net_dv01: bits(1000.0), avg_locked_fixed_rate: None };
    let r_small = reservation_rate(0.05, &small, &params());
    let r_large = reservation_rate(0.05, &large, &params());
    assert!((0.05 - r_large) > (0.05 - r_small), "larger inventory must skew further");
}

#[test]
fn optimal_spread_is_always_positive() {
    for gamma in [0.01, 0.05, 0.1, 0.5, 1.0, 5.0] {
        let s = optimal_spread(&AvellanedaStoikovParams { gamma: bits(gamma), ..params() });
        assert!(s > 0.0, "spread must be positive for gamma={gamma}, got {s}");
    }
}

#[test]
fn spread_widens_with_gamma_when_inventory_term_dominates() {
    let regime = AvellanedaStoikovParams {
        gamma: bits(0.05),
        sigma: bits(0.8),
        kappa: bits(1.5),
        horizon_secs: SECONDS_PER_YEAR,
        carry_weight: bits(0.0),
    };
    let narrow = optimal_spread(&regime);
    let wide = optimal_spread(&AvellanedaStoikovParams { gamma: bits(0.5), ..regime });
    assert!(wide > narrow, "in the inventory-dominated regime, higher gamma must widen spread: {narrow} vs {wide}");
}

#[test]
fn spread_can_narrow_with_gamma_when_liquidity_term_dominates() {
    let narrow_gamma = optimal_spread(&params());
    let wide_gamma = optimal_spread(&AvellanedaStoikovParams { gamma: bits(1.0), ..params() });
    assert!(
        wide_gamma < narrow_gamma,
        "in the liquidity-dominated regime, higher gamma should narrow spread: {narrow_gamma} vs {wide_gamma}",
    );
}

#[test]
fn optimal_spread_widens_with_longer_horizon() {
    let short_h = optimal_spread(&AvellanedaStoikovParams { horizon_secs: 60, ..params() });
    let long_h = optimal_spread(&AvellanedaStoikovParams { horizon_secs: 3600 * 24, ..params() });
    assert!(long_h > short_h, "longer horizon must widen the inventory-risk component of spread");
}

#[test]
fn carry_adjustment_disabled_when_weight_zero() {
    let inv = InventoryState { net_dv01: bits(500.0), avg_locked_fixed_rate: Some(bits(0.03)) };
    let p = params();
    let with_carry = reservation_rate(0.05, &inv, &p);
    let no_carry_inv = InventoryState { net_dv01: bits(500.0), avg_locked_fixed_rate: None };
    let without = reservation_rate(0.05, &no_carry_inv, &p);
    assert!((with_carry - without).abs() < 1e-12);
    let weighted = AvellanedaStoikovParams { carry_weight: bits(1.0), ..p };
    let flat = InventoryState { net_dv01: bits(-0.0), ..inv };
    assert_eq!(reservation_rate(0.05, &flat, &weighted), 0.05);
}

#[test]
fn favorable_carry_reduces_long_skew() {
    let p = AvellanedaStoikovParams { carry_weight: bits(1.0), ..params() };
    let inv_favorable = InventoryState { net_dv01: bits(500.0), avg_locked_fixed_rate: Some(bits(0.03)) };
    let inv_flat_carry = InventoryState { net_dv01: bits(500.0), avg_locked_fixed_rate: None };
    let r_favorable = reservation_rate(0.05, &inv_favorable, &p);
    let r_no_carry = reservation_rate(0.05, &inv_flat_carry, &p);
    assert!(r_favorable > r_no_carry, "favorable carry should pull reservation up (less selling pressure)");
}

#[test]
fn unfavorable_carry_increases_long_skew() {
    let p = AvellanedaStoikovParams { carry_weight: bits(1.0), ..params() };
    let inv_unfavorable = InventoryState { net_dv01: bits(500.0), avg_locked_fixed_rate: Some(bits(0.08)) };
    let inv_flat_carry = InventoryState { net_dv01: bits(500.0), avg_locked_fixed_rate: None };
    let r_unfavorable = reservation_rate(0.05, &inv_unfavorable, &p);
    let r_no_carry = reservation_rate(0.05, &inv_flat_carry, &p);
    assert!(r_unfavorable < r_no_carry, "unfavorable carry should push reservation down further");
}

#[test]
fn params_validation_rejects_nonpositive_gamma() {
    let p = AvellanedaStoikovParams { gamma: bits(0.0), ..params() };
    assert!(p.validate().is_err());
}

#[test]
fn params_validation_accepts_reasonable_values() {
    assert!(params().validate().is_ok());
}

#[test]
fn each_parameter_out_of_range_names_its_rule() {
    let nan = bits(f64::NAN);
    let cases = [
        (AvellanedaStoikovParams { gamma: nan, ..params() }, "gamma must be > 0"),
        (AvellanedaStoikovParams { sigma: bits(-0.1), ..params() }, "sigma must be >= 0"),
        (AvellanedaStoikovParams { kappa: bits(-0.0), ..params() }, "kappa must be > 0"),
        (AvellanedaStoikovParams { horizon_secs: 0, ..params() }, "horizon_secs must be > 0"),
        (AvellanedaStoikovParams { carry_weight: nan, ..params() }, "carry_weight must be >= 0"),
    ];
    for (p, rule) in cases {
        assert_eq!(p.validate(), Err(QuoteError::InvalidParams(rule.to_owned())));
    }
    assert!(AvellanedaStoikovParams { sigma: bits(-0.0), ..params() }.validate().is_ok());
}

#[test]
fn carry_works_the_other_way_round_for_a_short() {
    let p = AvellanedaStoikovParams { carry_weight: bits(1.0), ..params() };
    let short = |locked| InventoryState { net_dv01: bits(-500.0), avg_locked_fixed_rate: locked };
    let without = reservation_rate(0.05, &short(None), &p);
    assert!(reservation_rate(0.05, &short(Some(bits(0.08))), &p) > without);
    assert!(reservation_rate(0.05, &short(Some(bits(0.03))), &p) < without);
}

#[test]
fn quotes_are_ordered_after_rounding() {
    let engine = QuotingEngine::new(AvellanedaStoikovParams { kappa: bits(1e17), ..params() }).unwrap();
    let loose = MakerRateBounds { lo_lower_slope_base1e4: -30_000, ..wide_bounds() };
    let quote = quote(&engine, 0.05, 0.05, 0.001, &InventoryState::default(), &loose).unwrap();
    assert!(quote.bid_rate <= quote.ask_rate);
}

#[test]
fn a_positive_logarithm_leaves_a_positive_spread() {
    let still = AvellanedaStoikovParams { sigma: bits(0.0), ..params() };
    let tiny = boros_mm::quoting_engine::optimal_spread(&still, bits(1e-300));
    assert_eq!(float(tiny), 2.0 / 0.1 * 1e-300);
    assert!(float(tiny) > 0.0);
    let least = boros_mm::quoting_engine::optimal_spread(
        &AvellanedaStoikovParams { gamma: bits(10.0), ..still },
        F64Bits(1),
    );
    assert_eq!(float(least), 0.0, "a fifth of the least float rounds to zero");
}
