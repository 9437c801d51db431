use boros_mm::arb_engine::{
    detect_cross_venue_signal, to_calendar_spread_trade, CalendarSpreadTrade, CrossVenueObservation, CrossVenueSignal,
};
use boros_mm::curve_engine::ButterflySignal;
use boros_mm::float_bits::F64Bits;
use boros_mm::oms_core::Side;

fn bits(v: f64) -> F64Bits {
    F64Bits(v.to_bits())
}

fn float(v: F64Bits) -> f64 {
    f64::from_bits(v.0)
}

fn signal(deviation: f64) -> ButterflySignal {
    ButterflySignal {
        left_maturity_secs: 30 * 86_400,
        mid_maturity_secs: 90 * 86_400,
        right_maturity_secs: 150 * 86_400,
        deviation: bits(deviation),
    }
}

fn trade_of(signal: ButterflySignal, mid_size: f64) -> CalendarSpreadTrade {
    to_calendar_spread_trade(signal, bits(mid_size))
}

#[test]
fn cheap_mid_maturity_goes_long_at_mid_short_wings() {
    let trade = trade_of(signal(-0.02), 1000.0);
    assert_eq!(trade.mid_side, Side::Long);
    assert_eq!(trade.wing_side, Side::Short);
}

#[test]
fn rich_mid_maturity_goes_short_at_mid_long_wings() {
    let trade = trade_of(signal(0.02), 1000.0);
    assert_eq!(trade.mid_side, Side::Short);
    assert_eq!(trade.wing_side, Side::Long);
}

#[test]
fn mid_and_wing_side_are_always_opposite() {
    for dev in [-0.05, -0.001, 0.001, 0.05] {
        let trade = trade_of(signal(dev), 1000.0);
        assert_ne!(trade.mid_side, trade.wing_side);
    }
}

#[test]
fn each_wing_gets_the_size_that_matches_half_the_mid_dv01() {
    let trade = trade_of(signal(-0.02), 1000.0);
    assert_eq!(float(trade.mid_size), 1000.0);
    assert!((float(trade.left_size) - float(trade.mid_size) * 90.0 / (2.0 * 30.0)).abs() < 1e-9);
    assert!((float(trade.right_size) - float(trade.mid_size) * 90.0 / (2.0 * 150.0)).abs() < 1e-9);
    assert_eq!(trade.signal, signal(-0.02));
}

#[test]
fn combined_wing_dv01_equals_the_mid_dv01() {
    let trade = trade_of(signal(-0.02), 1000.0);
    let mid_dv01 = float(trade.mid_size) * 90.0 * 86_400.0;
    let left_dv01 = float(trade.left_size) * 30.0 * 86_400.0;
    let right_dv01 = float(trade.right_size) * 150.0 * 86_400.0;
    assert!((left_dv01 + right_dv01 - mid_dv01).abs() / mid_dv01 < 1e-9);
}

#[test]
fn a_closer_wing_gets_less_size_than_a_farther_wing_for_the_same_offsetting_dv01() {
    let trade = trade_of(signal(-0.02), 1000.0);
    assert!(trade.right_size.is_less(trade.left_size), "left (30d) should need more notional than right (150d)");
}

#[test]
fn wing_sizes_are_exact_floats() {
    let trade = trade_of(signal(-0.02), 1000.0);
    assert_eq!(trade.left_size, bits(1500.0));
    assert_eq!(trade.right_size, bits(300.0));
    assert_eq!(trade_of(signal(0.02), 0.1).right_size, bits(0.1 * 7_776_000.0 / (2.0 * 12_960_000.0)));
}

fn obs(boros: f64, cex: f64) -> CrossVenueObservation {
    CrossVenueObservation { boros_market_id: 1, boros_implied_apr: bits(boros), cex_expected_funding_apr: bits(cex) }
}

fn detect(obs: &CrossVenueObservation, min_abs_basis: f64) -> Option<CrossVenueSignal> {
    detect_cross_venue_signal(obs, bits(min_abs_basis))
}

#[test]
fn rich_boros_fixed_rate_signals_short() {
    let signal = detect(&obs(0.10, 0.05), 0.01).unwrap();
    assert!(float(signal.basis) > 0.0);
    assert_eq!(signal.boros_side, Side::Short);
    assert_eq!(signal.boros_market_id, 1);
}

#[test]
fn cheap_boros_fixed_rate_signals_long() {
    let signal = detect(&obs(0.02, 0.05), 0.01).unwrap();
    assert!(float(signal.basis) < 0.0);
    assert_eq!(signal.boros_side, Side::Long);
}

#[test]
fn small_basis_filtered_by_threshold() {
    assert!(detect(&obs(0.051, 0.05), 0.01).is_none());
    assert!(detect(&obs(0.07, 0.05), 0.01).is_some());
}

#[test]
fn zero_basis_no_signal() {
    assert!(detect(&obs(0.05, 0.05), 0.0).is_none());
}

#[test]
fn the_basis_is_the_difference_of_the_rates() {
    assert_eq!(detect(&obs(0.10, 0.05), 0.01).unwrap().basis, bits(0.10 - 0.05));
    assert!(detect(&obs(f64::INFINITY, f64::INFINITY), 0.01).unwrap().basis.is_nan());
}

#[test]
fn each_wing_carries_half_of_the_middle_at_any_size() {
    for mid_size in [1e-12, 0.1, 333.33, 7.7e9, 1e200] {
        for (left, mid, right) in [(1u32, 7u32, 4_000_000_000u32), (2_592_000, 7_776_001, 12_960_007)] {
            let trade = trade_of(
                ButterflySignal {
                    left_maturity_secs: left,
                    mid_maturity_secs: mid,
                    right_maturity_secs: right,
                    deviation: bits(0.02),
                },
                mid_size,
            );
            let whole = mid_size * mid as f64;
            let left_part = float(trade.left_size) * left as f64;
            let right_part = float(trade.right_size) * right as f64;
            assert!((2.0 * left_part - whole).abs() <= 1e-14 * whole);
            assert!((2.0 * right_part - whole).abs() <= 1e-14 * whole);
            assert!((left_part + right_part - whole).abs() <= 1e-14 * whole);
        }
    }
}
