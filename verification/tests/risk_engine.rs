use boros_mm::float_bits::F64Bits;
use boros_mm::margin_sim::{
    MarginAccount, MarginConfig, MarginEngine, MarginError, MarginMode, MarketId, MarketState, OpenOrder, OrderSide,
    Position, SubaccountId, TokenId,
};
use boros_mm::risk_engine::{
    check_health_ratio_divergence, check_mark_rate_divergence, check_pre_trade, exposure, position_dv01,
    DivergenceConfig, Exposure, KillSwitch, KillSwitchState, PreTradeLimits, RiskAlert, RiskError, RiskViolation,
};
use boros_mm::tick_math::{FixedX18, SECONDS_PER_YEAR};
use std::collections::HashMap;

fn bits(v: f64) -> F64Bits {
    F64Bits(v.to_bits())
}

fn fx(v: f64) -> FixedX18 {
    FixedX18::from_f64(F64Bits(v.to_bits()))
}

fn dv01(size: f64, secs: u32) -> f64 {
    f64::from_bits(position_dv01(fx(size), secs).0)
}

#[test]
fn long_position_positive_dv01() {
    let dv01 = dv01(1000.0, SECONDS_PER_YEAR);
    assert!(dv01 > 0.0);
    assert!((dv01 - 0.1).abs() < 1e-9, "1000 * 1yr * 0.0001 = 0.1, got {dv01}");
}

#[test]
fn short_position_negative_dv01() {
    let dv01 = dv01(-1000.0, SECONDS_PER_YEAR);
    assert!(dv01 < 0.0);
    assert!((dv01 + 0.1).abs() < 1e-9);
}

#[test]
fn zero_ttm_zero_dv01() {
    let dv01 = dv01(1000.0, 0);
    assert_eq!(dv01, 0.0);
}

#[test]
fn scales_linearly_with_ttm() {
    let dv01_1y = dv01(1000.0, SECONDS_PER_YEAR);
    let dv01_half_y = dv01(1000.0, SECONDS_PER_YEAR / 2);
    assert!((dv01_1y - 2.0 * dv01_half_y).abs() < 1e-9);
}

#[test]
fn sensitivity_matches_the_hardware_bit_for_bit() {
    for size in [0.3, -17.25, 123_456.789, 1e15] {
        for secs in [1, 86_400, 7_776_001, u32::MAX] {
            let expected = size * (secs as f64 / SECONDS_PER_YEAR as f64) * 0.0001;
            assert_eq!(dv01(size, secs), expected, "{size} {secs}");
        }
    }
}

fn check(
    engine: &MarginEngine,
    account: &MarginAccount,
    order: OpenOrder,
    markets: &HashMap<u32, MarketState>,
    limits: &PreTradeLimits,
    count: u32,
) -> Result<(), Vec<RiskViolation>> {
    check_pre_trade(engine, account, order, markets, limits, count)
}

fn test_setup() -> (MarginEngine, HashMap<u32, MarketState>) {
    let mut configs = HashMap::new();
    configs.insert(1, MarginConfig {
        k_im: fx(0.10), k_mm: fx(0.05),
        k_i_thresh: fx(0.001), t_thresh: 24 * 3600,
        token_id: TokenId(0),
    });
    let mut markets = HashMap::new();
    markets.insert(1, MarketState { mark_rate: fx(0.08), time_to_maturity_secs: SECONDS_PER_YEAR / 2 });
    (MarginEngine::new(configs, markets.clone()), markets)
}

fn empty_account() -> MarginAccount {
    MarginAccount {
        subaccount_id: SubaccountId::default_id(), token_id: TokenId(0), margin_mode: MarginMode::Cross,
        cash: fx(100_000.0), positions: vec![], open_orders: vec![], last_settled_at: 0,
    }
}

fn generous_limits() -> PreTradeLimits {
    PreTradeLimits {
        max_net_dv01: bits(1_000_000.0),
        max_gross_dv01: bits(1_000_000.0),
        max_notional: bits(1_000_000_000.0),
        min_projected_health_ratio: bits(1.0),
        max_orders_per_window: 1000,
        throttle_window_secs: 60,
    }
}

fn long_order(size: f64) -> OpenOrder {
    OpenOrder { market_id: MarketId(1), side: OrderSide::Long, size: fx(size), rate: fx(0.08) }
}

#[test]
fn passes_when_within_all_limits() {
    let (engine, markets) = test_setup();
    let account = empty_account();
    assert!(check(&engine, &account, long_order(100.0), &markets, &generous_limits(), 0).is_ok());
}

#[test]
fn net_dv01_violation_detected() {
    let (engine, markets) = test_setup();
    let mut account = empty_account();
    account.positions.push(Position { market_id: MarketId(1), size: fx(1_000_000.0) });

    let tight_limits = PreTradeLimits { max_net_dv01: bits(1.0), ..generous_limits() };
    let result = check(&engine, &account, long_order(1.0), &markets, &tight_limits, 0);
    assert!(matches!(result, Err(v) if v.iter().any(|x| matches!(x, RiskViolation::NetDv01Exceeded { .. }))));
}

#[test]
fn throttle_violation_detected() {
    let (engine, markets) = test_setup();
    let account = empty_account();

    let throttled_limits = PreTradeLimits { max_orders_per_window: 5, ..generous_limits() };
    let result = check(&engine, &account, long_order(1.0), &markets, &throttled_limits, 5);
    assert!(matches!(result, Err(v) if v.iter().any(|x| matches!(x, RiskViolation::OrderRateThrottled { .. }))));
}

#[test]
fn low_health_ratio_floor_detected() {
    let (engine, markets) = test_setup();
    let mut account = empty_account();
    account.cash = fx(1.0);
    account.positions.push(Position { market_id: MarketId(1), size: fx(100_000.0) });

    let strict_limits = PreTradeLimits { min_projected_health_ratio: bits(1000.0), ..generous_limits() };
    let result = check(&engine, &account, long_order(1.0), &markets, &strict_limits, 0);
    assert!(matches!(
        result,
        Err(v) if v.iter().any(|x| matches!(x, RiskViolation::ProjectedHealthRatioTooLow { .. })),
    ));
}

#[test]
fn multiple_violations_all_reported() {
    let (engine, markets) = test_setup();
    let mut account = empty_account();
    account.cash = fx(1.0);
    account.positions.push(Position { market_id: MarketId(1), size: fx(1_000_000.0) });

    let strict_limits = PreTradeLimits {
        max_net_dv01: bits(0.01),
        min_projected_health_ratio: bits(1000.0),
        max_orders_per_window: 0,
        ..generous_limits()
    };
    let result = check(&engine, &account, long_order(1.0), &markets, &strict_limits, 10);
    let violations = result.unwrap_err();
    assert!(violations.len() >= 3, "expected multiple simultaneous violations, got {violations:?}");
}

#[test]
fn every_breached_limit_is_reported_in_order() {
    let (engine, markets) = test_setup();
    let limits = PreTradeLimits {
        max_net_dv01: bits(0.01),
        max_gross_dv01: bits(0.02),
        max_notional: bits(1.0),
        min_projected_health_ratio: bits(5.0),
        max_orders_per_window: 2,
        throttle_window_secs: 60,
    };
    let mut account = empty_account();
    account.positions.push(Position { market_id: MarketId(1), size: fx(-2000.0) });
    account.positions.push(Position { market_id: MarketId(1), size: fx(1000.0) });
    account.cash = fx(50.0);
    let found = check_pre_trade(&engine, &account, long_order(0.0), &markets, &limits, 2).unwrap_err();
    let state = engine.compute_account_state(&account.with_order(long_order(0.0))).unwrap();
    assert_eq!(
        found,
        vec![
            RiskViolation::NetDv01Exceeded { would_be: bits(0.05), cap: bits(0.01) },
            RiskViolation::GrossDv01Exceeded { would_be: bits(0.1 + 0.05), cap: bits(0.02) },
            RiskViolation::NotionalExceeded { would_be: bits(3000.0), cap: bits(1.0) },
            RiskViolation::OrderRateThrottled { count_in_window: 2, cap: 2 },
            RiskViolation::ProjectedHealthRatioTooLow { projected: state.health_ratio, floor: bits(5.0) },
        ],
    );
}

#[test]
fn a_margin_state_that_cannot_be_computed_refuses_the_order() {
    let (engine, markets) = test_setup();
    let order = OpenOrder { market_id: MarketId(9), ..long_order(1.0) };
    let found = check_pre_trade(&engine, &empty_account(), order, &markets, &generous_limits(), 0).unwrap_err();
    assert_eq!(
        found,
        vec![RiskViolation::ProjectedHealthRatioTooLow { projected: bits(f64::NEG_INFINITY), floor: bits(1.0) }],
    );
    assert_eq!(RiskError::from(MarginError::UnknownMarket(9)), RiskError::Margin(MarginError::UnknownMarket(9)));
}

#[test]
fn exposure_sums_the_positions_in_known_markets() {
    let (_, markets) = test_setup();
    let mut account = empty_account();
    account.positions.push(Position { market_id: MarketId(2), size: fx(1.0) });
    account.positions.push(Position { market_id: MarketId(1), size: fx(-2000.0) });
    account.positions.push(Position { market_id: MarketId(1), size: fx(500.0) });
    let (a, b) = (dv01(-2000.0, SECONDS_PER_YEAR / 2), dv01(500.0, SECONDS_PER_YEAR / 2));
    assert_eq!(
        exposure(&account, &markets),
        Exposure { net_dv01: bits(a + b), gross_dv01: bits(a.abs() + b.abs()), notional: bits(2500.0) },
    );
}

fn cfg() -> DivergenceConfig {
    DivergenceConfig { max_health_ratio_relative_diff: bits(0.05), max_mark_rate_abs_diff: bits(0.001) }
}

fn health(shadow: f64, real: f64) -> Option<RiskAlert> {
    check_health_ratio_divergence(bits(shadow), bits(real), &cfg())
}

fn mark(shadow: f64, real: f64) -> Option<RiskAlert> {
    check_mark_rate_divergence(bits(shadow), bits(real), &cfg())
}

#[test]
fn no_alert_when_within_tolerance() {
    assert_eq!(health(1.50, 1.52), None);
    assert_eq!(mark(0.0800, 0.0805), None);
}

#[test]
fn alert_on_health_ratio_divergence() {
    let alert = health(2.0, 1.0);
    assert!(matches!(alert, Some(RiskAlert::HealthRatioDivergence { .. })));
    assert_eq!(
        health(3.0, 2.0),
        Some(RiskAlert::HealthRatioDivergence { shadow: bits(3.0), real: bits(2.0), relative_diff: bits(0.5) }),
    );
}

#[test]
fn alert_on_mark_rate_divergence() {
    let alert = mark(0.08, 0.10);
    assert!(matches!(alert, Some(RiskAlert::MarkRateDivergence { .. })));
    let abs_diff = bits((0.08f64 - 0.10).abs());
    assert_eq!(alert, Some(RiskAlert::MarkRateDivergence { shadow: bits(0.08), real: bits(0.10), abs_diff }));
}

#[test]
fn both_infinite_and_equal_is_not_a_divergence() {
    assert_eq!(health(f64::INFINITY, f64::INFINITY), None);
}

#[test]
fn one_infinite_one_finite_is_a_divergence() {
    let alert = health(f64::INFINITY, 1.2);
    assert!(alert.is_some());
    assert_eq!(
        alert,
        Some(RiskAlert::HealthRatioDivergence {
            shadow: bits(f64::INFINITY),
            real: bits(1.2),
            relative_diff: bits(f64::INFINITY),
        }),
    );
}

#[test]
fn a_ratio_near_zero_is_compared_by_distance() {
    assert_eq!(health(0.01, 0.0), None);
    assert_eq!(health(0.01, f64::EPSILON), None);
    assert!(health(0.01, -2.0 * f64::EPSILON).is_some());
    assert!(health(0.06, 0.0).is_some());
}

#[test]
fn starts_armed() {
    let ks = KillSwitch::new();
    assert!(!ks.is_tripped());
    assert_eq!(*KillSwitch::default().state(), KillSwitchState::Armed);
}

#[test]
fn trip_sets_tripped_with_reason() {
    let mut ks = KillSwitch::new();
    ks.trip("mark rate divergence exceeded 10%".to_owned());
    assert!(ks.is_tripped());
    assert!(matches!(ks.state(), KillSwitchState::Tripped { reason } if reason.contains("divergence")));
}

#[test]
fn reset_returns_to_armed() {
    let mut ks = KillSwitch::new();
    ks.trip("test".to_owned());
    ks.reset("manually verified safe".to_owned());
    assert!(!ks.is_tripped());
}

#[test]
fn can_retrip_after_reset() {
    let mut ks = KillSwitch::new();
    ks.trip("first issue".to_owned());
    ks.reset("resolved".to_owned());
    ks.trip("second issue".to_owned());
    assert!(ks.is_tripped());
}

#[test]
fn net_sensitivity_stays_within_gross() {
    let (_, markets) = test_setup();
    let mut account = empty_account();
    for size in [1000.0, -2500.5, 0.1, 777.7, -3.0] {
        account.positions.push(Position { market_id: MarketId(1), size: fx(size) });
        let e = exposure(&account, &markets);
        assert!(e.net_dv01.abs().is_at_most(e.gross_dv01));
    }
}
