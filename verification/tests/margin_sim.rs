use boros_mm::float_bits::F64Bits;
use boros_mm::margin_sim::{
    MarginAccount, MarginConfig, MarginEngine, MarginError, MarginMode, MarketId, MarketState, OpenOrder, OrderSide,
    Position, SubaccountId, TokenId, LIQUIDATION_HEALTH_RATIO,
};
use boros_mm::tick_math::{FixedX18, MathError, SECONDS_PER_YEAR};
use std::collections::HashMap;

fn fx(v: f64) -> FixedX18 {
    FixedX18::from_f64(F64Bits(v.to_bits()))
}

fn to_f64(v: FixedX18) -> f64 {
    f64::from_bits(v.to_f64().0)
}

fn float(v: F64Bits) -> f64 {
    f64::from_bits(v.0)
}

fn test_config() -> MarginConfig {
    MarginConfig {
        k_im: fx(0.10),
        k_mm: fx(0.05),
        k_i_thresh: fx(0.001), // 10 bps floor
        t_thresh: 24 * 3600,                    // 1-day floor
        token_id: TokenId(0),
    }
}

fn test_market(mark_rate: f64, ttm_secs: u32) -> MarketState {
    MarketState { mark_rate: fx(mark_rate), time_to_maturity_secs: ttm_secs }
}

fn test_engine(mark_rate: f64, ttm_secs: u32) -> MarginEngine {
    let mut configs = HashMap::new();
    configs.insert(1, test_config());
    let mut markets = HashMap::new();
    markets.insert(1, test_market(mark_rate, ttm_secs));
    MarginEngine::new(configs, markets)
}

fn empty_account() -> MarginAccount {
    MarginAccount {
        subaccount_id: SubaccountId::default_id(),
        token_id: TokenId(0),
        margin_mode: MarginMode::Cross,
        cash: fx(10_000.0),
        positions: vec![],
        open_orders: vec![],
        last_settled_at: 0,
    }
}

const HALF_YEAR_SECS: u32 = SECONDS_PER_YEAR / 2;

#[test]
fn no_positions_is_infinite_health() {
    let engine = test_engine(0.08, HALF_YEAR_SECS);
    let account = empty_account();
    let state = engine.compute_account_state(&account).unwrap();
    assert_eq!(float(state.health_ratio), f64::INFINITY);
    assert!(!state.is_liquidatable);
}

#[test]
fn long_position_positive_pv() {
    let engine = test_engine(0.08, HALF_YEAR_SECS);
    let mut account = empty_account();
    account.positions.push(Position { market_id: MarketId(1), size: fx(1000.0) });

    let state = engine.compute_account_state(&account).unwrap();
    let pv_got = to_f64(state.total_value - account.cash);
    assert!((pv_got - 40.0).abs() < 0.001, "PV expected 40.0, got {pv_got:.4}");
    let mm_got = to_f64(state.total_mm);
    assert!((mm_got - 2.0).abs() < 0.001, "MM expected ~2.0, got {mm_got:.4}");

    assert!(float(state.health_ratio) > 100.0);
}

#[test]
fn short_position_negative_pv_same_mm_as_long() {
    let engine = test_engine(0.08, HALF_YEAR_SECS);

    let mut short_account = empty_account();
    short_account.positions.push(Position { market_id: MarketId(1), size: fx(-1000.0) });
    let short_state = engine.compute_account_state(&short_account).unwrap();

    let pv = to_f64(short_state.total_value - short_account.cash);
    assert!(pv < 0.0, "short PV should be negative");

    let mut long_account = empty_account();
    long_account.positions.push(Position { market_id: MarketId(1), size: fx(1000.0) });
    let long_state = engine.compute_account_state(&long_account).unwrap();

    assert!((to_f64(short_state.total_mm) - to_f64(long_state.total_mm)).abs() < 1e-9);
}

#[test]
fn rate_floor_binds_for_low_rate() {
    let engine = test_engine(0.0005, HALF_YEAR_SECS); // below the 10bps floor
    let mut account = empty_account();
    account.positions.push(Position { market_id: MarketId(1), size: fx(1000.0) });

    let state = engine.compute_account_state(&account).unwrap();
    let expected_mm = 1000.0 * 0.001 * 0.05 * 0.5;
    assert!((to_f64(state.total_mm) - expected_mm).abs() < 1e-6);
}

#[test]
fn open_order_increases_im_and_headroom_is_positive() {
    let engine = test_engine(0.08, HALF_YEAR_SECS);
    let account = empty_account();
    let state_no_order = engine.compute_account_state(&account).unwrap();

    let order = OpenOrder { market_id: MarketId(1), side: OrderSide::Long, size: fx(500.0), rate: fx(0.08) };

    let headroom = engine.margin_headroom_for_order(&account, &order).unwrap();
    assert!(headroom.is_positive(), "should have headroom: {}", to_f64(headroom));

    let mut with_order = account.clone();
    with_order.open_orders.push(order);
    let state_with_order = engine.compute_account_state(&with_order).unwrap();

    assert!(state_with_order.total_im > state_no_order.total_im);
}

#[test]
fn closing_orders_net_against_position_instead_of_adding_im() {
    let engine = test_engine(0.08, HALF_YEAR_SECS);

    let mut short_only = empty_account();
    short_only.positions.push(Position { market_id: MarketId(1), size: fx(-1000.0) });
    let im_short_only = engine.compute_account_state(&short_only).unwrap().total_im;

    let mut short_with_closing_order = short_only.clone();
    short_with_closing_order.open_orders.push(OpenOrder {
        market_id: MarketId(1), side: OrderSide::Long, size: fx(500.0), rate: fx(0.08),
    });
    let im_with_closing_order = engine.compute_account_state(&short_with_closing_order).unwrap().total_im;
    let naive_additive_im = im_short_only + {
        let mut solo = empty_account();
        solo.open_orders.push(OpenOrder { market_id: MarketId(1), side: OrderSide::Long, size: fx(500.0), rate: fx(0.08) });
        engine.compute_account_state(&solo).unwrap().total_im
    };
    assert!(im_with_closing_order < naive_additive_im, "closing order must net, not add IM on top: got {} vs naive {}", to_f64(im_with_closing_order), to_f64(naive_additive_im));
}

#[test]
fn fully_closing_orders_add_zero_extra_pm() {
    let engine = test_engine(0.08, HALF_YEAR_SECS);
    let mut account = empty_account();
    account.positions.push(Position { market_id: MarketId(1), size: fx(-1000.0) });
    account.open_orders.push(OpenOrder { market_id: MarketId(1), side: OrderSide::Long, size: fx(1000.0), rate: fx(0.08) });

    let state = engine.compute_account_state(&account).unwrap();
    let short_only_im = {
        let mut a = empty_account();
        a.positions.push(Position { market_id: MarketId(1), size: fx(-1000.0) });
        engine.compute_account_state(&a).unwrap().total_im
    };

    assert_eq!(state.total_im, short_only_im, "fully-closing order must not change IM at all");
}

#[test]
fn closing_orders_leave_the_whole_account_state_as_it_was() {
    let engine = test_engine(0.08, HALF_YEAR_SECS);
    for (size, closing, own) in
        [(-1000.0, OrderSide::Long, OrderSide::Short), (1000.0, OrderSide::Short, OrderSide::Long)]
    {
        let order = |side, size, rate| OpenOrder { market_id: MarketId(1), side, size: fx(size), rate: fx(rate) };
        let mut account = empty_account();
        account.positions.push(Position { market_id: MarketId(1), size: fx(size) });
        account.open_orders.push(order(own, 300.0, 0.07));
        account.open_orders.push(order(closing, 250.0, 0.09));
        let before = engine.compute_account_state(&account).unwrap();

        account.open_orders.push(order(closing, 400.0, 0.2));
        account.open_orders.push(order(closing, 350.0, 0.01));
        assert_eq!(engine.compute_account_state(&account).unwrap(), before);

        account.open_orders.push(order(closing, 5000.0, 0.08));
        assert!(engine.compute_account_state(&account).unwrap().total_im > before.total_im);
    }
}

#[test]
fn liquidation_threshold_is_exactly_one() {
    assert_eq!(f64::from_bits(LIQUIDATION_HEALTH_RATIO), 1.0);
}

#[test]
fn cross_account_touching_a_different_token_market_is_rejected() {
    let mut configs = HashMap::new();
    configs.insert(1, test_config());
    configs.insert(2, MarginConfig { token_id: TokenId(1), ..test_config() });
    let mut markets = HashMap::new();
    markets.insert(1, test_market(0.08, HALF_YEAR_SECS));
    markets.insert(2, test_market(0.08, HALF_YEAR_SECS));
    let engine = MarginEngine::new(configs, markets);

    let mut account = empty_account(); // token_id: TokenId(0)
    account.positions.push(Position { market_id: MarketId(2), size: fx(100.0) });

    let err = engine.compute_account_state(&account).unwrap_err();
    assert!(matches!(err, MarginError::TokenMismatch { market_id: MarketId(2), .. }), "expected TokenMismatch for market 2, got {err:?}");
}

#[test]
fn cross_account_across_matching_token_markets_is_fine() {
    let mut configs = HashMap::new();
    configs.insert(1, test_config());
    configs.insert(2, test_config()); // same TokenId(0) as the account
    let mut markets = HashMap::new();
    markets.insert(1, test_market(0.08, HALF_YEAR_SECS));
    markets.insert(2, test_market(0.08, HALF_YEAR_SECS));
    let engine = MarginEngine::new(configs, markets);

    let mut account = empty_account();
    account.positions.push(Position { market_id: MarketId(1), size: fx(100.0) });
    account.positions.push(Position { market_id: MarketId(2), size: fx(-50.0) });

    assert!(engine.compute_account_state(&account).is_ok());
}

#[test]
fn isolated_account_skips_the_token_check_entirely() {
    let mut configs = HashMap::new();
    configs.insert(2, MarginConfig { token_id: TokenId(1), ..test_config() });
    let mut markets = HashMap::new();
    markets.insert(2, test_market(0.08, HALF_YEAR_SECS));
    let engine = MarginEngine::new(configs, markets);

    let mut account = empty_account(); // token_id: TokenId(0), but isolated
    account.margin_mode = MarginMode::Isolated { market_id: MarketId(2) };
    account.positions.push(Position { market_id: MarketId(2), size: fx(100.0) });

    assert!(engine.compute_account_state(&account).is_ok());
}

#[test]
fn seconds_to_maturity_basic() {
    let now = 1_700_000_000u64;
    let maturity = now + 365 * 24 * 3600;
    assert_eq!(MarginEngine::seconds_to_maturity(maturity, now), 365 * 24 * 3600);
}

#[test]
fn seconds_to_maturity_saturates_at_zero() {
    let now = 1_700_000_000u64;
    let maturity = now - 3600; // already expired
    assert_eq!(MarginEngine::seconds_to_maturity(maturity, now), 0);
}

fn order(side: OrderSide, size: f64) -> OpenOrder {
    OpenOrder { market_id: MarketId(1), side, size: fx(size), rate: fx(0.08) }
}

#[test]
fn margins_and_headroom_are_exact() {
    let engine = test_engine(0.08, HALF_YEAR_SECS);
    let mut account = empty_account();
    account.positions.push(Position { market_id: MarketId(1), size: fx(1000.0) });
    let state = engine.compute_account_state(&account).unwrap();
    assert_eq!(state.total_value, FixedX18::from_integer(10_040));
    assert_eq!(state.total_im, fx(4.0));
    assert_eq!(state.total_mm, fx(2.0));
    assert_eq!(float(state.health_ratio), 5_020.0);

    let headroom = engine.margin_headroom_for_order(&empty_account(), &order(OrderSide::Long, 500.0)).unwrap();
    assert_eq!(headroom, FixedX18::from_integer(9_998));
}

#[test]
fn an_unknown_market_is_an_error() {
    let engine = test_engine(0.08, HALF_YEAR_SECS);
    let mut account = empty_account();
    account.positions.push(Position { market_id: MarketId(9), size: fx(1.0) });
    assert_eq!(engine.compute_account_state(&account), Err(MarginError::UnknownMarket(9)));
}

#[test]
fn a_market_can_be_added_and_updated() {
    let mut engine = MarginEngine::new(HashMap::new(), HashMap::new());
    let mut account = empty_account();
    account.positions.push(Position { market_id: MarketId(1), size: fx(1000.0) });
    assert_eq!(engine.compute_account_state(&account), Err(MarginError::UnknownMarket(1)));
    engine.insert_config(MarketId(1), test_config());
    assert_eq!(engine.compute_account_state(&account), Err(MarginError::UnknownMarket(1)));
    engine.update_market_state(MarketId(1), test_market(0.08, HALF_YEAR_SECS));
    assert_eq!(engine.compute_account_state(&account).unwrap().total_mm, fx(2.0));
    engine.update_market_state(MarketId(1), test_market(0.16, HALF_YEAR_SECS));
    assert_eq!(engine.compute_account_state(&account).unwrap().total_mm, fx(4.0));
}

#[test]
fn an_account_is_liquidatable_below_its_maintenance_margin() {
    let engine = test_engine(0.08, HALF_YEAR_SECS);
    let mut account = empty_account();
    account.positions.push(Position { market_id: MarketId(1), size: fx(-1000.0) });
    account.cash = fx(42.0);
    let at_the_line = engine.compute_account_state(&account).unwrap();
    assert_eq!(at_the_line.total_value, at_the_line.total_mm);
    assert_eq!(float(at_the_line.health_ratio), 1.0);
    assert!(!at_the_line.is_liquidatable);
    account.cash = account.cash - FixedX18::raw(1_000);
    assert!(engine.compute_account_state(&account).unwrap().is_liquidatable);
}

#[test]
fn an_account_worth_nothing_is_liquidatable_once_it_owes_margin() {
    let engine = test_engine(0.08, HALF_YEAR_SECS);
    let mut account = empty_account();
    account.cash = fx(-40.0);
    assert!(!engine.compute_account_state(&account).unwrap().is_liquidatable);
    account.positions.push(Position { market_id: MarketId(1), size: fx(1000.0) });
    let state = engine.compute_account_state(&account).unwrap();
    assert_eq!(state.total_value, FixedX18::zero());
    assert_eq!(float(state.health_ratio), 0.0);
    assert!(state.is_liquidatable);
}

#[test]
fn a_value_out_of_range_is_a_math_error() {
    let engine = test_engine(1000.0, HALF_YEAR_SECS);
    let mut account = empty_account();
    account.positions.push(Position { market_id: MarketId(1), size: FixedX18::raw(i128::MAX) });
    assert_eq!(engine.compute_account_state(&account), Err(MarginError::Math(MathError::Overflow)));
}

#[test]
fn an_account_with_one_more_order_keeps_the_rest() {
    let account = empty_account();
    let more = account.with_order(order(OrderSide::Short, 3.0));
    assert_eq!(more.open_orders, vec![order(OrderSide::Short, 3.0)]);
    assert_eq!(more.cash, account.cash);
    assert!(more.is_cross());
}

#[test]
fn a_position_is_valued_with_one_rounding() {
    let position = Position { market_id: MarketId(1), size: FixedX18::raw(-1) };
    let market = test_market(1.0, 1);
    assert_eq!(position.value(&market), Ok(FixedX18::raw(-1)));
}

#[test]
fn near_maturity_with_the_mark_in_favour_the_shorter_rule_applies() {
    let engine = test_engine(0.08, 60);
    let mut long = empty_account();
    long.positions.push(Position { market_id: MarketId(1), size: fx(1000.0) });
    let mut short = empty_account();
    short.positions.push(Position { market_id: MarketId(1), size: fx(-1000.0) });
    let long_mm = engine.compute_account_state(&long).unwrap().total_mm;
    let short_mm = engine.compute_account_state(&short).unwrap().total_mm;
    assert_ne!(long_mm, short_mm);
}

#[test]
fn values_without_a_magnitude_are_found_before_computing() {
    let mut engine = test_engine(0.08, HALF_YEAR_SECS);
    let mut account = empty_account();
    account.positions.push(Position { market_id: MarketId(1), size: fx(1.0) });
    assert!(engine.is_computable(&account));
    let mut odd = account.clone();
    odd.positions[0].size = FixedX18::raw(i128::MIN);
    assert!(!engine.is_computable(&odd));
    assert!(!engine.is_computable(&account.with_order(OpenOrder {
        rate: FixedX18::raw(i128::MIN),
        ..order(OrderSide::Long, 1.0)
    })));
    engine.update_market_state(MarketId(1), MarketState {
        mark_rate: FixedX18::raw(i128::MIN),
        time_to_maturity_secs: 1,
    });
    assert!(!engine.is_computable(&account));
}

#[test]
fn an_error_comes_before_a_value_without_a_magnitude_behind_it() {
    let engine = test_engine(0.08, HALF_YEAR_SECS);
    let odd = OpenOrder { rate: FixedX18::raw(i128::MIN), ..order(OrderSide::Long, 1.0) };
    let huge = OpenOrder { rate: FixedX18::raw(i128::MAX), ..order(OrderSide::Long, 1e15) };
    let behind = empty_account().with_order(huge).with_order(odd);
    assert!(engine.is_computable(&behind));
    assert_eq!(engine.compute_account_state(&behind), Err(MarginError::Math(MathError::Overflow)));
    assert!(!engine.is_computable(&empty_account().with_order(odd).with_order(huge)));

    let unknown = empty_account().with_order(OpenOrder { market_id: MarketId(2), ..odd });
    assert!(engine.is_computable(&unknown));
    assert_eq!(engine.compute_account_state(&unknown), Err(MarginError::UnknownMarket(2)));

    let mut other_token = empty_account().with_order(odd);
    other_token.token_id = TokenId(9);
    assert!(engine.is_computable(&other_token));
    assert!(engine.compute_account_state(&other_token).is_err());
    other_token.margin_mode = MarginMode::Isolated { market_id: MarketId(1) };
    assert!(!engine.is_computable(&other_token));
}
