use boros_mm::float_bits::F64Bits;
use boros_mm::oms_core::{
    calc_upfront_fixed_cost, trade_upfront_fixed_cost, LocalOrderStatus, OmsError, OrderId, OrderTracker, Side,
    TimeInForce, Trade,
};
use boros_mm::tick_math::{tick_exponent, FixedX18, MathError, SECONDS_PER_YEAR};

const ORDER_INDEX_MAX: u64 = (1 << 40) - 1;
const MARKER: u64 = 1 << 63;

fn fx(v: f64) -> FixedX18 {
    FixedX18::from_f64(F64Bits(v.to_bits()))
}

fn to_f64(v: FixedX18) -> f64 {
    f64::from_bits(v.to_f64().0)
}

fn power(id: OrderId) -> F64Bits {
    F64Bits(1.00005f64.powf(tick_exponent(id.tick_index(), 1) as f64).to_bits())
}

#[test]
fn roundtrip_various_ticks_and_sides() {
    for &side in &[Side::Long, Side::Short] {
        for &tick in &[i16::MIN, -1000, -1, 0, 1, 1000, i16::MAX] {
            for &idx in &[0u64, 1, 12345, ORDER_INDEX_MAX] {
                let id = OrderId::from_parts(side, tick, idx).unwrap();
                let (s, t, i) = id.unpack();
                assert_eq!(s, side, "side mismatch for tick={tick} idx={idx}");
                assert_eq!(t, tick, "tick mismatch for side={side:?} idx={idx}");
                assert_eq!(i, idx, "order_index mismatch for side={side:?} tick={tick}");
                assert!(id.is_initialized());
            }
        }
    }
}

#[test]
fn order_index_overflow_rejected() {
    let err = OrderId::from_parts(Side::Long, 0, ORDER_INDEX_MAX + 1).unwrap_err();
    assert_eq!(err, OmsError::OrderIndexOverflow(ORDER_INDEX_MAX + 1));
}

#[test]
fn long_priority_favors_higher_tick() {
    let low_tick = OrderId::from_parts(Side::Long, 100, 0).unwrap();
    let high_tick = OrderId::from_parts(Side::Long, 200, 0).unwrap();
    assert!(high_tick < low_tick, "higher LONG tick must sort first (lower raw id)");
}

#[test]
fn short_priority_favors_lower_tick() {
    let low_tick = OrderId::from_parts(Side::Short, 100, 0).unwrap();
    let high_tick = OrderId::from_parts(Side::Short, 200, 0).unwrap();
    assert!(low_tick < high_tick, "lower SHORT tick must sort first (lower raw id)");
}

#[test]
fn same_tick_lower_order_index_has_priority() {
    let first = OrderId::from_parts(Side::Long, 500, 10).unwrap();
    let second = OrderId::from_parts(Side::Long, 500, 20).unwrap();
    assert!(first < second, "lower order_index at the same tick must sort first");
}

#[test]
fn long_orders_and_short_orders_never_interleave_by_priority_semantics() {
    let long_id = OrderId::from_parts(Side::Long, i16::MAX, 0).unwrap();
    let short_id = OrderId::from_parts(Side::Short, i16::MIN, 0).unwrap();
    let _ = long_id < short_id; // no assertion, side bit dominates, not a priority claim
}

#[test]
fn side_accessor_matches_unpack() {
    let id = OrderId::from_parts(Side::Short, 42, 7).unwrap();
    assert_eq!(id.side(), Side::Short);
    assert_eq!(id.tick_index(), 42);
    assert_eq!(id.order_index(), 7);
}

#[test]
fn opposite_side_round_trips() {
    assert_eq!(Side::Long.opposite(), Side::Short);
    assert_eq!(Side::Short.opposite(), Side::Long);
    assert_eq!(Side::Long.opposite().opposite(), Side::Long);
}

#[test]
fn try_from_u64_round_trips_a_value_this_encoder_produced() {
    let original = OrderId::from_parts(Side::Short, -42, 12345).unwrap();
    let rebuilt = OrderId::try_from(original.raw()).unwrap();
    assert_eq!(rebuilt, original);
    assert_eq!(rebuilt.unpack(), (Side::Short, -42, 12345));
}

#[test]
fn try_from_u64_rejects_missing_initialized_bit() {
    let raw_without_marker = OrderId::from_parts(Side::Long, 0, 0).unwrap().raw() & !MARKER;
    let err = OrderId::try_from(raw_without_marker).unwrap_err();
    assert_eq!(err, OmsError::OrderIdNotInitialized(raw_without_marker));
}

#[test]
fn try_from_u64_accepts_every_marker_bit_set_value_regardless_of_tick_or_side() {
    for raw in [MARKER, u64::MAX, MARKER | (1 << 56), MARKER | ORDER_INDEX_MAX] {
        assert!(OrderId::try_from(raw).is_ok(), "raw={raw:#x} should decode to some valid triple");
    }
}

#[test]
fn one_full_year_returns_cost_unchanged() {
    let cost = fx(100.0);
    let got = calc_upfront_fixed_cost(cost, SECONDS_PER_YEAR).unwrap();
    assert_eq!(got, cost);
}

#[test]
fn half_year_halves_the_cost() {
    let cost = fx(100.0);
    let got = calc_upfront_fixed_cost(cost, SECONDS_PER_YEAR / 2).unwrap();
    let diff = (to_f64(got) - 50.0).abs();
    assert!(diff < 1e-6, "got {}", to_f64(got));
}

#[test]
fn zero_time_to_maturity_is_zero_cost() {
    let cost = fx(100.0);
    assert_eq!(calc_upfront_fixed_cost(cost, 0).unwrap(), FixedX18::zero());
}

#[test]
fn rounds_up_matching_ceil_semantics() {
    let got = calc_upfront_fixed_cost(FixedX18::raw(1), 1).unwrap();
    assert_eq!(got, FixedX18::raw(1));
}

#[test]
fn negative_cost_rounds_toward_zero_not_more_negative() {
    let cost = FixedX18::raw(-1);
    let got = calc_upfront_fixed_cost(cost, 1).unwrap();
    assert_eq!(got, FixedX18::zero(), "ceil(-1 * 1 / YEAR) must round toward zero, got {got:?}");
}


#[test]
fn placed_then_fully_filled_via_range() {
    let mut t = OrderTracker::new(1);
    let ids: Vec<OrderId> = (0..3).map(|i| OrderId::from_parts(Side::Long, 100, i).unwrap()).collect();
    let sizes = vec![fx(10.0), fx(20.0), fx(30.0)];
    t.on_placed(&ids, &sizes).unwrap();

    let trades = t.on_filled_range(ids[0], ids[2], power(ids[0])).unwrap();

    for (id, size) in ids.iter().zip(&sizes) {
        let o = t.get(*id).unwrap();
        assert_eq!(o.status, LocalOrderStatus::Filled);
        assert_eq!(o.filled_size, *size);
        assert_eq!(o.remaining_size(), FixedX18::zero());
    }
    assert_eq!(trades.len(), 3);
    for trade in &trades {
        assert!(trade.signed_size.is_positive());
    }
}

#[test]
fn filled_range_ignores_orders_we_dont_own() {
    let mut t = OrderTracker::new(1);
    let ours = OrderId::from_parts(Side::Long, 100, 1).unwrap();
    t.on_placed(&[ours], &[fx(20.0)]).unwrap();

    let from = OrderId::from_parts(Side::Long, 100, 0).unwrap();
    let to = OrderId::from_parts(Side::Long, 100, 2).unwrap();
    let trades = t.on_filled_range(from, to, power(from)).unwrap();

    assert_eq!(t.get(ours).unwrap().status, LocalOrderStatus::Filled);
    assert_eq!(trades.len(), 1);
}

#[test]
fn filled_range_rejects_mismatched_side_or_tick() {
    let mut t = OrderTracker::new(1);
    let from = OrderId::from_parts(Side::Long, 100, 0).unwrap();
    let to = OrderId::from_parts(Side::Short, 100, 5).unwrap();
    let err = t.on_filled_range(from, to, power(from)).unwrap_err();
    assert_eq!(err, OmsError::InvalidFillRange { from, to });
}

#[test]
fn partial_fill_accumulates_and_transitions_to_filled_when_complete() {
    let mut t = OrderTracker::new(1);
    let id = OrderId::from_parts(Side::Short, -50, 0).unwrap();
    t.on_placed(&[id], &[fx(100.0)]).unwrap();

    let trade1 = t.on_partially_filled(id, fx(30.0), power(id)).unwrap().expect("we own this order");
    let o = t.get(id).unwrap();
    assert_eq!(o.status, LocalOrderStatus::PartiallyFilled);
    assert_eq!(o.filled_size, fx(30.0));
    assert_eq!(o.remaining_size(), fx(70.0));
    assert!(trade1.signed_size.is_negative());

    t.on_partially_filled(id, fx(70.0), power(id)).unwrap();
    let o = t.get(id).unwrap();
    assert_eq!(o.status, LocalOrderStatus::Filled);
    assert_eq!(o.remaining_size(), FixedX18::zero());
}

#[test]
fn partial_fill_on_unknown_order_returns_none_not_an_error() {
    let mut t = OrderTracker::new(1);
    let id = OrderId::from_parts(Side::Long, 0, 0).unwrap();
    assert_eq!(t.on_partially_filled(id, fx(5.0), power(id)).unwrap(), None);
}

#[test]
fn trade_rate_sign_follows_tick_sign_not_side() {
    let mut t = OrderTracker::new(1);
    let id = OrderId::from_parts(Side::Short, 50, 0).unwrap(); // positive tick
    t.on_placed(&[id], &[fx(10.0)]).unwrap();

    let trade = t.on_partially_filled(id, fx(10.0), power(id)).unwrap().unwrap();
    assert!(trade.signed_size.is_negative(), "Short must give negative signed_size");
    assert!(trade.signed_cost.is_negative(), "positive rate * negative size = negative cost");
}

#[test]
fn cancel_and_forced_cancel_are_distinct_terminal_states() {
    let mut t = OrderTracker::new(1);
    let a = OrderId::from_parts(Side::Long, 0, 0).unwrap();
    let b = OrderId::from_parts(Side::Long, 0, 1).unwrap();
    t.on_placed(&[a, b], &[fx(1.0), fx(1.0)]).unwrap();

    t.on_cancelled(&[a]);
    t.on_forced_cancelled(&[b]);

    assert_eq!(t.get(a).unwrap().status, LocalOrderStatus::Cancelled);
    assert_eq!(t.get(b).unwrap().status, LocalOrderStatus::ForcedCancelled);
}

#[test]
fn open_orders_excludes_terminal() {
    let mut t = OrderTracker::new(1);
    let a = OrderId::from_parts(Side::Long, 0, 0).unwrap();
    let b = OrderId::from_parts(Side::Long, 0, 1).unwrap();
    t.on_placed(&[a, b], &[fx(1.0), fx(1.0)]).unwrap();
    t.on_cancelled(&[a]);

    let open: Vec<_> = t.open_orders().iter().map(|o| o.id).collect();
    assert_eq!(open, vec![b]);
}

#[test]
fn mismatched_placed_lengths_rejected() {
    let mut t = OrderTracker::new(1);
    let ids = vec![OrderId::from_parts(Side::Long, 0, 0).unwrap()];
    let err = t.on_placed(&ids, &[]).unwrap_err();
    assert_eq!(err, OmsError::MismatchedPlacedLengths { ids: 1, sizes: 0 });
}

#[test]
fn forget_removes_from_tracker() {
    let mut t = OrderTracker::new(1);
    let id = OrderId::from_parts(Side::Long, 0, 0).unwrap();
    t.on_placed(&[id], &[fx(1.0)]).unwrap();
    t.forget(id);
    assert!(t.get(id).is_none());
}

#[test]
fn from_size_and_rate_matches_manual_mul_down() {
    let size = fx(1000.0);
    let rate = fx(0.08);
    let trade = Trade::from_size_and_rate(size, rate).unwrap();
    assert_eq!(trade.signed_size, size);
    assert_eq!(trade.signed_cost, size.mul_down(rate).unwrap());
}

#[test]
fn from_size_and_rate_truncates_toward_zero_not_floor() {
    let size = fx(-1.5);
    let rate = FixedX18::raw(1);
    let trade = Trade::from_size_and_rate(size, rate).unwrap();
    assert_eq!(trade.signed_cost, FixedX18::raw(-1));
    assert_eq!(size.mul_floor(rate).unwrap(), FixedX18::raw(-2));
}

#[test]
fn from3_long_gives_positive_size() {
    let trade = Trade::from3(Side::Long, fx(500.0), fx(0.05)).unwrap();
    assert_eq!(trade.side(), Side::Long);
    assert!(trade.signed_size.is_positive());
    assert!(trade.signed_cost.is_positive());
}

#[test]
fn from3_short_negates_both_size_and_cost() {
    let long = Trade::from3(Side::Long, fx(500.0), fx(0.05)).unwrap();
    let short = Trade::from3(Side::Short, fx(500.0), fx(0.05)).unwrap();
    assert_eq!(short.signed_size, -long.signed_size);
    assert_eq!(short.signed_cost, -long.signed_cost);
}

#[test]
fn from3_matches_from_size_and_rate_for_long() {
    let size = fx(200.0);
    let rate = fx(0.03);
    assert_eq!(
        Trade::from3(Side::Long, size, rate).unwrap(),
        Trade::from_size_and_rate(size, rate).unwrap(),
    );
}

#[test]
fn an_inverted_fill_range_is_refused() {
    let mut t = OrderTracker::new(1);
    let from = OrderId::from_parts(Side::Long, 100, 5).unwrap();
    let to = OrderId::from_parts(Side::Long, 100, 2).unwrap();
    assert_eq!(t.on_filled_range(from, to, power(from)), Err(OmsError::InvertedFillRange(2, 5)));
}

#[test]
fn a_fill_without_a_rate_is_a_math_error() {
    let mut t = OrderTracker::new(1);
    let id = OrderId::from_parts(Side::Long, 100, 0).unwrap();
    t.on_placed(&[id], &[fx(1.0)]).unwrap();
    assert_eq!(t.on_filled_range(id, id, F64Bits(f64::INFINITY.to_bits())), Err(OmsError::Math(MathError::InvalidTick(100))));
}

#[test]
fn ids_without_stray_bits_are_rebuilt_from_their_parts() {
    for raw in [MARKER, MARKER | (1 << 56), MARKER | ORDER_INDEX_MAX, MARKER | (0x1234 << 40) | 77] {
        let id = OrderId::try_from(raw).unwrap();
        let (side, tick, index) = id.unpack();
        assert_eq!(OrderId::from_parts(side, tick, index).unwrap().raw(), raw);
    }
}

#[test]
fn trades_add_and_mirror() {
    let a = Trade { signed_size: fx(2.0), signed_cost: fx(0.1) };
    let b = Trade { signed_size: fx(-3.0), signed_cost: fx(-0.3) };
    assert_eq!(a.add(b), Trade { signed_size: fx(-1.0), signed_cost: fx(0.1) - fx(0.3) });
    assert_eq!(b.opposite(), Trade { signed_size: fx(3.0), signed_cost: fx(0.3) });
    assert_eq!(b.opposite().opposite(), b);
    assert_eq!(b.side(), Side::Short);
    assert_eq!(b.abs_size(), fx(3.0));
    assert_eq!(b.abs_cost(), fx(0.3));
    assert!(Trade::zero().is_zero());
    assert!(!a.is_zero());
}

#[test]
fn a_trade_out_of_range_is_a_math_error() {
    let r = Trade::from_size_and_rate(FixedX18::raw(i128::MAX), fx(2.0));
    assert_eq!(r, Err(OmsError::Math(MathError::Overflow)));
}

#[test]
fn the_upfront_cost_of_a_trade_is_that_of_its_cost() {
    let trade = Trade::from3(Side::Short, fx(1000.0), fx(0.08)).unwrap();
    let cost = trade_upfront_fixed_cost(&trade, SECONDS_PER_YEAR / 4).unwrap();
    assert_eq!(cost, fx(-20.0));
    assert_eq!(cost, calc_upfront_fixed_cost(trade.signed_cost, SECONDS_PER_YEAR / 4).unwrap());
}

#[test]
fn partial_fills_add_up_to_the_whole() {
    let mut t = OrderTracker::new(1);
    let id = OrderId::from_parts(Side::Long, 10, 0).unwrap();
    t.on_placed(&[id], &[fx(10.0)]).unwrap();
    let mut filled = Trade::zero();
    for part in [1.0, 2.0, 3.0, 4.0] {
        filled = filled.add(t.on_partially_filled(id, fx(part), power(id)).unwrap().unwrap());
    }
    assert_eq!(filled.signed_size, fx(10.0));
    assert!(t.get(id).unwrap().is_terminal());
    assert!(t.open_orders().is_empty());
}

#[test]
fn maker_only_orders_are_told_apart() {
    assert!(TimeInForce::Alo.is_alo());
    assert!(TimeInForce::SoftAlo.is_alo());
    assert!(!TimeInForce::Gtc.is_alo());
    assert!(TimeInForce::SoftAlo.should_skip_matchable_orders());
    assert!(!TimeInForce::Alo.should_skip_matchable_orders());
    assert!(Side::Long.sweeps_tick_top_down() != Side::Short.sweeps_tick_top_down());
}

#[test]
fn only_forgetting_drops_an_order() {
    let mut t = OrderTracker::new(1);
    let ids: Vec<OrderId> = (0..4).map(|i| OrderId::from_parts(Side::Short, 100, i).unwrap()).collect();
    t.on_placed(&ids, &[fx(10.0), fx(10.0), fx(10.0), fx(10.0)]).unwrap();
    t.on_filled_range(ids[0], ids[0], power(ids[0])).unwrap();
    t.on_partially_filled(ids[1], fx(4.0), power(ids[1])).unwrap();
    t.on_cancelled(&[ids[2]]);
    t.on_forced_cancelled(&[ids[3]]);
    assert!(ids.iter().all(|id| t.get(*id).is_some()));

    let kept = *t.get(ids[1]).unwrap();
    t.forget(ids[2]);
    assert!(t.get(ids[2]).is_none());
    assert_eq!(*t.get(ids[1]).unwrap(), kept);
    assert!(t.get(ids[0]).is_some() && t.get(ids[3]).is_some());
}
