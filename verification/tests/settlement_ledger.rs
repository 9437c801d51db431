use boros_mm::float_bits::F64Bits;
use boros_mm::settlement_ledger::{FIndexRecord, Fill, LedgerError, PayFee, SettlementLedger};
use boros_mm::tick_math::{FixedX18, MathError};

fn fx(v: f64) -> FixedX18 {
    FixedX18::from_f64(F64Bits(v.to_bits()))
}

fn to_f64(v: FixedX18) -> f64 {
    f64::from_bits(v.to_f64().0)
}


fn idx(f_tag: u32, floating: f64, fee: f64) -> FIndexRecord {
    FIndexRecord { f_tag, f_time: f_tag as u64 * 3600, floating_index: fx(floating), fee_index: fx(fee) }
}

#[test]
fn no_fills_flat_period_payment_and_fee() {
    let mut l = SettlementLedger::new();
    l.init_market(1, fx(1000.0), 1);
    l.record_findex(1, idx(1, 1.000, 0.000)).unwrap();
    l.record_findex(1, idx(3, 1.001, 0.0001)).unwrap();

    let res = l.settle_to(1, 3).unwrap();
    assert!((to_f64(res.total.payment) - 1.0).abs() < 1e-9, "payment={}", to_f64(res.total.payment));
    assert!((to_f64(res.total.fee) - 0.1).abs() < 1e-9, "fee={}", to_f64(res.total.fee));
    assert_eq!(res.sub_periods.len(), 1);
    assert_eq!(l.checkpoint(1), Some(3));
    assert_eq!(l.position_size(1), Some(fx(1000.0)));
}

#[test]
fn fill_at_checkpoint_tag_applies_immediately_with_no_settlement() {
    let mut l = SettlementLedger::new();
    l.init_market(1, fx(500.0), 5);
    l.record_fill(1, Fill { f_tag: 5, size_delta: fx(200.0) }).unwrap();
    assert_eq!(l.position_size(1), Some(fx(700.0)));
    assert_eq!(l.checkpoint(1), Some(5)); // unchanged, no settlement happened
}

#[test]
fn partial_close_mid_window_splits_into_subperiods() {
    let mut l = SettlementLedger::new();
    l.init_market(1, fx(1000.0), 1);
    l.record_findex(1, idx(1, 1.000, 0.0)).unwrap();
    l.record_findex(1, idx(2, 1.0015, 0.0)).unwrap(); // fill boundary
    l.record_findex(1, idx(3, 1.002, 0.0)).unwrap();
    l.record_fill(1, Fill { f_tag: 2, size_delta: fx(-500.0) }).unwrap();

    let res = l.settle_to(1, 3).unwrap();
    assert_eq!(res.sub_periods.len(), 2);

    let sp0 = res.sub_periods[0];
    assert_eq!(sp0.size_held, fx(1000.0));
    assert!((to_f64(sp0.result.payment) - 1.5).abs() < 1e-6, "sp0 payment {}", to_f64(sp0.result.payment));

    let sp1 = res.sub_periods[1];
    assert_eq!(sp1.size_held, fx(500.0));
    assert!((to_f64(sp1.result.payment) - 0.25).abs() < 1e-6, "sp1 payment {}", to_f64(sp1.result.payment));

    assert!((to_f64(res.total.payment) - 1.75).abs() < 1e-6, "total {}", to_f64(res.total.payment));
    assert_eq!(l.position_size(1), Some(fx(500.0)));
}

#[test]
fn position_flip_prices_each_sign_correctly() {
    let mut l = SettlementLedger::new();
    l.init_market(1, fx(100.0), 1);
    l.record_findex(1, idx(1, 1.00, 0.0)).unwrap();
    l.record_findex(1, idx(2, 1.05, 0.0)).unwrap();
    l.record_findex(1, idx(3, 1.10, 0.0)).unwrap();
    l.record_fill(1, Fill { f_tag: 2, size_delta: fx(-150.0) }).unwrap();

    let res = l.settle_to(1, 3).unwrap();
    assert!((to_f64(res.total.payment) - 2.5).abs() < 1e-6, "got {}", to_f64(res.total.payment));
    assert_eq!(l.position_size(1), Some(fx(-50.0)));
}

#[test]
fn last_equals_current_findex_is_zero_payment_fast_path() {
    let mut l = SettlementLedger::new();
    l.init_market(1, fx(1000.0), 1);
    l.record_findex(1, idx(1, 1.000, 0.0005)).unwrap();
    l.record_findex(1, idx(2, 1.000, 0.0005)).unwrap(); // purge: same index

    let res = l.settle_to(1, 2).unwrap();
    assert_eq!(res.total, PayFee::zero());
}

#[test]
fn sequential_settlements_reuse_persisted_findex() {
    let mut l = SettlementLedger::new();
    l.init_market(1, fx(1000.0), 1);
    l.record_findex(1, idx(1, 1.000, 0.0)).unwrap();
    l.record_findex(1, idx(2, 1.001, 0.0)).unwrap();
    let first = l.settle_to(1, 2).unwrap();
    assert!((to_f64(first.total.payment) - 1.0).abs() < 1e-9);
    l.record_findex(1, idx(3, 1.0025, 0.0)).unwrap();
    let second = l.settle_to(1, 3).unwrap();
    assert!((to_f64(second.total.payment) - 1.5).abs() < 1e-9, "got {}", to_f64(second.total.payment));
}

#[test]
fn missing_findex_record_errors_instead_of_interpolating() {
    let mut l = SettlementLedger::new();
    l.init_market(1, fx(1000.0), 1);
    l.record_findex(1, idx(1, 1.000, 0.0)).unwrap();
    let err = l.settle_to(1, 2).unwrap_err();
    assert_eq!(err, LedgerError::MissingFIndexRecord(2));
}

#[test]
fn conflicting_findex_record_rejected() {
    let mut l = SettlementLedger::new();
    l.init_market(1, fx(1000.0), 1);
    l.record_findex(1, idx(1, 1.000, 0.0)).unwrap();
    let err = l.record_findex(1, idx(1, 1.001, 0.0)).unwrap_err(); // same f_tag, different value
    assert_eq!(err, LedgerError::ConflictingFIndexRecord(1));
}

#[test]
fn identical_findex_record_resubmission_is_idempotent() {
    let mut l = SettlementLedger::new();
    l.init_market(1, fx(1000.0), 1);
    l.record_findex(1, idx(1, 1.000, 0.0)).unwrap();
    l.record_findex(1, idx(1, 1.000, 0.0)).unwrap(); // same value again, fine
}

#[test]
fn non_monotonic_settlement_rejected() {
    let mut l = SettlementLedger::new();
    l.init_market(1, fx(1000.0), 10);
    let err = l.settle_to(1, 5).unwrap_err();
    assert_eq!(err, LedgerError::NonMonotonicSettlement { checkpoint: 10, upto: 5 });
}

#[test]
fn fill_before_checkpoint_rejected() {
    let mut l = SettlementLedger::new();
    l.init_market(1, fx(1000.0), 10);
    let err = l.record_fill(1, Fill { f_tag: 5, size_delta: fx(1.0) }).unwrap_err();
    assert_eq!(err, LedgerError::FillBeforeCheckpoint(5));
}

#[test]
fn unknown_market_rejected() {
    let mut l = SettlementLedger::new();
    let err = l.record_fill(99, Fill { f_tag: 0, size_delta: fx(1.0) }).unwrap_err();
    assert_eq!(err, LedgerError::UnknownMarket(99));
}

#[test]
fn zero_length_settlement_is_noop() {
    let mut l = SettlementLedger::new();
    l.init_market(1, fx(1000.0), 5);
    let res = l.settle_to(1, 5).unwrap();
    assert_eq!(res.total, PayFee::zero());
    assert!(res.sub_periods.is_empty());
}

#[test]
fn fee_index_decrease_is_rejected_not_silently_absorbed() {
    let mut l = SettlementLedger::new();
    l.init_market(1, fx(1000.0), 1);
    l.record_findex(1, idx(1, 1.000, 0.001)).unwrap();
    l.record_findex(1, idx(2, 1.001, 0.0005)).unwrap(); // fee_index went DOWN, invalid
    let err = l.settle_to(1, 2).unwrap_err();
    assert_eq!(err, LedgerError::FeeIndexDecreased { last_f_tag: 1, current_f_tag: 2 });
}

#[test]
fn floor_rounding_matches_negative_edge_case() {
    let mut l = SettlementLedger::new();
    l.init_market(1, FixedX18::raw(-1), 1);
    l.record_findex(1, FIndexRecord { f_tag: 1, f_time: 0, floating_index: FixedX18::zero(), fee_index: FixedX18::zero() }).unwrap();
    l.record_findex(1, FIndexRecord { f_tag: 2, f_time: 3600, floating_index: FixedX18::raw(1), fee_index: FixedX18::zero() }).unwrap();

    let res = l.settle_to(1, 2).unwrap();
    assert_eq!(res.total.payment, FixedX18::raw(-1));
}

#[test]
fn a_record_behind_the_checkpoint_is_refused() {
    let mut l = SettlementLedger::new();
    l.init_market(1, fx(1.0), 10);
    assert_eq!(l.record_findex(1, idx(9, 1.0, 0.0)), Err(LedgerError::FIndexRecordBeforeCheckpoint(9)));
    assert_eq!(l.record_findex(2, idx(9, 1.0, 0.0)), Err(LedgerError::UnknownMarket(2)));
    assert_eq!(l.settle_to(2, 11).unwrap_err(), LedgerError::UnknownMarket(2));
    assert_eq!(l.position_size(2), None);
    assert_eq!(l.checkpoint(2), None);
}

#[test]
fn a_payment_out_of_range_is_a_math_error() {
    let mut l = SettlementLedger::new();
    l.init_market(1, FixedX18::raw(i128::MAX), 1);
    l.record_findex(1, idx(1, 0.0, 0.0)).unwrap();
    l.record_findex(1, idx(2, 2.0, 0.0)).unwrap();
    assert_eq!(l.settle_to(1, 2).unwrap_err(), LedgerError::Math(MathError::Overflow));
    assert_eq!(l.checkpoint(1), Some(1), "a refused settlement leaves the market as it was");
}

fn filled_ledger() -> SettlementLedger {
    let mut l = SettlementLedger::new();
    l.init_market(1, fx(1000.0), 1);
    l.record_findex(1, idx(1, 1.000, 0.0)).unwrap();
    l.record_findex(1, idx(2, 1.001, 0.001)).unwrap();
    l.record_findex(1, idx(4, 1.003, 0.002)).unwrap();
    l.record_findex(1, idx(6, 1.002, 0.003)).unwrap();
    l.record_fill(1, Fill { f_tag: 4, size_delta: fx(-1500.0) }).unwrap();
    l.record_fill(1, Fill { f_tag: 2, size_delta: fx(250.0) }).unwrap();
    l.record_fill(1, Fill { f_tag: 4, size_delta: fx(100.0) }).unwrap();
    l
}

#[test]
fn stopping_at_a_fill_gives_the_same_sub_periods() {
    let mut once = filled_ledger();
    let whole = once.settle_to(1, 6).unwrap();
    for mid in [2u32, 4] {
        let mut twice = filled_ledger();
        let first = twice.settle_to(1, mid).unwrap();
        let second = twice.settle_to(1, 6).unwrap();
        assert_eq!(first.total.add(second.total), whole.total);
        let mut periods = first.sub_periods;
        periods.extend(second.sub_periods);
        assert_eq!(periods, whole.sub_periods);
        assert_eq!(twice.position_size(1), once.position_size(1));
        assert_eq!(twice.checkpoint(1), once.checkpoint(1));
    }
}

#[test]
fn sub_periods_tile_the_window_and_fees_round_up() {
    let mut l = filled_ledger();
    let result = l.settle_to(1, 6).unwrap();
    let tags: Vec<(u32, u32)> = result.sub_periods.iter().map(|p| (p.start_f_tag, p.end_f_tag)).collect();
    assert_eq!(tags, vec![(1, 2), (2, 4), (4, 6)]);
    let sizes: Vec<FixedX18> = result.sub_periods.iter().map(|p| p.size_held).collect();
    assert_eq!(sizes, vec![fx(1000.0), fx(1250.0), fx(-150.0)]);
    assert_eq!(result.total.fee, FixedX18::raw(2_400_000_000_000_000_000));
    assert_eq!(PayFee::zero().add(result.total), result.total);
    assert_eq!(PayFee::default(), PayFee::zero());
}

#[test]
fn registering_a_market_again_starts_it_over() {
    let mut l = filled_ledger();
    l.init_market(1, fx(5.0), 7);
    assert_eq!(l.position_size(1), Some(fx(5.0)));
    assert_eq!(l.settle_to(1, 8).unwrap_err(), LedgerError::MissingFIndexRecord(7));
}

#[test]
fn sub_periods_meet_at_the_fills_inside_the_window_only() {
    let mut l = filled_ledger();
    l.record_fill(1, Fill { f_tag: 6, size_delta: fx(10.0) }).unwrap();
    l.record_fill(1, Fill { f_tag: 9, size_delta: fx(10.0) }).unwrap();
    l.record_fill(1, Fill { f_tag: 1, size_delta: fx(10.0) }).unwrap();
    let periods = l.settle_to(1, 6).unwrap().sub_periods;
    assert!(periods.iter().all(|p| p.start_f_tag < p.end_f_tag));
    let inner: Vec<u32> = periods.iter().skip(1).map(|p| p.start_f_tag).collect();
    assert_eq!(inner, vec![2, 4]);
}
