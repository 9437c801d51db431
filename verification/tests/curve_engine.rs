use boros_mm::curve_engine::spline::Knot;
use boros_mm::curve_engine::{ButterflySignal, Curve, CurveError, CurvePoint, MonotoneCubicSpline, Zone};
use boros_mm::float_bits::F64Bits;
use boros_mm::tick_math::FixedX18;

fn bits(v: f64) -> F64Bits {
    F64Bits(v.to_bits())
}

fn float(v: F64Bits) -> f64 {
    f64::from_bits(v.0)
}

fn fx(v: f64) -> FixedX18 {
    FixedX18::from_f64(F64Bits(v.to_bits()))
}

fn to_f64(v: FixedX18) -> f64 {
    f64::from_bits(v.to_f64().0)
}

fn knots_at(points: Vec<(f64, f64)>) -> Vec<Knot> {
    points.into_iter().map(|(x, y)| Knot { x: bits(x), y: bits(y) }).collect()
}

fn fit(points: Vec<(f64, f64)>) -> Result<MonotoneCubicSpline, CurveError> {
    MonotoneCubicSpline::fit(knots_at(points))
}

fn eval(spline: &MonotoneCubicSpline, x: f64) -> Option<f64> {
    spline.eval(bits(x)).map(float)
}

#[test]
fn interpolates_exactly_at_knots() {
    let spline = fit(vec![(0.0, 1.0), (1.0, 2.0), (2.0, 1.5), (3.0, 3.0)]).unwrap();
    assert_eq!(eval(&spline, 0.0), Some(1.0));
    assert_eq!(eval(&spline, 1.0), Some(2.0));
    assert_eq!(eval(&spline, 2.0), Some(1.5));
    assert_eq!(eval(&spline, 3.0), Some(3.0));
}

#[test]
fn returns_none_outside_domain() {
    let spline = fit(vec![(0.0, 1.0), (1.0, 2.0)]).unwrap();
    assert_eq!(eval(&spline, -0.1), None);
    assert_eq!(eval(&spline, 1.1), None);
}

#[test]
fn monotone_input_produces_monotone_output_no_overshoot() {
    let spline = fit(vec![(0.0, 1.0), (1.0, 1.01), (2.0, 5.0), (3.0, 5.01), (4.0, 10.0)]).unwrap();
    let mut prev = eval(&spline, 0.0).unwrap();
    let mut x = 0.0;
    while x <= 4.0 {
        let y = eval(&spline, x).unwrap();
        assert!(y >= prev - 1e-9, "overshoot detected: y({x})={y} < prev={prev}");
        prev = y;
        x += 0.01;
    }
}

#[test]
fn linear_data_interpolates_linearly() {
    let spline = fit(vec![(0.0, 0.0), (1.0, 2.0), (2.0, 4.0), (3.0, 6.0)]).unwrap();
    for i in 0..=30 {
        let x = i as f64 * 0.1;
        let y = eval(&spline, x).unwrap();
        assert!((y - 2.0 * x).abs() < 1e-9, "expected {}, got {} at x={}", 2.0 * x, y, x);
    }
}

#[test]
fn insufficient_points_rejected() {
    assert_eq!(fit(vec![(0.0, 1.0)]).unwrap_err(), CurveError::InsufficientPoints(1));
    assert_eq!(fit(vec![]).unwrap_err(), CurveError::InsufficientPoints(0));
}

#[test]
fn duplicate_x_rejected() {
    let err = fit(vec![(1.0, 1.0), (1.0, 2.0)]).unwrap_err();
    assert_eq!(err, CurveError::DuplicateMaturity(1));
}

#[test]
fn unsorted_input_is_sorted_before_fitting() {
    let spline = fit(vec![(2.0, 3.0), (0.0, 1.0), (1.0, 2.0)]).unwrap();
    assert_eq!(eval(&spline, 0.0), Some(1.0));
    assert_eq!(eval(&spline, 1.0), Some(2.0));
    assert_eq!(eval(&spline, 2.0), Some(3.0));
}

#[test]
fn non_finite_rate_rejected() {
    let err = fit(vec![(0.0, f64::NAN), (1.0, 1.0)]).unwrap_err();
    assert!(matches!(err, CurveError::NonFiniteRate(_)));
}

#[test]
fn local_extremum_does_not_overshoot_past_the_peak() {
    let spline = fit(vec![(0.0, 0.0), (1.0, 10.0), (2.0, 0.0)]).unwrap();
    let mut x = 0.0;
    while x <= 2.0 {
        let y = eval(&spline, x).unwrap();
        assert!(y <= 10.0 + 1e-9, "overshoot past local max: y({x})={y}");
        x += 0.01;
    }
}

#[test]
fn a_spline_knows_its_domain_and_its_tangents() {
    let spline = fit(vec![(3.0, 1.0), (-1.0, 2.0)]).unwrap();
    assert_eq!(spline.domain(), (bits(-1.0), bits(3.0)));
    assert_eq!(*spline.tangents(), vec![bits(-0.25), bits(-0.25)]);
    assert_eq!(*spline.knots(), knots_at(vec![(-1.0, 2.0), (3.0, 1.0)]));
    assert_eq!(eval(&spline, f64::NAN), None);
}

/// Tangents as the hardware computes them.
fn hardware_tangents(knots: &[(f64, f64)]) -> Vec<f64> {
    let n = knots.len();
    let secants: Vec<f64> =
        (0..n - 1).map(|k| (knots[k + 1].1 - knots[k].1) / (knots[k + 1].0 - knots[k].0)).collect();
    let mut m = vec![0.0; n];
    m[0] = secants[0];
    m[n - 1] = secants[n - 2];
    for k in 1..n - 1 {
        m[k] = (secants[k - 1] + secants[k]) / 2.0;
    }
    for k in 0..n - 1 {
        let d = secants[k];
        if d == 0.0 {
            m[k] = 0.0;
            m[k + 1] = 0.0;
            continue;
        }
        let (mut alpha, mut beta) = (m[k] / d, m[k + 1] / d);
        if alpha < 0.0 {
            m[k] = 0.0;
            alpha = 0.0;
        }
        if beta < 0.0 {
            m[k + 1] = 0.0;
            beta = 0.0;
        }
        let s: f64 = alpha * alpha + beta * beta;
        if s > 9.0 {
            let tau = 3.0 / s.sqrt();
            m[k] = tau * alpha * d;
            m[k + 1] = tau * beta * d;
        }
    }
    m
}

#[test]
fn tangents_and_values_match_the_hardware_bit_for_bit() {
    let knots = vec![(0.0, 1.0), (1.0, 1.01), (2.5, 5.0), (3.0, 5.01), (4.0, 5.01), (7.0, -2.0), (7.25, 0.3), (9.0, 0.4)];
    let spline = fit(knots.clone()).unwrap();
    let m = hardware_tangents(&knots);
    assert_eq!(*spline.tangents(), m.iter().map(|t| bits(*t)).collect::<Vec<_>>());
    for k in 0..knots.len() - 1 {
        let ((x0, y0), (x1, y1)) = (knots[k], knots[k + 1]);
        for i in 1..20 {
            let h = x1 - x0;
            let x = x0 + h * (i as f64 / 20.0);
            let t = (x - x0) / h;
            let t2 = t * t;
            let t3 = t2 * t;
            let h00 = 2.0 * t3 - 3.0 * t2 + 1.0;
            let h10 = t3 - 2.0 * t2 + t;
            let h01 = -2.0 * t3 + 3.0 * t2;
            let h11 = t3 - t2;
            let y = h00 * y0 + h10 * h * m[k] + h01 * y1 + h11 * h * m[k + 1];
            assert_eq!(spline.eval(bits(x)), Some(bits(y)), "at {x}");
        }
    }
}

#[test]
fn tangents_stay_within_three_secants() {
    let spline = fit(vec![(0.0, 0.0), (1.0, 0.001), (2.0, 10.0)]).unwrap();
    let secant = 0.001;
    let m = float(spline.tangents()[1]);
    assert!(m > 0.0 && m <= 3.0 * secant + 1e-15, "got {m}");
}

#[test]
fn tangents_follow_the_secants_of_both_neighbours() {
    let knots = vec![(0.0, 0.0), (1.0, 0.001), (2.0, 7.0), (2.5, 7.0), (3.0, 7.5), (5.0, -40.0), (5.1, -40.5)];
    let spline = fit(knots.clone()).unwrap();
    let tangents: Vec<f64> = spline.tangents().iter().map(|t| float(*t)).collect();
    for k in 0..knots.len() - 1 {
        let secant = (knots[k + 1].1 - knots[k].1) / (knots[k + 1].0 - knots[k].0);
        for t in [tangents[k], tangents[k + 1]] {
            assert!(t == 0.0 || t.signum() == secant.signum(), "{t} against {secant}");
            assert!(t.abs() <= 3.0 * secant.abs() * (1.0 + 1e-12), "{t} past three times {secant}");
        }
        let (low, high) = (knots[k].1.min(knots[k + 1].1), knots[k].1.max(knots[k + 1].1));
        for i in 0..=100 {
            let x = knots[k].0 + (knots[k + 1].0 - knots[k].0) * i as f64 / 100.0;
            let y = eval(&spline, x).unwrap();
            assert!(low - 1e-9 <= y && y <= high + 1e-9, "{y} outside {low}..{high}");
        }
    }
    assert_eq!((tangents[2], tangents[3]), (0.0, 0.0));
}

#[test]
fn zeros_of_either_sign_are_one_maturity() {
    let err = fit(vec![(0.0, 1.0), (-0.0, 2.0)]).unwrap_err();
    assert_eq!(err, CurveError::DuplicateMaturity(0));
    assert_eq!(fit(vec![(f64::INFINITY, 1.0), (0.0, 1.0)]).unwrap_err(), CurveError::NonFiniteRate(u32::MAX));
}

fn pt(market_id: u32, ttm_days: u32, rate: f64) -> CurvePoint {
    CurvePoint { market_id, time_to_maturity_secs: ttm_days * 86_400, rate: fx(rate) }
}

fn zone(points: Vec<CurvePoint>) -> Zone {
    Zone { name: "ETH".to_string(), points }
}

fn rate_at(curve: &Curve, secs: u32) -> Option<FixedX18> {
    curve.rate_at(secs)
}

fn butterflies(curve: &Curve, min_abs_deviation: f64) -> Vec<ButterflySignal> {
    curve.detect_butterflies(bits(min_abs_deviation))
}

#[test]
fn fits_and_interpolates_between_markets() {
    let z = zone(vec![pt(1, 30, 0.05), pt(2, 90, 0.06), pt(3, 180, 0.07)]);
    let curve = Curve::fit(&z).unwrap();
    let rate_60d = to_f64(rate_at(&curve, 60 * 86_400).unwrap());
    assert!(rate_60d > 0.05 && rate_60d < 0.06, "expected between 5% and 6%, got {rate_60d}");
    assert_eq!(curve.zone_name(), "ETH");
}

#[test]
fn none_outside_observed_range() {
    let z = zone(vec![pt(1, 30, 0.05), pt(2, 90, 0.06)]);
    let curve = Curve::fit(&z).unwrap();
    assert!(rate_at(&curve, 10 * 86_400).is_none());
    assert!(rate_at(&curve, 200 * 86_400).is_none());
    assert_eq!(rate_at(&curve, 30 * 86_400), Some(fx(0.05)));
    assert_eq!(rate_at(&curve, 90 * 86_400), Some(fx(0.06)));
}

#[test]
fn no_butterfly_signal_on_a_straight_line() {
    let z = zone(vec![pt(1, 30, 0.05), pt(2, 90, 0.06), pt(3, 150, 0.07)]);
    let curve = Curve::fit(&z).unwrap();
    let signals = butterflies(&curve, 1e-9);
    assert!(signals.is_empty(), "straight-line rates must not trigger a butterfly signal: {signals:?}");
}

#[test]
fn detects_cheap_middle_maturity() {
    let z = zone(vec![pt(1, 30, 0.08), pt(2, 90, 0.03), pt(3, 150, 0.08)]);
    let curve = Curve::fit(&z).unwrap();
    let signals = butterflies(&curve, 0.01);
    assert_eq!(signals.len(), 1);
    assert_eq!(signals[0].mid_maturity_secs, 90 * 86_400);
    assert!(float(signals[0].deviation) < 0.0);
}

#[test]
fn detects_rich_middle_maturity() {
    let z = zone(vec![pt(1, 30, 0.03), pt(2, 90, 0.08), pt(3, 150, 0.03)]);
    let curve = Curve::fit(&z).unwrap();
    let signals = butterflies(&curve, 0.01);
    assert_eq!(signals.len(), 1);
    assert!(float(signals[0].deviation) > 0.0);
}

#[test]
fn threshold_filters_small_deviations() {
    let z = zone(vec![pt(1, 30, 0.0500), pt(2, 90, 0.0505), pt(3, 150, 0.0500)]);
    let curve = Curve::fit(&z).unwrap();
    assert!(butterflies(&curve, 0.01).is_empty());
    assert!(!butterflies(&curve, 0.0001).is_empty());
}

#[test]
fn needs_at_least_two_markets() {
    let z = zone(vec![pt(1, 30, 0.05)]);
    assert_eq!(Curve::fit(&z).unwrap_err(), CurveError::InsufficientPoints(1));
}

#[test]
fn shortest_and_longest_maturity() {
    let z = zone(vec![pt(2, 90, 0.06), pt(1, 30, 0.05), pt(3, 180, 0.07)]);
    let curve = Curve::fit(&z).unwrap();
    assert_eq!(curve.shortest_maturity_secs(), 30 * 86_400);
    assert_eq!(curve.longest_maturity_secs(), 180 * 86_400);
}

#[test]
fn markets_that_share_a_maturity_make_no_curve() {
    let z = zone(vec![pt(2, 90, 0.06), pt(1, 30, 0.05), pt(3, 90, 0.07)]);
    assert_eq!(Curve::fit(&z).unwrap_err(), CurveError::DuplicateMaturity(90 * 86_400));
}

#[test]
fn a_deviation_is_measured_off_the_line_between_the_neighbours() {
    let z = zone(vec![pt(1, 10, 0.02), pt(2, 20, 0.05), pt(3, 50, 0.06)]);
    let curve = Curve::fit(&z).unwrap();
    let signals = butterflies(&curve, 0.0);
    assert_eq!(signals.len(), 1);
    let (l, m, r) = (to_f64(fx(0.02)), to_f64(fx(0.05)), to_f64(fx(0.06)));
    let weight = (20.0 * 86_400.0 - 10.0 * 86_400.0) / (50.0 * 86_400.0 - 10.0 * 86_400.0);
    assert_eq!(signals[0].deviation, bits(m - (l + weight * (r - l))));
    assert_eq!(signals[0].left_maturity_secs, 10 * 86_400);
    assert_eq!(signals[0].right_maturity_secs, 50 * 86_400);
}

#[test]
fn values_stay_between_their_knots_at_any_scale() {
    for scale in [1e-200, 1e-9, 1.0, 1e9, 1e200] {
        let points = vec![(0.0, -3.0), (0.1, -2.99), (2.0, 5.0), (3.0, 5.0), (7.0, -4.0), (7.5, 1.0)];
        let knots: Vec<(f64, f64)> = points.into_iter().map(|(x, y)| (x, y * scale)).collect();
        let spline = fit(knots.clone()).unwrap();
        for pair in knots.windows(2) {
            let ((x0, y0), (x1, y1)) = (pair[0], pair[1]);
            let slack = (y0.abs() + y1.abs()) / 68_719_476_736.0;
            let mut last = y0;
            for i in 0..=200 {
                let y = eval(&spline, x0 + (x1 - x0) * i as f64 / 200.0).unwrap();
                assert!(y0.min(y1) - slack <= y && y <= y0.max(y1) + slack, "overshoot to {y}");
                assert!(if y0 <= y1 { last <= y + 2.0 * slack } else { last >= y - 2.0 * slack }, "turned back at {y}");
                last = y;
            }
        }
    }
}
