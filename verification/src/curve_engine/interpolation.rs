//! What goes into an interpolant: its knots, its slopes, and the rate it gives.

use vstd::arithmetic::power2::{lemma_pow2_pos, lemma_pow2_unfold};
use vstd::prelude::*;

use crate::curve_engine::curve;
use crate::curve_engine::error::CurveError;
use crate::curve_engine::evaluation;
use crate::curve_engine::shape;
use crate::curve_engine::spline;
use crate::curve_engine::spline::{Knot, Place};
use crate::curve_engine::types::CurvePoint;
use crate::float_bits;
use crate::float_bits::{F64Bits, NINE, THREE, TWO};
use crate::float_error;
use crate::float_math;
use crate::float_near;
use crate::float_near::{distance, full, near};
use crate::float_order;
use crate::float_round;
use crate::ordering;
use crate::tick_math::fixed;

verus! {

/// Whether no two points share a maturity.
pub open spec fn maturities_differ(points: Seq<CurvePoint>) -> bool {
    forall|i: int, j: int|
        0 <= i < j < points.len() ==> (#[trigger] points[i]).time_to_maturity_secs != (
        #[trigger] points[j]).time_to_maturity_secs
}

proof fn lemma_same_duplicates<T>(a: Seq<T>, b: Seq<T>)
    requires
        a.to_multiset() == b.to_multiset(),
        a.no_duplicates(),
    ensures
        b.no_duplicates(),
{
    a.lemma_multiset_has_no_duplicates();
    b.lemma_multiset_has_no_duplicates_conv();
}

proof fn lemma_found<T>(a: Seq<T>, b: Seq<T>, i: int) -> (j: int)
    requires
        a.to_multiset() == b.to_multiset(),
        0 <= i < a.len(),
    ensures
        0 <= j < b.len(),
        b[j] == a[i],
{
    broadcast use vstd::seq_lib::group_to_multiset_ensures;

    assert(a.contains(a[i]));
    assert(a.to_multiset().count(a[i]) > 0);
    assert(b.contains(a[i]));
    choose|j: int| 0 <= j < b.len() && b[j] == a[i]
}

proof fn lemma_repeat_found(points: Seq<CurvePoint>, n: nat) -> (k: int)
    requires
        curve::first_repeat(points, n) is Some,
        n < points.len(),
    ensures
        0 <= k < n,
        points[k].time_to_maturity_secs == points[k + 1].time_to_maturity_secs,
        curve::first_repeat(points, n) == Some(points[k]),
    decreases n,
{
    if curve::first_repeat(points, (n - 1) as nat) is Some {
        lemma_repeat_found(points, (n - 1) as nat)
    } else {
        n - 1
    }
}

/// Points make a curve exactly when there are two or more and no two share a maturity.
/// The curve then has all of them, by ascending maturity.
pub proof fn law_points_with_different_maturities_make_a_curve(points: Seq<CurvePoint>)
    ensures
        curve::points_of(points) is Ok <==> points.len() >= 2 && maturities_differ(points),
        points.len() < 2 ==> curve::points_of(points) == Err::<Seq<CurvePoint>, CurveError>(
            CurveError::InsufficientPoints(points.len() as usize),
        ),
        points.len() >= 2 && !maturities_differ(points) ==> (curve::points_of(points) matches Err(
            CurveError::DuplicateMaturity(m),
        ) && exists|i: int| 0 <= i < points.len() && (#[trigger] points[i]).time_to_maturity_secs == m),
        curve::points_of(points) matches Ok(sorted) ==> {
            &&& sorted.to_multiset() == points.to_multiset()
            &&& sorted.len() == points.len()
            &&& forall|i: int, j: int|
                0 <= i < j < sorted.len() ==> (#[trigger] sorted[i]).time_to_maturity_secs < (
                #[trigger] sorted[j]).time_to_maturity_secs
        },
{
    let sorted = ordering::stably_sorted(points, curve::maturity_key());
    ordering::law_sorting_permutes_into_order(points, curve::maturity_key());
    if points.len() >= 2 {
        let n = (sorted.len() - 1) as nat;
        if curve::first_repeat(sorted, n) is None {
            curve::lemma_maturities_ascend(sorted, n);
            assert forall|i: int, j: int| 0 <= i < j < points.len() implies (
            #[trigger] points[i]).time_to_maturity_secs != (#[trigger] points[j]).time_to_maturity_secs by {
                let a = lemma_found(points, sorted, i);
                let b = lemma_found(points, sorted, j);
                if a == b {
                    lemma_same_duplicates(sorted, points);
                }
            }
        } else {
            let k = lemma_repeat_found(sorted, n);
            let a = lemma_found(sorted, points, k);
            let b = lemma_found(sorted, points, k + 1);
            if maturities_differ(points) {
                if a == b {
                    assert(points.no_duplicates()) by {
                        assert forall|i: int, j: int|
                            0 <= i < points.len() && 0 <= j < points.len() && i != j implies points[i]
                            != points[j] by {
                            if i < j {
                                assert(points[i].time_to_maturity_secs != points[j].time_to_maturity_secs);
                            } else {
                                assert(points[j].time_to_maturity_secs != points[i].time_to_maturity_secs);
                            }
                        }
                    }
                    lemma_same_duplicates(points, sorted);
                } else if a < b {
                    assert(points[a].time_to_maturity_secs != points[b].time_to_maturity_secs);
                } else {
                    assert(points[b].time_to_maturity_secs != points[a].time_to_maturity_secs);
                }
            }
        }
    }
}

/// Whether no two points stand at one place.
pub open spec fn places_differ(points: Seq<Knot>) -> bool {
    forall|i: int, j: int|
        0 <= i < j < points.len() ==> !float_bits::equal((#[trigger] points[i]).x, (#[trigger] points[j]).x)
}

/// Whether every point has finite coordinates.
pub open spec fn all_finite(points: Seq<Knot>) -> bool {
    forall|i: int|
        0 <= i < points.len() ==> float_bits::finite((#[trigger] points[i]).x) && float_bits::finite(points[i].y)
}

proof fn lemma_knot_repeat_found(knots: Seq<Knot>, n: nat) -> (k: int)
    requires
        spline::first_repeat(knots, n) is Some,
        n < knots.len(),
    ensures
        0 <= k < n,
        float_bits::equal(knots[k].x, knots[k + 1].x),
    decreases n,
{
    if spline::first_repeat(knots, (n - 1) as nat) is Some {
        lemma_knot_repeat_found(knots, (n - 1) as nat)
    } else {
        n - 1
    }
}

proof fn lemma_bad_found(points: Seq<Knot>, n: nat)
    requires
        spline::first_bad(points, n) is Some,
        n <= points.len(),
    ensures
        exists|k: int| 0 <= k < n && !spline::finite_knot(#[trigger] points[k]),
    decreases n,
{
    if spline::first_bad(points, (n - 1) as nat) is Some {
        lemma_bad_found(points, (n - 1) as nat);
    } else {
        assert(!spline::finite_knot(points[n - 1]));
    }
}

/// Points make an interpolant exactly when there are two or more, all are finite and no
/// two stand at one place. It then has all of them, from left to right.
pub proof fn law_finite_points_apart_make_an_interpolant(points: Seq<Knot>)
    ensures
        spline::knots_of(points) is Ok <==> points.len() >= 2 && all_finite(points) && places_differ(points),
        points.len() < 2 ==> spline::knots_of(points) == Err::<Seq<Knot>, CurveError>(
            CurveError::InsufficientPoints(points.len() as usize),
        ),
        points.len() >= 2 && !all_finite(points) ==> (spline::knots_of(points) matches Err(
            CurveError::NonFiniteRate(_),
        )),
        spline::knots_of(points) matches Ok(knots) ==> {
            &&& knots.to_multiset() == points.to_multiset()
            &&& forall|i: int, j: int|
                0 <= i < j < knots.len() ==> float_bits::less((#[trigger] knots[i]).x, (#[trigger] knots[j]).x)
        },
{
    let sorted = ordering::stably_sorted(points, spline::knot_key());
    ordering::law_sorting_permutes_into_order(points, spline::knot_key());
    if points.len() >= 2 {
        if spline::first_bad(points, points.len()) is Some {
            lemma_bad_found(points, points.len());
            let k = choose|k: int| 0 <= k < points.len() && !spline::finite_knot(#[trigger] points[k]);
            assert(!(float_bits::finite(points[k].x) && float_bits::finite(points[k].y)));
        } else {
            spline::lemma_all_finite(points, points.len());
            assert(all_finite(points)) by {
                assert forall|i: int| 0 <= i < points.len() implies float_bits::finite((#[trigger] points[i]).x)
                    && float_bits::finite(points[i].y) by {
                    assert(spline::finite_knot(points[i]));
                }
            }
            lemma_places(points, sorted);
        }
    }
}

proof fn lemma_places(points: Seq<Knot>, sorted: Seq<Knot>)
    requires
        points.len() >= 2,
        sorted == ordering::stably_sorted(points, spline::knot_key()),
        sorted.to_multiset() == points.to_multiset(),
        sorted.len() == points.len(),
        spline::first_bad(points, points.len()) is None,
        all_finite(points),
    ensures
        spline::knots_of(points) is Ok <==> places_differ(points),
        spline::knots_of(points) is Ok ==> spline::strictly_right(sorted),
{
    let n = (sorted.len() - 1) as nat;
    if spline::first_repeat(sorted, n) is None {
        spline::lemma_knots_ascend(points);
        assert forall|i: int, j: int| 0 <= i < j < points.len() implies !float_bits::equal(
            (#[trigger] points[i]).x,
            (#[trigger] points[j]).x,
        ) by {
            let a = lemma_found(points, sorted, i);
            let b = lemma_found(points, sorted, j);
            if a == b {
                assert(sorted.no_duplicates()) by {
                    assert forall|p: int, q: int|
                        0 <= p < sorted.len() && 0 <= q < sorted.len() && p != q implies sorted[p] != sorted[q] by {
                        if p < q {
                            assert(float_bits::less(sorted[p].x, sorted[q].x));
                        } else {
                            assert(float_bits::less(sorted[q].x, sorted[p].x));
                        }
                    }
                }
                lemma_same_duplicates(sorted, points);
            } else if a < b {
                assert(float_bits::less(sorted[a].x, sorted[b].x));
            } else {
                assert(float_bits::less(sorted[b].x, sorted[a].x));
            }
        }
    } else {
        let k = lemma_knot_repeat_found(sorted, n);
        let a = lemma_found(sorted, points, k);
        let b = lemma_found(sorted, points, k + 1);
        if places_differ(points) {
            if a == b {
                assert(points.no_duplicates()) by {
                    assert forall|i: int, j: int|
                        0 <= i < points.len() && 0 <= j < points.len() && i != j implies points[i] != points[j] by {
                        if i < j {
                            assert(!float_bits::equal(points[i].x, points[j].x));
                        } else {
                            assert(!float_bits::equal(points[j].x, points[i].x));
                        }
                    }
                }
                lemma_same_duplicates(points, sorted);
            } else if a < b {
                assert(!float_bits::equal(points[a].x, points[b].x));
            } else {
                assert(!float_bits::equal(points[b].x, points[a].x));
            }
        }
    }
}

/// Between two neighbouring maturities the curve's rate is what the interpolant of the
/// observed rates gives there: the cubic of that stretch, with the slopes of the whole
/// curve.
pub proof fn law_a_rate_between_maturities_is_interpolated(points: Seq<CurvePoint>, k: usize, at: u32)
    requires
        curve::points_of(points) is Ok,
        k + 1 < curve::points_of(points)->Ok_0.len(),
        curve::points_of(points)->Ok_0[k as int].time_to_maturity_secs < at,
        at < curve::points_of(points)->Ok_0[k + 1].time_to_maturity_secs,
    ensures
        ({
            let sorted = curve::points_of(points)->Ok_0;
            let knots = curve::knots_from(sorted);
            curve::rate_of(sorted, at) == Some(
                fixed::from_float(evaluation::segment_value(knots, k as int, float_math::of_integer(at as int))),
            )
        }),
{
    let sorted = curve::points_of(points)->Ok_0;
    let knots = curve::knots_from(sorted);
    let x = float_math::of_integer(at as int);
    curve::lemma_curve_knots(points);
    lemma_seconds_apart(sorted[k as int].time_to_maturity_secs, at);
    lemma_seconds_apart(at, sorted[k + 1].time_to_maturity_secs);
    let place = Place::Segment(k);
    assert(spline::falls(knots, x, place));
    spline::law_place_is_unique(knots, x, place, spline::place_of(knots, x));
}

/// A knot stands at its maturity in seconds, exactly.
pub proof fn law_a_knot_stands_at_its_maturity(point: CurvePoint)
    ensures
        float_math::value(curve::knot_of(point).x) == point.time_to_maturity_secs * float_math::unit(),
        curve::knot_of(point).y == fixed::to_float(point.rate),
{
    float_math::law_small_integers_are_exact(point.time_to_maturity_secs as int);
    float_math::lemma_of_integer(point.time_to_maturity_secs as int);
}

proof fn lemma_seconds_apart(s: u32, t: u32)
    requires
        s < t,
    ensures
        float_bits::less(float_math::of_integer(s as int), float_math::of_integer(t as int)),
{
    let (a, b) = (float_math::of_integer(s as int), float_math::of_integer(t as int));
    let u = float_math::unit();
    lemma_pow2_pos(1074);
    float_math::law_small_integers_are_exact(s as int);
    float_math::law_small_integers_are_exact(t as int);
    float_math::lemma_of_integer(s as int);
    float_math::lemma_of_integer(t as int);
    assert(s * u < t * u) by (nonlinear_arith)
        requires
            s < t,
            u > 0,
    ;
    if float_bits::number_rank(b) <= float_bits::number_rank(a) {
        float_order::lemma_value_order(b, a);
    }
}

/// The slope of the line between two knots is the rise over the run, as far as rounding
/// goes, and falls where the values fall.
pub proof fn law_a_secant_is_rise_over_run(knots: Seq<Knot>, k: int)
    requires
        0 <= k < knots.len() - 1,
        spline::strictly_right(knots),
        float_bits::finite(float_math::difference(knots[k + 1].x, knots[k].x)),
        float_bits::finite(float_math::difference(knots[k + 1].y, knots[k].y)),
        full(spline::secant(knots, k)),
    ensures
        ({
            let run = float_math::value(knots[k + 1].x) - float_math::value(knots[k].x);
            let rise = float_math::value(knots[k + 1].y) - float_math::value(knots[k].y);
            let d = spline::secant(knots, k);
            &&& run > 0
            &&& near(float_math::size(d) * run, distance(rise) * float_math::unit(), 5)
            &&& rise != 0 ==> float_bits::signed(d) == (rise < 0)
        }),
{
    let (a, b) = (knots[k], knots[k + 1]);
    assert(spline::finite_knot(a) && spline::finite_knot(b));
    let u = float_math::unit();
    lemma_pow2_pos(1074);
    float_order::lemma_value_steps(a.x, b.x);
    let run = float_math::value(b.x) - float_math::value(a.x);
    let rise = float_math::value(b.y) - float_math::value(a.y);
    let (h, g) = (float_math::difference(b.x, a.x), float_math::difference(b.y, a.y));
    float_near::law_difference_is_near(b.x, a.x);
    float_near::law_difference_is_near(b.y, a.y);
    float_near::law_quotient_is_near(g, h);
    float_error::lemma_sizes(g);
    float_error::lemma_sizes(h);
    let d = spline::secant(knots, k);
    float_error::lemma_sizes(d);
    let (q, w, v) = (float_math::size(d), float_math::size(h), float_math::size(g));
    float_near::law_near_scales(w, run, q, 1);
    float_near::law_near_scales(v, distance(rise), u, 1);
    assert(w * q == q * w && run * q == q * run) by (nonlinear_arith);
    assert(q * run >= 0 && v * u >= 0 && distance(rise) * u >= 0) by (nonlinear_arith)
        requires
            q >= 0,
            run >= 0,
            v >= 0,
            u >= 0,
            distance(rise) >= 0,
    ;
    float_near::law_near_chains(q * run, q * w, v * u, 1, 1);
    float_near::law_near_chains(q * run, v * u, distance(rise) * u, 3, 1);
}

/// A knot's slope starts out as the mean of the two secants that meet there, as far as
/// rounding goes.
pub proof fn law_a_slope_starts_as_the_mean(knots: Seq<Knot>, k: int)
    requires
        0 < k < knots.len() - 1,
        float_bits::finite(spline::secant(knots, k - 1)),
        float_bits::finite(spline::secant(knots, k)),
        float_bits::finite(float_math::sum(spline::secant(knots, k - 1), spline::secant(knots, k))),
        full(spline::mean_tangent(knots, k)),
    ensures
        ({
            let both = float_math::value(spline::secant(knots, k - 1)) + float_math::value(
                spline::secant(knots, k),
            );
            let slope = spline::mean_tangent(knots, k);
            &&& near(2 * float_math::size(slope), distance(both), 3)
            &&& both != 0 ==> float_bits::signed(slope) == (both < 0)
        }),
{
    let u = float_math::unit();
    lemma_pow2_pos(1074);
    float_math::lemma_two();
    let (a, b) = (spline::secant(knots, k - 1), spline::secant(knots, k));
    let sum = float_math::sum(a, b);
    let slope = spline::mean_tangent(knots, k);
    float_near::law_sum_is_near(a, b);
    float_near::law_quotient_is_near(sum, F64Bits(TWO));
    float_error::lemma_sizes(sum);
    float_error::lemma_sizes(slope);
    let (x, y) = (float_math::size(slope), float_math::size(sum));
    assert(x * (2 * u) == (2 * x) * u) by (nonlinear_arith);
    float_near::law_near_cancels(2 * x, y, u, 1);
    float_near::law_near_chains(2 * x, y, distance(float_math::value(a) + float_math::value(b)), 1, 1);
}

/// At the two ends a slope starts out as the one secant there.
pub proof fn law_end_slopes_are_secants(knots: Seq<Knot>)
    requires
        knots.len() >= 2,
    ensures
        spline::mean_tangent(knots, 0) == spline::secant(knots, 0),
        spline::mean_tangent(knots, knots.len() - 1) == spline::secant(knots, knots.len() - 2),
{
}

/// Whether a slope points with a secant and is at most twice it.
pub open spec fn gentle(t: F64Bits, d: F64Bits) -> bool {
    &&& float_bits::finite(t)
    &&& float_bits::finite(d)
    &&& !float_math::zero(d)
    &&& float_math::zero(t) || float_bits::signed(t) == float_bits::signed(d)
    &&& float_math::size(t) <= 2 * float_math::size(d)
}

proof fn lemma_gentle_ratio(t: F64Bits, d: F64Bits)
    requires
        gentle(t, d),
    ensures
        ({
            let q = float_math::quotient(t, d);
            &&& float_bits::finite(q)
            &&& !float_bits::less(q, F64Bits(0))
            &&& float_math::size(q) <= 2 * float_math::unit()
        }),
{
    reveal(float_math::quotient);
    let u = float_math::unit();
    lemma_pow2_pos(1074);
    float_error::lemma_sizes(t);
    float_error::lemma_sizes(d);
    float_math::lemma_two();
    float_math::lemma_rounded_exact(TWO as int);
    let (m, n) = (float_math::size(t), float_math::size(d));
    float_round::law_nearest_exists(m * u, n);
    assert((m * u) * 1 <= (2 * u) * n) by (nonlinear_arith)
        requires
            m <= 2 * n,
            u > 0,
    ;
    float_round::law_rounding_keeps_order(m * u, n, 2 * u, 1);
    let q = float_round::rounded(m * u, n);
    if q < TWO {
        float_round::lemma_multiple_ascends(q, TWO as int);
    }
    if float_math::zero(t) {
        assert(m * u == 0) by (nonlinear_arith)
            requires
                m == 0,
        ;
        float_math::lemma_small_multiples();
        float_math::lemma_rounded_exact(0);
        float_round::law_rounding_keeps_order(0, n, 0, 1);
    }
}

proof fn lemma_gentle_square(q: F64Bits)
    requires
        float_bits::finite(q),
        float_math::size(q) <= 2 * float_math::unit(),
    ensures
        ({
            let s = float_math::product(q, q);
            &&& float_bits::finite(s)
            &&& 0 <= float_math::value(s) <= 4 * float_math::unit()
        }),
{
    lemma_pow2_unfold(1075);
    lemma_pow2_unfold(1076);
    float_order::lemma_product_under(q, q, 1, 1);
    float_error::lemma_sizes(float_math::product(q, q));
    reveal(float_math::product);
    float_round::law_nearest_exists(float_math::size(q) * float_math::size(q), float_math::unit());
}

/// Slopes that point with a segment's secant and are at most twice it are kept as they
/// are.
pub proof fn law_gentle_slopes_are_kept(d: F64Bits, left: F64Bits, right: F64Bits)
    requires
        gentle(left, d),
        gentle(right, d),
    ensures
        spline::limited(d, left, right) == (left, right),
{
    lemma_gentle_ratio(left, d);
    lemma_gentle_ratio(right, d);
    let (alpha, beta) = (float_math::quotient(left, d), float_math::quotient(right, d));
    lemma_gentle_square(alpha);
    lemma_gentle_square(beta);
    let (a, b) = (float_math::product(alpha, alpha), float_math::product(beta, beta));
    let total = float_math::value(a) + float_math::value(b);
    let u = float_math::unit();
    shape::lemma_constants();
    float_math::lemma_rounded_exact(NINE as int);
    float_order::lemma_sum_rank(a, b);
    float_order::lemma_rank_order(total, 1, 9 * u, 1);
}

/// Slopes outside the circle of radius three, as multiples of the secant, are scaled
/// back by three over their distance from the centre, as far as rounding goes.
pub proof fn law_steep_slopes_are_scaled_back(d: F64Bits, left: F64Bits, right: F64Bits)
    requires
        float_bits::finite(d),
        !float_math::zero(d),
        float_bits::finite(left),
        float_bits::finite(right),
        float_bits::signed(left) == float_bits::signed(d),
        float_bits::signed(right) == float_bits::signed(d),
        full(float_math::quotient(left, d)),
        full(float_math::quotient(right, d)),
        float_bits::less(F64Bits(NINE), squared_distance(d, left, right)),
        full(float_math::root(squared_distance(d, left, right))),
        full(factor(d, left, right)),
        full(float_math::product(factor(d, left, right), float_math::quotient(left, d))),
        full(float_math::product(factor(d, left, right), float_math::quotient(right, d))),
        full(spline::limited(d, left, right).0),
        full(spline::limited(d, left, right).1),
    ensures
        ({
            let (l, r) = spline::limited(d, left, right);
            let away = float_math::size(float_math::root(squared_distance(d, left, right)));
            let u = float_math::unit();
            &&& near(float_math::size(l) * away, (3 * u) * float_math::size(left), 7)
            &&& near(float_math::size(r) * away, (3 * u) * float_math::size(right), 7)
            &&& float_bits::signed(l) == float_bits::signed(left)
            &&& float_bits::signed(r) == float_bits::signed(right)
        }),
{
    float_near::law_quotient_is_near(left, d);
    float_near::law_quotient_is_near(right, d);
    lemma_scaled_back(d, left, squared_distance(d, left, right));
    lemma_scaled_back(d, right, squared_distance(d, left, right));
}

/// The squared distance of two slopes from the centre, as multiples of a secant.
pub open spec fn squared_distance(d: F64Bits, left: F64Bits, right: F64Bits) -> F64Bits {
    let (alpha, beta) = (float_math::quotient(left, d), float_math::quotient(right, d));
    float_math::sum(float_math::product(alpha, alpha), float_math::product(beta, beta))
}

/// Three over the distance.
pub open spec fn factor(d: F64Bits, left: F64Bits, right: F64Bits) -> F64Bits {
    float_math::quotient(F64Bits(THREE), float_math::root(squared_distance(d, left, right)))
}

proof fn lemma_scaled_back(d: F64Bits, t: F64Bits, squared: F64Bits)
    requires
        float_bits::finite(d),
        !float_math::zero(d),
        float_bits::finite(t),
        float_bits::signed(t) == float_bits::signed(d),
        full(float_math::quotient(t, d)),
        float_bits::less(F64Bits(NINE), squared),
        full(float_math::root(squared)),
        full(float_math::quotient(F64Bits(THREE), float_math::root(squared))),
        ({
            let tau = float_math::quotient(F64Bits(THREE), float_math::root(squared));
            let y = float_math::product(tau, float_math::quotient(t, d));
            full(y) && full(float_math::product(y, d))
        }),
    ensures
        ({
            let tau = float_math::quotient(F64Bits(THREE), float_math::root(squared));
            let n = float_math::product(float_math::product(tau, float_math::quotient(t, d)), d);
            let away = float_math::size(float_math::root(squared));
            &&& near(float_math::size(n) * away, (3 * float_math::unit()) * float_math::size(t), 7)
            &&& float_bits::signed(n) == float_bits::signed(t)
            &&& !float_bits::signed(float_math::quotient(t, d))
        }),
{
    let u = float_math::unit();
    shape::lemma_constants();
    let root = float_math::root(squared);
    let tau = float_math::quotient(F64Bits(THREE), root);
    let alpha = float_math::quotient(t, d);
    let y = float_math::product(tau, alpha);
    let n = float_math::product(y, d);
    assert(!float_bits::signed(root)) by {
        reveal(float_math::root);
        float_error::law_nearest_root_exists(float_math::size(squared) * u);
    }
    float_error::lemma_sizes(root);
    float_error::lemma_sizes(d);
    float_error::lemma_sizes(t);
    float_error::lemma_sizes(alpha);
    float_error::lemma_sizes(tau);
    float_error::lemma_sizes(y);
    float_error::lemma_sizes(n);
    float_near::law_quotient_is_near(F64Bits(THREE), root);
    float_near::law_quotient_is_near(t, d);
    float_near::law_product_is_near(tau, alpha);
    float_near::law_product_is_near(y, d);
    lemma_scaled_parts(
        float_math::size(n),
        float_math::size(y),
        float_math::size(tau),
        float_math::size(alpha),
        float_math::size(root),
        float_math::size(d),
        float_math::size(t),
        u,
    );
}

proof fn lemma_scaled_parts(n: int, y: int, tau: int, a: int, r: int, d: int, t: int, u: int)
    requires
        near(n * u, y * d, 1),
        near(y * u, tau * a, 1),
        near(tau * r, (3 * u) * u, 1),
        near(a * d, t * u, 1),
        n >= 0,
        y >= 0,
        tau >= 0,
        a >= 0,
        r >= 0,
        d >= 0,
        t >= 0,
        u > 0,
    ensures
        near(n * r, (3 * u) * t, 7),
{
    let w = u * u;
    assert(w > 0 && r * u >= 0 && d * r >= 0 && tau * r >= 0 && a * d >= 0 && t * u >= 0 && (3 * u) * u >= 0)
        by (nonlinear_arith)
        requires
            w == u * u,
            u > 0,
            r >= 0,
            d >= 0,
            tau >= 0,
            a >= 0,
            t >= 0,
    ;
    float_near::law_near_scales(n * u, y * d, r * u, 1);
    float_near::law_near_scales(y * u, tau * a, d * r, 1);
    float_near::law_near_multiplies(tau * r, (3 * u) * u, a * d, t * u, 1, 1);
    let (first, second, third, fourth) = (
        (n * u) * (r * u),
        (y * u) * (d * r),
        (tau * r) * (a * d),
        ((3 * u) * u) * (t * u),
    );
    assert((y * d) * (r * u) == second) by (nonlinear_arith)
        requires
            second == (y * u) * (d * r),
    ;
    assert((tau * a) * (d * r) == third) by (nonlinear_arith)
        requires
            third == (tau * r) * (a * d),
    ;
    assert(first >= 0 && second >= 0 && third >= 0 && fourth >= 0) by (nonlinear_arith)
        requires
            first == (n * u) * (r * u),
            second == (y * u) * (d * r),
            third == (tau * r) * (a * d),
            fourth == ((3 * u) * u) * (t * u),
            n >= 0,
            y >= 0,
            u > 0,
            r * u >= 0,
            d * r >= 0,
            tau * r >= 0,
            a * d >= 0,
            (3 * u) * u >= 0,
            t * u >= 0,
    {
        assert(n * u >= 0);
        assert(y * u >= 0);
    }
    float_near::law_near_chains(first, second, third, 1, 1);
    float_near::law_near_chains(first, third, fourth, 3, 3);
    assert(first == (n * r) * w) by (nonlinear_arith)
        requires
            first == (n * u) * (r * u),
            w == u * u,
    ;
    assert(fourth == ((3 * u) * t) * w) by (nonlinear_arith)
        requires
            fourth == ((3 * u) * u) * (t * u),
            w == u * u,
    ;
    float_near::law_near_cancels(n * r, (3 * u) * t, w, 7);
}

/// Whether every slope that knots start out with is gentle next to both its secants.
pub open spec fn gentle_curve(knots: Seq<Knot>) -> bool {
    forall|j: int|
        0 <= j < knots.len() - 1 ==> gentle(spline::mean_tangent(knots, j), #[trigger] spline::secant(knots, j))
            && gentle(spline::mean_tangent(knots, j + 1), spline::secant(knots, j))
}

proof fn lemma_gentle_steps(knots: Seq<Knot>, n: nat)
    requires
        gentle_curve(knots),
        n < knots.len(),
    ensures
        spline::constrained(knots, n) == Seq::new(knots.len(), |k: int| spline::mean_tangent(knots, k)),
    decreases n,
{
    let start = Seq::new(knots.len(), |k: int| spline::mean_tangent(knots, k));
    if n > 0 {
        lemma_gentle_steps(knots, (n - 1) as nat);
        let d = spline::secant(knots, n - 1);
        law_gentle_slopes_are_kept(d, start[n - 1], start[n as int]);
        assert(start.update(n - 1, start[n - 1]).update(n as int, start[n as int]) =~= start);
    }
}

/// A curve whose slopes are all gentle keeps every slope it starts out with.
pub proof fn law_a_gentle_curve_keeps_its_slopes(knots: Seq<Knot>, k: int)
    requires
        gentle_curve(knots),
        0 <= k < knots.len(),
    ensures
        spline::tangents_of(knots)[k] == spline::mean_tangent(knots, k),
{
    lemma_gentle_steps(knots, (knots.len() - 1) as nat);
}

} // verus!
