use vstd::prelude::*;
use vstd::set_lib::{lemma_int_range, set_int_range};

use crate::curve_engine::error::CurveError;
use crate::curve_engine::spline;
use crate::curve_engine::spline::{Knot, MonotoneCubicSpline};
use crate::curve_engine::types::{ButterflySignal, CurvePoint, Zone};
use crate::float_bits;
use crate::float_bits::F64Bits;
use crate::float_math;
use crate::float_order;
use crate::ordering;
use crate::tick_math::fixed;
use crate::tick_math::FixedX18;

verus! {

/// The sorting key of a point.
pub open spec fn maturity_key() -> spec_fn(CurvePoint) -> int {
    |p: CurvePoint| p.time_to_maturity_secs as int
}

/// The first of the first `n` neighbouring pairs that share a maturity.
pub open spec fn first_repeat(points: Seq<CurvePoint>, n: nat) -> Option<CurvePoint>
    decreases n,
{
    if n == 0 {
        None
    } else {
        match first_repeat(points, (n - 1) as nat) {
            Some(p) => Some(p),
            None => if points[n - 1].time_to_maturity_secs == points[n as int].time_to_maturity_secs {
                Some(points[n - 1])
            } else {
                None
            },
        }
    }
}

/// The points of a zone by ascending maturity, or why they make no curve.
pub open spec fn points_of(points: Seq<CurvePoint>) -> Result<Seq<CurvePoint>, CurveError> {
    let sorted = ordering::stably_sorted(points, maturity_key());
    if points.len() < 2 {
        Err(CurveError::InsufficientPoints(points.len() as usize))
    } else {
        match first_repeat(sorted, (sorted.len() - 1) as nat) {
            Some(p) => Err(CurveError::DuplicateMaturity(p.time_to_maturity_secs)),
            None => Ok(sorted),
        }
    }
}

/// Each maturity is longer than the one before.
pub open spec fn maturities_ascend(points: Seq<CurvePoint>) -> bool {
    forall|i: int, j: int|
        0 <= i < j < points.len() ==> (#[trigger] points[i]).time_to_maturity_secs < (
        #[trigger] points[j]).time_to_maturity_secs
}

/// A point as a knot of the interpolant.
pub open spec fn knot_of(p: CurvePoint) -> Knot {
    Knot {
        x: float_math::of_integer(p.time_to_maturity_secs as int),
        y: fixed::to_float(p.rate),
    }
}

/// Points as knots.
pub open spec fn knots_from(points: Seq<CurvePoint>) -> Seq<Knot> {
    Seq::new(points.len(), |i: int| knot_of(points[i]))
}

/// The reference rate at a time to maturity: the interpolant's value, where it
/// has one.
pub open spec fn rate_of(points: Seq<CurvePoint>, time_to_maturity_secs: u32) -> Option<FixedX18> {
    let knots = knots_from(points);
    match spline::value_at(
        knots,
        spline::tangents_of(knots),
        float_math::of_integer(time_to_maturity_secs as int),
    ) {
        None => None,
        Some(v) => Some(fixed::from_float(v)),
    }
}

/// How far the middle of three points lies off the line between its neighbours.
pub open spec fn deviation_of(left: CurvePoint, mid: CurvePoint, right: CurvePoint) -> F64Bits {
    let l = knot_of(left);
    let m = knot_of(mid);
    let r = knot_of(right);
    let weight = float_math::quotient(
        float_math::difference(m.x, l.x),
        float_math::difference(r.x, l.x),
    );
    float_math::difference(
        m.y,
        float_math::sum(l.y, float_math::product(weight, float_math::difference(r.y, l.y))),
    )
}

/// The signal of three neighbouring points, from the left one.
pub open spec fn signal_at(points: Seq<CurvePoint>, k: int) -> ButterflySignal {
    ButterflySignal {
        left_maturity_secs: points[k].time_to_maturity_secs,
        mid_maturity_secs: points[k + 1].time_to_maturity_secs,
        right_maturity_secs: points[k + 2].time_to_maturity_secs,
        deviation: deviation_of(points[k], points[k + 1], points[k + 2]),
    }
}

/// Whether a deviation is worth reporting: at least the threshold in magnitude.
pub open spec fn notable(deviation: F64Bits, min_abs_deviation: F64Bits) -> bool {
    let size = float_bits::unsigned(deviation);
    float_bits::less(min_abs_deviation, size) || float_bits::equal(min_abs_deviation, size)
}

/// The notable signals among the first `n` triples, left to right.
pub open spec fn signals_of(
    points: Seq<CurvePoint>,
    min_abs_deviation: F64Bits,
    n: nat,
) -> Seq<ButterflySignal>
    decreases n,
{
    if n == 0 {
        Seq::empty()
    } else {
        let rest = signals_of(points, min_abs_deviation, (n - 1) as nat);
        let signal = signal_at(points, n - 1);
        if notable(signal.deviation, min_abs_deviation) {
            rest.push(signal)
        } else {
            rest
        }
    }
}

/// An interpolated curve through the observed rates of one zone. The observed
/// points stay next to it: signals compare what was observed.
#[derive(Debug)]
pub struct Curve {
    zone_name: String,
    spline: MonotoneCubicSpline,
    sorted_points: Vec<CurvePoint>,
}

/// Distinct whole seconds are distinct floats, and a float gives its seconds
/// back.
proof fn lemma_seconds(s: u32, t: u32)
    ensures
        float_bits::equal(float_math::of_integer(s as int), float_math::of_integer(t as int)) <==> s == t,
        float_bits::finite(float_math::of_integer(s as int)),
        spline::maturity_of(float_math::of_integer(s as int)) == s,
{
    float_math::law_small_integers_are_exact(s as int);
    float_math::law_small_integers_are_exact(t as int);
    float_math::lemma_of_integer(s as int);
    float_math::lemma_of_integer(t as int);
    vstd::arithmetic::power2::lemma_pow2_pos(1074);
    let u = float_math::unit();
    assert(s * u == t * u ==> s == t) by (nonlinear_arith)
        requires
            u > 0,
    ;
}

/// Repeated maturities and repeated knots are the same.
proof fn lemma_same_repeats(points: Seq<CurvePoint>, n: nat)
    requires
        n < points.len(),
    ensures
        match first_repeat(points, n) {
            None => spline::first_repeat(knots_from(points), n) is None,
            Some(p) => spline::first_repeat(knots_from(points), n) == Some(knot_of(p)),
        },
    decreases n,
{
    if n > 0 {
        lemma_same_repeats(points, (n - 1) as nat);
        lemma_seconds(points[n - 1].time_to_maturity_secs, points[n as int].time_to_maturity_secs);
    }
}

proof fn lemma_no_bad_knot(points: Seq<CurvePoint>, n: nat)
    requires
        n <= points.len(),
    ensures
        spline::first_bad(knots_from(points), n) is None,
    decreases n,
{
    if n > 0 {
        lemma_no_bad_knot(points, (n - 1) as nat);
        fixed::law_to_float_is_finite(points[n - 1].rate);
        lemma_seconds(points[n - 1].time_to_maturity_secs, 0);
    }
}

/// What the interpolant makes of sorted points: it accepts them, or finds the
/// fault that they have.
proof fn lemma_knots_of_points(points: Seq<CurvePoint>)
    requires
        ordering::ascends(points, maturity_key()),
        points.len() >= 2,
    ensures
        spline::knots_of(knots_from(points)) == (match first_repeat(points, (points.len() - 1) as nat) {
            Some(p) => Err::<Seq<Knot>, CurveError>(
                CurveError::DuplicateMaturity(p.time_to_maturity_secs),
            ),
            None => Ok::<Seq<Knot>, CurveError>(knots_from(points)),
        }),
{
    let knots = knots_from(points);
    lemma_no_bad_knot(points, points.len());
    assert forall|i: int, j: int| 0 <= i < j < knots.len() implies spline::knot_key()(#[trigger] knots[i])
        <= spline::knot_key()(#[trigger] knots[j]) by {
        assert(maturity_key()(points[i]) <= maturity_key()(points[j]));
        float_order::law_of_integer_keeps_order(
            points[i].time_to_maturity_secs as int,
            points[j].time_to_maturity_secs as int,
        );
    }
    ordering::law_sorting_keeps_what_is_sorted(knots, spline::knot_key());
    let n = (points.len() - 1) as nat;
    lemma_same_repeats(points, n);
    if let Some(p) = first_repeat(points, n) {
        lemma_seconds(p.time_to_maturity_secs, 0);
    }
}

fn insert_point(points: &mut Vec<CurvePoint>, point: CurvePoint)
    ensures
        final(points)@ == ordering::inserted(old(points)@, point, maturity_key()),
{
    let mut pos: usize = points.len();
    while pos > 0 && point.time_to_maturity_secs < points[pos - 1].time_to_maturity_secs
        invariant
            pos <= points.len(),
            forall|i: int|
                pos <= i < points@.len() ==> maturity_key()(#[trigger] points@[i]) > maturity_key()(point),
        decreases pos,
    {
        pos = pos - 1;
    }
    proof {
        ordering::lemma_inserted_at(points@, point, maturity_key(), pos as int);
    }
    points.insert(pos, point);
}

proof fn lemma_repeat_stays(points: Seq<CurvePoint>, n: nat, total: nat)
    requires
        n <= total,
        first_repeat(points, n) is Some,
    ensures
        first_repeat(points, total) == first_repeat(points, n),
    decreases total,
{
    if n < total {
        lemma_repeat_stays(points, n, (total - 1) as nat);
    }
}

pub proof fn lemma_maturities_ascend(points: Seq<CurvePoint>, n: nat)
    requires
        n < points.len(),
        ordering::ascends(points, maturity_key()),
        first_repeat(points, n) is None,
    ensures
        forall|i: int, j: int|
            0 <= i < j <= n ==> (#[trigger] points[i]).time_to_maturity_secs < (
            #[trigger] points[j]).time_to_maturity_secs,
    decreases n,
{
    if n > 0 {
        lemma_maturities_ascend(points, (n - 1) as nat);
        assert(maturity_key()(points[n - 1]) <= maturity_key()(points[n as int]));
    }
}

impl Curve {
    /// Name of the zone.
    pub closed spec fn name_view(&self) -> Seq<char> {
        self.zone_name@
    }

    /// The observed points by ascending maturity.
    pub closed spec fn points_view(&self) -> Seq<CurvePoint> {
        self.sorted_points@
    }

    /// At least two points at distinct, ascending maturities, and the
    /// interpolant through them.
    pub closed spec fn wf(&self) -> bool {
        &&& self.points_view().len() >= 2
        &&& maturities_ascend(self.points_view())
        &&& self.spline.wf()
        &&& self.spline.knots_view() == knots_from(self.points_view())
    }

    /// Orders the points of a zone by maturity.
    pub fn fit(zone: &Zone) -> (r: Result<Self, CurveError>)
        ensures
            match points_of(zone.points@) {
                Ok(points) => r matches Ok(c) && c.wf() && c.name_view() == zone.name@
                    && c.points_view() == points,
                Err(e) => r matches Err(err) && err == e,
            },
    {
        if zone.points.len() < 2 {
            return Err(CurveError::InsufficientPoints(zone.points.len()));
        }
        let mut sorted: Vec<CurvePoint> = Vec::new();
        let mut i: usize = 0;
        assert(zone.points@.take(0) == Seq::<CurvePoint>::empty());
        while i < zone.points.len()
            invariant
                i <= zone.points@.len(),
                sorted@ == ordering::stably_sorted(zone.points@.take(i as int), maturity_key()),
            decreases zone.points@.len() - i,
        {
            proof {
                assert(zone.points@.take(i + 1).drop_last() == zone.points@.take(i as int));
                assert(zone.points@.take(i + 1).last() == zone.points@[i as int]);
            }
            insert_point(&mut sorted, zone.points[i]);
            i = i + 1;
        }
        proof {
            assert(zone.points@.take(i as int) == zone.points@);
            ordering::law_sorting_permutes_into_order(zone.points@, maturity_key());
        }
        let mut knots: Vec<Knot> = Vec::new();
        let mut k: usize = 0;
        while k < sorted.len()
            invariant
                k <= sorted@.len(),
                knots@ == knots_from(sorted@.take(k as int)),
            decreases sorted@.len() - k,
        {
            let p: CurvePoint = sorted[k];
            knots.push(Knot { x: F64Bits::of(p.time_to_maturity_secs as i128), y: p.rate.to_f64() });
            assert(knots@ =~= knots_from(sorted@.take(k + 1)));
            k = k + 1;
        }
        proof {
            assert(sorted@.take(k as int) == sorted@);
            lemma_knots_of_points(sorted@);
        }
        match MonotoneCubicSpline::fit(knots) {
            Err(e) => Err(e),
            Ok(spline) => {
                proof {
                    lemma_maturities_ascend(sorted@, (sorted@.len() - 1) as nat);
                }
                Ok(Curve { zone_name: zone.name.clone(), spline, sorted_points: sorted })
            },
        }
    }

    pub fn zone_name(&self) -> (r: &str)
        ensures
            r@ == self.name_view(),
    {
        self.zone_name.as_str()
    }

    /// The observed points by ascending maturity.
    pub fn points(&self) -> (r: &Vec<CurvePoint>)
        ensures
            r@ == self.points_view(),
    {
        &self.sorted_points
    }

    pub fn shortest_maturity_secs(&self) -> (r: u32)
        requires
            self.wf(),
        ensures
            r == self.points_view()[0].time_to_maturity_secs,
    {
        self.sorted_points[0].time_to_maturity_secs
    }

    pub fn longest_maturity_secs(&self) -> (r: u32)
        requires
            self.wf(),
        ensures
            r == self.points_view()[self.points_view().len() - 1].time_to_maturity_secs,
    {
        self.sorted_points[self.sorted_points.len() - 1].time_to_maturity_secs
    }

    /// The reference rate at a time to maturity. Outside the observed maturities
    /// there is none: a rate past them would be a guess.
    pub fn rate_at(&self, time_to_maturity_secs: u32) -> (r: Option<FixedX18>)
        requires
            self.wf(),
        ensures
            r == rate_of(self.points_view(), time_to_maturity_secs),
    {
        match self.spline.eval(F64Bits::of(time_to_maturity_secs as i128)) {
            None => None,
            Some(v) => Some(FixedX18::nearest_to(v)),
        }
    }

    /// Reports every triple of neighbouring maturities whose middle deviates by
    /// at least the threshold.
    pub fn detect_butterflies(&self, min_abs_deviation: F64Bits) -> (r: Vec<ButterflySignal>)
        requires
            self.wf(),
        ensures
            r@ == signals_of(
                self.points_view(),
                min_abs_deviation,
                (self.points_view().len() - 2) as nat,
            ),
    {
        let mut signals: Vec<ButterflySignal> = Vec::new();
        let n: usize = self.sorted_points.len();
        let mut k: usize = 0;
        while k < n - 2
            invariant
                k <= n - 2,
                2 <= n,
                n == self.points_view().len(),
                signals@ == signals_of(self.points_view(), min_abs_deviation, k as nat),
            decreases n - k,
        {
            let left: CurvePoint = self.sorted_points[k];
            let mid: CurvePoint = self.sorted_points[k + 1];
            let right: CurvePoint = self.sorted_points[k + 2];
            let deviation: F64Bits = deviation(left, mid, right);
            if min_abs_deviation.is_at_most(deviation.abs()) {
                signals.push(
                    ButterflySignal {
                        left_maturity_secs: left.time_to_maturity_secs,
                        mid_maturity_secs: mid.time_to_maturity_secs,
                        right_maturity_secs: right.time_to_maturity_secs,
                        deviation,
                    },
                );
            }
            k = k + 1;
        }
        signals
    }
}

fn deviation(left: CurvePoint, mid: CurvePoint, right: CurvePoint) -> (r: F64Bits)
    ensures
        r == deviation_of(left, mid, right),
{
    let left_t: F64Bits = F64Bits::of(left.time_to_maturity_secs as i128);
    let mid_t: F64Bits = F64Bits::of(mid.time_to_maturity_secs as i128);
    let right_t: F64Bits = F64Bits::of(right.time_to_maturity_secs as i128);
    let left_r: F64Bits = left.rate.to_f64();
    let mid_r: F64Bits = mid.rate.to_f64();
    let right_r: F64Bits = right.rate.to_f64();
    let weight: F64Bits = mid_t.minus(left_t).over(right_t.minus(left_t));
    let linear: F64Bits = left_r.plus(weight.times(right_r.minus(left_r)));
    mid_r.minus(linear)
}

/// Signals name ascending maturities, and none of them is below the threshold.
pub proof fn law_signals_are_notable_and_ordered(
    points: Seq<CurvePoint>,
    min_abs_deviation: F64Bits,
    n: nat,
    i: int,
)
    requires
        maturities_ascend(points),
        n <= points.len() - 2,
        0 <= i < signals_of(points, min_abs_deviation, n).len(),
    ensures
        ({
            let s = signals_of(points, min_abs_deviation, n)[i];
            &&& s.left_maturity_secs < s.mid_maturity_secs < s.right_maturity_secs
            &&& notable(s.deviation, min_abs_deviation)
        }),
    decreases n,
{
    let rest = signals_of(points, min_abs_deviation, (n - 1) as nat);
    if i < rest.len() {
        law_signals_are_notable_and_ordered(points, min_abs_deviation, (n - 1) as nat, i);
    } else {
        assert(points[n - 1].time_to_maturity_secs < points[n as int].time_to_maturity_secs);
        assert(points[n as int].time_to_maturity_secs < points[n as int + 1].time_to_maturity_secs);
    }
}

/// Whether the middle of the points from `k` lies off the line between its
/// neighbours by the threshold or more, above it or below it.
pub open spec fn off_the_line(points: Seq<CurvePoint>, k: int, min_abs_deviation: F64Bits) -> bool {
    let deviation = deviation_of(points[k], points[k + 1], points[k + 2]);
    float_order::at_most(min_abs_deviation, deviation) || float_order::at_most(
        deviation,
        float_math::negated(min_abs_deviation),
    )
}

/// The triples among the first `n` whose middle is off the line.
pub open spec fn triples_off_the_line(
    points: Seq<CurvePoint>,
    min_abs_deviation: F64Bits,
    n: nat,
) -> Set<int> {
    set_int_range(0, n as int).filter(|k: int| off_the_line(points, k, min_abs_deviation))
}

/// Whether a signal names the three maturities from `k` and their deviation.
pub open spec fn names_triple(signal: ButterflySignal, points: Seq<CurvePoint>, k: int) -> bool {
    &&& signal.left_maturity_secs == points[k].time_to_maturity_secs
    &&& signal.mid_maturity_secs == points[k + 1].time_to_maturity_secs
    &&& signal.right_maturity_secs == points[k + 2].time_to_maturity_secs
    &&& signal.deviation == deviation_of(points[k], points[k + 1], points[k + 2])
}

/// Signals are complete: every triple of neighbouring maturities whose middle is
/// off the line by the threshold or more is reported, however many there are.
pub proof fn law_every_triple_off_the_line_is_reported(
    points: Seq<CurvePoint>,
    min_abs_deviation: F64Bits,
    n: nat,
    k: int,
)
    requires
        0 <= k < n <= points.len() - 2,
        off_the_line(points, k, min_abs_deviation),
    ensures
        exists|i: int|
            0 <= i < signals_of(points, min_abs_deviation, n).len() && names_triple(
                #[trigger] signals_of(points, min_abs_deviation, n)[i],
                points,
                k,
            ),
    decreases n,
{
    let signals = signals_of(points, min_abs_deviation, n);
    let rest = signals_of(points, min_abs_deviation, (n - 1) as nat);
    if k == n - 1 {
        lemma_notable(deviation_of(points[k], points[k + 1], points[k + 2]), min_abs_deviation);
        assert(names_triple(signals[rest.len() as int], points, k));
    } else {
        law_every_triple_off_the_line_is_reported(points, min_abs_deviation, (n - 1) as nat, k);
        let i = choose|i: int| 0 <= i < rest.len() && names_triple(#[trigger] rest[i], points, k);
        assert(names_triple(signals[i], points, k));
    }
}

/// Signals are sound: each is the one of a triple whose middle is off the line,
/// and no two are of one triple, since their maturities ascend.
pub proof fn law_signals_name_ascending_triples(
    points: Seq<CurvePoint>,
    min_abs_deviation: F64Bits,
    n: nat,
    i: int,
)
    requires
        maturities_ascend(points),
        n <= points.len() - 2,
        0 <= i < signals_of(points, min_abs_deviation, n).len(),
    ensures
        ({
            let signals = signals_of(points, min_abs_deviation, n);
            &&& exists|k: int|
                0 <= k < n && off_the_line(points, k, min_abs_deviation) && #[trigger] names_triple(
                    signals[i],
                    points,
                    k,
                )
            &&& i > 0 ==> signals[i - 1].mid_maturity_secs < signals[i].mid_maturity_secs
        }),
    decreases n,
{
    let signals = signals_of(points, min_abs_deviation, n);
    let m = (n - 1) as nat;
    let rest = signals_of(points, min_abs_deviation, m);
    if i < rest.len() {
        law_signals_name_ascending_triples(points, min_abs_deviation, m, i);
        assert(signals[i] == rest[i]);
        let k = choose|k: int|
            0 <= k < m && off_the_line(points, k, min_abs_deviation) && #[trigger] names_triple(
                rest[i],
                points,
                k,
            );
        assert(names_triple(signals[i], points, k));
    } else {
        let last = m as int;
        lemma_notable(deviation_of(points[last], points[last + 1], points[last + 2]), min_abs_deviation);
        assert(names_triple(signals[i], points, last));
        if i > 0 {
            law_signals_name_ascending_triples(points, min_abs_deviation, m, i - 1);
            let k = choose|k: int|
                0 <= k < m && off_the_line(points, k, min_abs_deviation) && #[trigger] names_triple(
                    rest[i - 1],
                    points,
                    k,
                );
            assert(points[k + 1].time_to_maturity_secs < points[last + 1].time_to_maturity_secs);
        }
    }
}

/// There are exactly as many signals as triples whose middle is off the line.
pub proof fn law_one_signal_per_triple_off_the_line(
    points: Seq<CurvePoint>,
    min_abs_deviation: F64Bits,
    n: nat,
)
    requires
        n <= points.len() - 2,
    ensures
        signals_of(points, min_abs_deviation, n).len() == triples_off_the_line(
            points,
            min_abs_deviation,
            n,
        ).len(),
    decreases n,
{
    let off = triples_off_the_line(points, min_abs_deviation, n);
    lemma_int_range(0, n as int);
    if n == 0 {
        assert(off =~= Set::empty());
    } else {
        let m = (n - 1) as nat;
        law_one_signal_per_triple_off_the_line(points, min_abs_deviation, m);
        let before = triples_off_the_line(points, min_abs_deviation, m);
        lemma_int_range(0, m as int);
        let last = m as int;
        lemma_notable(deviation_of(points[last], points[last + 1], points[last + 2]), min_abs_deviation);
        if off_the_line(points, last, min_abs_deviation) {
            assert(off =~= before.insert(last));
        } else {
            assert(off =~= before);
        }
    }
}

/// A magnitude reaches a threshold where the number reaches it or its opposite.
proof fn lemma_notable(deviation: F64Bits, min_abs_deviation: F64Bits)
    ensures
        notable(deviation, min_abs_deviation) <==> float_order::at_most(min_abs_deviation, deviation)
            || float_order::at_most(deviation, float_math::negated(min_abs_deviation)),
{
}

/// The curve passes through its observed rates, to the precision of a float.
pub proof fn law_observed_rates_are_met(points: Seq<CurvePoint>, k: int)
    requires
        points_of(points) is Ok,
        0 <= k < points_of(points)->Ok_0.len(),
    ensures
        ({
            let sorted = points_of(points)->Ok_0;
            rate_of(sorted, sorted[k].time_to_maturity_secs) == Some(
                fixed::from_float(fixed::to_float(sorted[k].rate)),
            )
        }),
{
    let sorted = points_of(points)->Ok_0;
    lemma_curve_knots(points);
    spline::law_knots_are_met(
        knots_from(sorted),
        spline::tangents_of(knots_from(sorted)),
        k,
    );
}

/// A curve has no rate outside the observed maturities.
pub proof fn law_no_rate_outside_the_maturities(points: Seq<CurvePoint>, time_to_maturity_secs: u32)
    requires
        points_of(points) is Ok,
        time_to_maturity_secs < points_of(points)->Ok_0[0].time_to_maturity_secs
            || time_to_maturity_secs > points_of(points)->Ok_0.last().time_to_maturity_secs,
    ensures
        rate_of(points_of(points)->Ok_0, time_to_maturity_secs) is None,
{
    let sorted = points_of(points)->Ok_0;
    let last = sorted.last();
    let t = time_to_maturity_secs;
    lemma_curve_knots(points);
    lemma_seconds(t, sorted[0].time_to_maturity_secs);
    lemma_seconds(t, last.time_to_maturity_secs);
    lemma_seconds(sorted[0].time_to_maturity_secs, t);
    lemma_seconds(last.time_to_maturity_secs, t);
    if t < sorted[0].time_to_maturity_secs {
        float_order::law_of_integer_keeps_order(t as int, sorted[0].time_to_maturity_secs as int);
    } else {
        float_order::law_of_integer_keeps_order(last.time_to_maturity_secs as int, t as int);
    }
    spline::law_never_extrapolates(
        knots_from(sorted),
        spline::tangents_of(knots_from(sorted)),
        float_math::of_integer(t as int),
    );
}

/// The knots of a curve are at least two, strictly ascending.
pub proof fn lemma_curve_knots(points: Seq<CurvePoint>)
    requires
        points_of(points) is Ok,
    ensures
        knots_from(points_of(points)->Ok_0).len() >= 2,
        spline::strictly_right(knots_from(points_of(points)->Ok_0)),
{
    let sorted = points_of(points)->Ok_0;
    ordering::law_sorting_permutes_into_order(points, maturity_key());
    lemma_knots_of_points(sorted);
    spline::lemma_knots_ascend(knots_from(sorted));
}

} // verus!
