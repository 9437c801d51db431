use vstd::prelude::*;

use crate::curve_engine::error::CurveError;
use crate::float_bits;
use crate::float_bits::{F64Bits, MINUS_TWO, NINE, ONE, THREE, TWO};
use crate::float_math;
use crate::ordering;

verus! {

/// A coordinate pair that the spline passes through.
#[derive(Debug, Clone, Copy, PartialEq, Eq, Structural)]
pub struct Knot {
    pub x: F64Bits,
    pub y: F64Bits,
}

/// The sorting key of a knot.
pub open spec fn knot_key() -> spec_fn(Knot) -> int {
    |k: Knot| float_bits::number_rank(k.x)
}

/// Whether both coordinates are finite.
pub open spec fn finite_knot(k: Knot) -> bool {
    float_bits::finite(k.x) && float_bits::finite(k.y)
}

/// A coordinate as whole seconds.
pub open spec fn maturity_of(x: F64Bits) -> u32 {
    float_math::saturated(x, float_math::truncation(x), 0, u32::MAX as int) as u32
}

/// The first of the first `n` points with a coordinate that is not finite.
pub open spec fn first_bad(points: Seq<Knot>, n: nat) -> Option<Knot>
    decreases n,
{
    if n == 0 {
        None
    } else {
        match first_bad(points, (n - 1) as nat) {
            Some(k) => Some(k),
            None => if finite_knot(points[n - 1]) {
                None
            } else {
                Some(points[n - 1])
            },
        }
    }
}

/// The first of the first `n` neighbouring pairs that share an `x`.
pub open spec fn first_repeat(knots: Seq<Knot>, n: nat) -> Option<Knot>
    decreases n,
{
    if n == 0 {
        None
    } else {
        match first_repeat(knots, (n - 1) as nat) {
            Some(k) => Some(k),
            None => if float_bits::equal(knots[n - 1].x, knots[n as int].x) {
                Some(knots[n - 1])
            } else {
                None
            },
        }
    }
}

/// The knots of a set of points in ascending order, or why they make no curve.
pub open spec fn knots_of(points: Seq<Knot>) -> Result<Seq<Knot>, CurveError> {
    if points.len() < 2 {
        Err(CurveError::InsufficientPoints(points.len() as usize))
    } else {
        match first_bad(points, points.len()) {
            Some(bad) => Err(CurveError::NonFiniteRate(maturity_of(bad.x))),
            None => {
                let sorted = ordering::stably_sorted(points, knot_key());
                match first_repeat(sorted, (sorted.len() - 1) as nat) {
                    Some(k) => Err(
                        CurveError::DuplicateMaturity(maturity_of(k.x)),
                    ),
                    None => Ok(sorted),
                }
            },
        }
    }
}

/// Finite knots, each to the right of the one before.
pub open spec fn strictly_right(knots: Seq<Knot>) -> bool {
    &&& forall|i: int| 0 <= i < knots.len() ==> finite_knot(#[trigger] knots[i])
    &&& forall|i: int, j: int|
        0 <= i < j < knots.len() ==> float_bits::less((#[trigger] knots[i]).x, (#[trigger] knots[j]).x)
}

/// Where a query falls.
#[derive(Debug, Clone, Copy, PartialEq, Eq, Structural)]
pub enum Place {
    /// Outside the fitted range: the spline never extrapolates.
    Outside,
    /// On a knot; holds the knot's value.
    Knot(F64Bits),
    /// Strictly between this knot and the next.
    Segment(usize),
}

/// Whether a place is where a query falls.
pub open spec fn falls(knots: Seq<Knot>, x: F64Bits, place: Place) -> bool {
    match place {
        Place::Outside => float_bits::nan(x) || float_bits::less(x, knots[0].x) || float_bits::less(
            knots[knots.len() - 1].x,
            x,
        ),
        Place::Knot(y) => exists|k: int|
            0 <= k < knots.len() && float_bits::equal((#[trigger] knots[k]).x, x) && y == knots[k].y,
        Place::Segment(k) => k + 1 < knots.len() && float_bits::less(knots[k as int].x, x)
            && float_bits::less(x, knots[k + 1].x),
    }
}

/// The slope of the line between a knot and the next.
pub open spec fn secant(knots: Seq<Knot>, k: int) -> F64Bits {
    float_math::quotient(
        float_math::difference(knots[k + 1].y, knots[k].y),
        float_math::difference(knots[k + 1].x, knots[k].x),
    )
}

/// The tangent that a knot starts out with: the secant at the ends, the mean of
/// the two secants elsewhere.
pub open spec fn mean_tangent(knots: Seq<Knot>, k: int) -> F64Bits {
    if k == 0 {
        secant(knots, 0)
    } else if k == knots.len() - 1 {
        secant(knots, k - 1)
    } else {
        float_math::quotient(
            float_math::sum(secant(knots, k - 1), secant(knots, k)),
            F64Bits(TWO),
        )
    }
}

/// A multiple of a secant, unless it points the other way.
pub open spec fn forward(multiple: F64Bits) -> F64Bits {
    if float_bits::less(multiple, F64Bits(0)) {
        F64Bits(0)
    } else {
        multiple
    }
}

/// The monotonicity constraint on the tangents of one segment with secant `d`.
/// A level segment has level tangents; a tangent that points against the
/// segment becomes level; and as multiples of the secant the two are pulled into
/// the circle of radius three.
pub open spec fn limited(d: F64Bits, left: F64Bits, right: F64Bits) -> (F64Bits, F64Bits) {
    let zero = F64Bits(0);
    if float_bits::equal(d, zero) {
        (zero, zero)
    } else {
        let alpha = forward(float_math::quotient(left, d));
        let beta = forward(float_math::quotient(right, d));
        let squared = float_math::sum(
            float_math::product(alpha, alpha),
            float_math::product(beta, beta),
        );
        if float_bits::less(F64Bits(NINE), squared) {
            let tau = float_math::quotient(F64Bits(THREE), float_math::root(squared));
            (
                float_math::product(float_math::product(tau, alpha), d),
                float_math::product(float_math::product(tau, beta), d),
            )
        } else {
            (
                if float_bits::less(float_math::quotient(left, d), zero) {
                    zero
                } else {
                    left
                },
                if float_bits::less(float_math::quotient(right, d), zero) {
                    zero
                } else {
                    right
                },
            )
        }
    }
}

/// The tangents after the constraint on the first `n` segments.
pub open spec fn constrained(knots: Seq<Knot>, n: nat) -> Seq<F64Bits>
    decreases n,
{
    if n == 0 {
        Seq::new(knots.len(), |k: int| mean_tangent(knots, k))
    } else {
        let before = constrained(knots, (n - 1) as nat);
        let (left, right) = limited(secant(knots, n - 1), before[n - 1], before[n as int]);
        before.update(n - 1, left).update(n as int, right)
    }
}

/// The tangents of a monotone interpolant.
pub open spec fn tangents_of(knots: Seq<Knot>) -> Seq<F64Bits> {
    constrained(knots, (knots.len() - 1) as nat)
}

/// The cubic of one segment, by its ends and their tangents.
pub open spec fn cubic(a: Knot, b: Knot, left: F64Bits, right: F64Bits, x: F64Bits) -> F64Bits {
    let two = F64Bits(TWO);
    let three = F64Bits(THREE);
    let h = float_math::difference(b.x, a.x);
    let t = float_math::quotient(float_math::difference(x, a.x), h);
    let t2 = float_math::product(t, t);
    let t3 = float_math::product(t2, t);
    let h00 = float_math::sum(
        float_math::difference(float_math::product(two, t3), float_math::product(three, t2)),
        F64Bits(ONE),
    );
    let h10 = float_math::sum(float_math::difference(t3, float_math::product(two, t2)), t);
    let h01 = float_math::sum(
        float_math::product(F64Bits(MINUS_TWO), t3),
        float_math::product(three, t2),
    );
    let h11 = float_math::difference(t3, t2);
    float_math::sum(
        float_math::sum(
            float_math::sum(
                float_math::product(h00, a.y),
                float_math::product(float_math::product(h10, h), left),
            ),
            float_math::product(h01, b.y),
        ),
        float_math::product(float_math::product(h11, h), right),
    )
}

/// The value of the interpolant in a place.
pub open spec fn value_in(
    knots: Seq<Knot>,
    tangents: Seq<F64Bits>,
    x: F64Bits,
    place: Place,
) -> Option<F64Bits> {
    match place {
        Place::Outside => None,
        Place::Knot(y) => Some(y),
        Place::Segment(k) => Some(
            cubic(
                knots[k as int],
                knots[k + 1],
                tangents[k as int],
                tangents[k + 1],
                x,
            ),
        ),
    }
}

/// Where a query falls.
pub open spec fn place_of(knots: Seq<Knot>, x: F64Bits) -> Place {
    choose|place: Place| falls(knots, x, place)
}

/// The value of the interpolant at a query.
pub open spec fn value_at(knots: Seq<Knot>, tangents: Seq<F64Bits>, x: F64Bits) -> Option<F64Bits> {
    value_in(knots, tangents, x, place_of(knots, x))
}

fn secant_of(a: Knot, b: Knot) -> (r: F64Bits)
    ensures
        r == float_math::quotient(
            float_math::difference(b.y, a.y),
            float_math::difference(b.x, a.x),
        ),
{
    b.y.minus(a.y).over(b.x.minus(a.x))
}

fn limit(d: F64Bits, left: F64Bits, right: F64Bits) -> (r: (F64Bits, F64Bits))
    ensures
        r == limited(d, left, right),
{
    let zero: F64Bits = F64Bits(0);
    if d.is_equal(zero) {
        return (zero, zero);
    }
    let mut l: F64Bits = left;
    let mut r: F64Bits = right;
    let mut alpha: F64Bits = left.over(d);
    let mut beta: F64Bits = right.over(d);
    if alpha.is_less(zero) {
        l = zero;
        alpha = zero;
    }
    if beta.is_less(zero) {
        r = zero;
        beta = zero;
    }
    let squared: F64Bits = alpha.times(alpha).plus(beta.times(beta));
    if F64Bits(NINE).is_less(squared) {
        let tau: F64Bits = F64Bits(THREE).over(squared.square_root());
        l = tau.times(alpha).times(d);
        r = tau.times(beta).times(d);
    }
    (l, r)
}

/// Knots with their starting tangents, then with the constraint of every
/// segment from the left.
fn fit_tangents(knots: &Vec<Knot>) -> (r: Vec<F64Bits>)
    requires
        knots@.len() >= 2,
    ensures
        r@ == tangents_of(knots@),
        r@.len() == knots@.len(),
{
    let n: usize = knots.len();
    let mut tangents: Vec<F64Bits> = Vec::new();
    let mut k: usize = 0;
    while k < n
        invariant
            k <= n,
            n == knots@.len(),
            n >= 2,
            tangents@ == Seq::new(k as nat, |i: int| mean_tangent(knots@, i)),
        decreases n - k,
    {
        let t: F64Bits = if k == 0 {
            secant_of(knots[0], knots[1])
        } else if k == n - 1 {
            secant_of(knots[n - 2], knots[n - 1])
        } else {
            secant_of(knots[k - 1], knots[k]).plus(secant_of(knots[k], knots[k + 1])).over(
                F64Bits(TWO),
            )
        };
        tangents.push(t);
        assert(tangents@ =~= Seq::new((k + 1) as nat, |i: int| mean_tangent(knots@, i)));
        k = k + 1;
    }
    let mut j: usize = 0;
    while j < n - 1
        invariant
            j < n,
            n == knots@.len(),
            n >= 2,
            tangents@ == constrained(knots@, j as nat),
            tangents@.len() == n,
        decreases n - j,
    {
        let d: F64Bits = secant_of(knots[j], knots[j + 1]);
        let (left, right) = limit(d, tangents[j], tangents[j + 1]);
        tangents.set(j, left);
        tangents.set(j + 1, right);
        j = j + 1;
    }
    tangents
}

fn hermite(a: Knot, b: Knot, left: F64Bits, right: F64Bits, x: F64Bits) -> (r: F64Bits)
    ensures
        r == cubic(a, b, left, right, x),
{
    let two: F64Bits = F64Bits(TWO);
    let three: F64Bits = F64Bits(THREE);
    let h: F64Bits = b.x.minus(a.x);
    let t: F64Bits = x.minus(a.x).over(h);
    let t2: F64Bits = t.times(t);
    let t3: F64Bits = t2.times(t);
    let h00: F64Bits = two.times(t3).minus(three.times(t2)).plus(F64Bits(ONE));
    let h10: F64Bits = t3.minus(two.times(t2)).plus(t);
    let h01: F64Bits = F64Bits(MINUS_TWO).times(t3).plus(three.times(t2));
    let h11: F64Bits = t3.minus(t2);
    h00.times(a.y).plus(h10.times(h).times(left)).plus(h01.times(b.y)).plus(
        h11.times(h).times(right),
    )
}

/// Knots and tangents of a monotone cubic interpolant.
#[derive(Debug)]
pub struct MonotoneCubicSpline {
    knots: Vec<Knot>,
    tangents: Vec<F64Bits>,
}

fn insert_knot(knots: &mut Vec<Knot>, knot: Knot)
    requires
        finite_knot(knot),
        forall|i: int| 0 <= i < old(knots)@.len() ==> finite_knot(#[trigger] old(knots)@[i]),
    ensures
        final(knots)@ == ordering::inserted(old(knots)@, knot, knot_key()),
        forall|i: int| 0 <= i < final(knots)@.len() ==> finite_knot(#[trigger] final(knots)@[i]),
{
    let mut pos: usize = knots.len();
    while pos > 0 && knot.x.is_less(knots[pos - 1].x)
        invariant
            pos <= knots.len(),
            finite_knot(knot),
            forall|i: int| 0 <= i < knots@.len() ==> finite_knot(#[trigger] knots@[i]),
            forall|i: int| pos <= i < knots@.len() ==> knot_key()(#[trigger] knots@[i]) > knot_key()(knot),
        decreases pos,
    {
        pos = pos - 1;
    }
    proof {
        assert(pos > 0 ==> finite_knot(knots@[pos - 1]));
        ordering::lemma_inserted_at(knots@, knot, knot_key(), pos as int);
    }
    knots.insert(pos, knot);
}

proof fn lemma_bad_stays(points: Seq<Knot>, n: nat, total: nat)
    requires
        n <= total,
        first_bad(points, n) is Some,
    ensures
        first_bad(points, total) == first_bad(points, n),
    decreases total,
{
    if n < total {
        lemma_bad_stays(points, n, (total - 1) as nat);
    }
}

proof fn lemma_repeat_stays(knots: Seq<Knot>, n: nat, total: nat)
    requires
        n <= total,
        first_repeat(knots, n) is Some,
    ensures
        first_repeat(knots, total) == first_repeat(knots, n),
    decreases total,
{
    if n < total {
        lemma_repeat_stays(knots, n, (total - 1) as nat);
    }
}

/// Sorted finite knots without a repeated neighbour ascend strictly.
proof fn lemma_strictly_right(knots: Seq<Knot>, n: nat)
    requires
        knots.len() >= 1,
        n < knots.len(),
        ordering::ascends(knots, knot_key()),
        forall|i: int| 0 <= i < knots.len() ==> finite_knot(#[trigger] knots[i]),
        first_repeat(knots, n) is None,
    ensures
        forall|i: int, j: int|
            0 <= i < j <= n ==> float_bits::less((#[trigger] knots[i]).x, (#[trigger] knots[j]).x),
    decreases n,
{
    if n > 0 {
        lemma_strictly_right(knots, (n - 1) as nat);
        assert forall|i: int, j: int| 0 <= i < j <= n implies float_bits::less(
            (#[trigger] knots[i]).x,
            (#[trigger] knots[j]).x,
        ) by {
            if j == n {
                assert(knot_key()(knots[n - 1]) <= knot_key()(knots[n as int]));
                assert(finite_knot(knots[n - 1]) && finite_knot(knots[n as int]));
                if i < n - 1 {
                    assert(float_bits::less(knots[i].x, knots[n - 1].x));
                }
            }
        }
    }
}

impl MonotoneCubicSpline {
    /// The knots, left to right.
    pub closed spec fn knots_view(&self) -> Seq<Knot> {
        self.knots@
    }

    /// One tangent per knot.
    pub closed spec fn tangents_view(&self) -> Seq<F64Bits> {
        self.tangents@
    }

    /// At least two finite knots, strictly ascending, with a tangent each.
    pub open spec fn wf(&self) -> bool {
        &&& self.knots_view().len() >= 2
        &&& strictly_right(self.knots_view())
        &&& self.tangents_view() == tangents_of(self.knots_view())
        &&& self.tangents_view().len() == self.knots_view().len()
    }

    /// Fits an interpolant through points in any order.
    pub fn fit(points: Vec<Knot>) -> (r: Result<Self, CurveError>)
        ensures
            match knots_of(points@) {
                Ok(knots) => r matches Ok(s) && s.wf() && s.knots_view() == knots,
                Err(e) => r matches Err(err) && err == e,
            },
    {
        if points.len() < 2 {
            return Err(CurveError::InsufficientPoints(points.len()));
        }
        let mut i: usize = 0;
        let mut knots: Vec<Knot> = Vec::new();
        assert(points@.take(0) == Seq::<Knot>::empty());
        while i < points.len()
            invariant
                i <= points@.len(),
                points@.len() >= 2,
                first_bad(points@, i as nat) is None,
                knots@ == ordering::stably_sorted(points@.take(i as int), knot_key()),
                forall|k: int| 0 <= k < knots@.len() ==> finite_knot(#[trigger] knots@[k]),
            decreases points@.len() - i,
        {
            let p: Knot = points[i];
            if !p.x.is_finite() || !p.y.is_finite() {
                proof {
                    lemma_bad_stays(points@, (i + 1) as nat, points@.len());
                }
                return Err(CurveError::NonFiniteRate(p.x.to_count()));
            }
            proof {
                assert(points@.take(i + 1).drop_last() == points@.take(i as int));
                assert(points@.take(i + 1).last() == p);
            }
            insert_knot(&mut knots, p);
            i = i + 1;
        }
        proof {
            assert(points@.take(i as int) == points@);
            ordering::law_sorting_permutes_into_order(points@, knot_key());
        }
        let mut k: usize = 0;
        while k < knots.len() - 1
            invariant
                k < knots@.len(),
                points@.len() >= 2,
                first_bad(points@, points@.len()) is None,
                knots@ == ordering::stably_sorted(points@, knot_key()),
                knots@.len() == points@.len(),
                first_repeat(knots@, k as nat) is None,
            decreases knots@.len() - k,
        {
            if knots[k].x.is_equal(knots[k + 1].x) {
                proof {
                    lemma_repeat_stays(knots@, (k + 1) as nat, (knots@.len() - 1) as nat);
                }
                return Err(CurveError::DuplicateMaturity(knots[k].x.to_count()));
            }
            k = k + 1;
        }
        proof {
            lemma_strictly_right(knots@, k as nat);
        }
        let tangents: Vec<F64Bits> = fit_tangents(&knots);
        Ok(MonotoneCubicSpline { knots, tangents })
    }

    /// The knots, left to right.
    pub fn knots(&self) -> (r: &Vec<Knot>)
        ensures
            r@ == self.knots_view(),
    {
        &self.knots
    }

    /// One tangent per knot.
    pub fn tangents(&self) -> (r: &Vec<F64Bits>)
        ensures
            r@ == self.tangents_view(),
    {
        &self.tangents
    }

    /// The least and the greatest `x`.
    pub fn domain(&self) -> (r: (F64Bits, F64Bits))
        requires
            self.wf(),
        ensures
            r.0 == self.knots_view()[0].x,
            r.1 == self.knots_view()[self.knots_view().len() - 1].x,
    {
        (self.knots[0].x, self.knots[self.knots.len() - 1].x)
    }

    /// The value at `x`; none outside the domain.
    pub fn eval(&self, x: F64Bits) -> (r: Option<F64Bits>)
        requires
            self.wf(),
        ensures
            r == value_at(self.knots_view(), self.tangents_view(), x),
    {
        match self.place(x) {
            Place::Outside => None,
            Place::Knot(y) => Some(y),
            Place::Segment(k) => {
                assert(k + 1 < self.knots.len());
                let next: usize = k + 1;
                Some(
                    hermite(
                        self.knots[k],
                        self.knots[next],
                        self.tangents[k],
                        self.tangents[next],
                        x,
                    ),
                )
            },
        }
    }

    fn place(&self, x: F64Bits) -> (r: Place)
        requires
            self.wf(),
        ensures
            r == place_of(self.knots_view(), x),
            r matches Place::Segment(k) ==> k + 1 < self.knots_view().len(),
    {
        let place: Place = self.locate(x);
        proof {
            law_place_is_unique(self.knots_view(), x, place, place_of(self.knots_view(), x));
        }
        place
    }

    /// Finds where a query falls.
    fn locate(&self, x: F64Bits) -> (r: Place)
        requires
            self.wf(),
        ensures
            falls(self.knots_view(), x, r),
    {
        let (lo, hi) = self.domain();
        if x.is_nan() || x.is_less(lo) || hi.is_less(x) {
            return Place::Outside;
        }
        let ghost knots = self.knots@;
        let mut k: usize = 0;
        assert(finite_knot(knots[0]));
        while k < self.knots.len() - 1
            invariant
                k < knots.len(),
                knots == self.knots@,
                self.wf(),
                !float_bits::nan(x),
                !float_bits::less(knots[knots.len() - 1].x, x),
                !float_bits::less(x, knots[k as int].x),
            decreases knots.len() - k,
        {
            assert(finite_knot(knots[k as int]) && finite_knot(knots[k + 1]));
            if self.knots[k].x.is_equal(x) {
                return Place::Knot(self.knots[k].y);
            }
            if x.is_less(self.knots[k + 1].x) {
                return Place::Segment(k);
            }
            k = k + 1;
        }
        assert(finite_knot(knots[k as int]));
        assert(float_bits::equal(knots[k as int].x, x));
        Place::Knot(self.knots[k].y)
    }
}

/// A query falls in exactly one place.
pub proof fn law_place_is_unique(knots: Seq<Knot>, x: F64Bits, a: Place, b: Place)
    requires
        knots.len() >= 2,
        strictly_right(knots),
        falls(knots, x, a),
        falls(knots, x, b),
    ensures
        a == b,
{
    let last = knots.len() - 1;
    assert(finite_knot(knots[0]) && finite_knot(knots[last]));
    if !(a is Outside) {
        lemma_inside(knots, x, a);
    }
    if !(b is Outside) {
        lemma_inside(knots, x, b);
    }
    match (a, b) {
        (Place::Knot(_), Place::Knot(_)) => {
            let i = choose|i: int|
                0 <= i < knots.len() && float_bits::equal((#[trigger] knots[i]).x, x) && a->Knot_0 == knots[i].y;
            let j = choose|j: int|
                0 <= j < knots.len() && float_bits::equal((#[trigger] knots[j]).x, x) && b->Knot_0 == knots[j].y;
            if i < j {
                assert(float_bits::less(knots[i].x, knots[j].x));
            } else if j < i {
                assert(float_bits::less(knots[j].x, knots[i].x));
            }
        },
        (Place::Segment(i), Place::Segment(j)) => {
            lemma_segments_agree(knots, x, i as int, j as int);
            lemma_segments_agree(knots, x, j as int, i as int);
        },
        (Place::Knot(_), Place::Segment(j)) => {
            lemma_knot_is_no_segment(knots, x, a->Knot_0, j as int);
        },
        (Place::Segment(i), Place::Knot(_)) => {
            lemma_knot_is_no_segment(knots, x, b->Knot_0, i as int);
        },
        _ => {},
    }
}

proof fn lemma_inside(knots: Seq<Knot>, x: F64Bits, place: Place)
    requires
        knots.len() >= 2,
        strictly_right(knots),
        falls(knots, x, place),
        !(place is Outside),
    ensures
        !falls(knots, x, Place::Outside),
{
    let last = knots.len() - 1;
    assert(finite_knot(knots[0]) && finite_knot(knots[last]));
    match place {
        Place::Knot(y) => {
            let k = choose|k: int|
                0 <= k < knots.len() && float_bits::equal((#[trigger] knots[k]).x, x) && y == knots[k].y;
            if k > 0 {
                assert(float_bits::less(knots[0].x, knots[k].x));
            }
            if k < last {
                assert(float_bits::less(knots[k].x, knots[last].x));
            }
        },
        Place::Segment(k) => {
            if k > 0 {
                assert(float_bits::less(knots[0].x, knots[k as int].x));
            }
            if k + 1 < last {
                assert(float_bits::less(knots[k + 1].x, knots[last].x));
            }
        },
        Place::Outside => {},
    }
}

proof fn lemma_segments_agree(knots: Seq<Knot>, x: F64Bits, i: int, j: int)
    requires
        strictly_right(knots),
        0 <= i,
        0 <= j,
        i + 1 < knots.len(),
        j + 1 < knots.len(),
        float_bits::less(knots[i].x, x) && float_bits::less(x, knots[i + 1].x),
        float_bits::less(knots[j].x, x) && float_bits::less(x, knots[j + 1].x),
    ensures
        !(i < j),
{
    if i < j {
        if i + 1 < j {
            assert(float_bits::less(knots[i + 1].x, knots[j].x));
        }
    }
}

proof fn lemma_knot_is_no_segment(knots: Seq<Knot>, x: F64Bits, y: F64Bits, j: int)
    requires
        strictly_right(knots),
        0 <= j,
        j + 1 < knots.len(),
        float_bits::less(knots[j].x, x) && float_bits::less(x, knots[j + 1].x),
    ensures
        !falls(knots, x, Place::Knot(y)),
{
    if falls(knots, x, Place::Knot(y)) {
        let k = choose|k: int|
            0 <= k < knots.len() && float_bits::equal((#[trigger] knots[k]).x, x) && y == knots[k].y;
        if k < j {
            assert(float_bits::less(knots[k].x, knots[j].x));
        } else if k > j + 1 {
            assert(float_bits::less(knots[j + 1].x, knots[k].x));
        }
    }
}

/// The interpolant passes through its knots.
pub proof fn law_knots_are_met(knots: Seq<Knot>, tangents: Seq<F64Bits>, k: int)
    requires
        knots.len() >= 2,
        strictly_right(knots),
        0 <= k < knots.len(),
    ensures
        value_at(knots, tangents, knots[k].x) == Some(knots[k].y),
{
    let x = knots[k].x;
    let place = Place::Knot(knots[k].y);
    assert(finite_knot(knots[k]));
    assert(float_bits::equal(knots[k].x, x));
    assert(falls(knots, x, place));
    law_place_is_unique(knots, x, place, place_of(knots, x));
}

/// The interpolant has no value outside its knots: it never extrapolates.
pub proof fn law_never_extrapolates(knots: Seq<Knot>, tangents: Seq<F64Bits>, x: F64Bits)
    requires
        knots.len() >= 2,
        strictly_right(knots),
        float_bits::less(x, knots[0].x) || float_bits::less(knots[knots.len() - 1].x, x),
    ensures
        value_at(knots, tangents, x) is None,
{
    assert(falls(knots, x, Place::Outside));
    law_place_is_unique(knots, x, Place::Outside, place_of(knots, x));
}

/// Knots that were accepted ascend strictly.
pub proof fn lemma_knots_ascend(points: Seq<Knot>)
    requires
        knots_of(points) is Ok,
    ensures
        knots_of(points)->Ok_0.len() == points.len(),
        strictly_right(knots_of(points)->Ok_0),
{
    let sorted = knots_of(points)->Ok_0;
    ordering::law_sorting_permutes_into_order(points, knot_key());
    lemma_all_finite(points, points.len());
    assert forall|i: int| 0 <= i < sorted.len() implies finite_knot(#[trigger] sorted[i]) by {
        vstd::seq_lib::to_multiset_contains(sorted, sorted[i]);
        vstd::seq_lib::to_multiset_contains(points, sorted[i]);
        assert(sorted.contains(sorted[i]));
        assert(points.contains(sorted[i]));
    }
    lemma_strictly_right(sorted, (sorted.len() - 1) as nat);
}

pub proof fn lemma_all_finite(points: Seq<Knot>, n: nat)
    requires
        n <= points.len(),
        first_bad(points, n) is None,
    ensures
        forall|i: int| 0 <= i < n ==> finite_knot(#[trigger] points[i]),
    decreases n,
{
    if n > 0 {
        lemma_all_finite(points, (n - 1) as nat);
    }
}

} // verus!
