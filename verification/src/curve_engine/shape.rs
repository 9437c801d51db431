//! What the tangents of an interpolant do to its shape: they follow the data,
//! so that no segment turns back.

use vstd::arithmetic::power2::{lemma_pow2_adds, lemma_pow2_pos, lemma_pow2_strictly_increases, pow2};
use vstd::prelude::*;

use crate::curve_engine::spline::{constrained, forward, limited, secant, tangents_of, Knot};
use crate::float_bits;
use crate::float_bits::{F64Bits, NINE, ONE, THREE};
use crate::float_error;
use crate::float_error::FULL;
use crate::float_math;
use crate::float_order;
use crate::float_round;
use crate::float_round::INFINITE;

verus! {

/// The slope of a segment's cubic at `p / q` of the way through it, as a
/// multiple of the secant and times `q * q * u`, where its tangents are `a / u`
/// and `b / u` times the secant.
pub open spec fn slope_at(p: int, q: int, a: int, b: int, u: int) -> int {
    u * (6 * p * (q - p)) + a * ((3 * p - q) * (p - q)) + b * (p * (3 * p - 2 * q))
}

/// A cubic whose tangents are between zero and three times its secant never
/// turns against the secant.
pub proof fn law_slopes_within_three_never_turn(p: int, q: int, a: int, b: int, u: int)
    requires
        0 <= p <= q,
        0 <= a <= 3 * u,
        0 <= b <= 3 * u,
    ensures
        slope_at(p, q, a, b, u) >= 0,
{
    let base = 6 * p * (q - p);
    let x = (3 * p - q) * (p - q);
    let y = p * (3 * p - 2 * q);
    assert(base >= 0 && base + 3 * x >= 0 && base + 3 * y >= 0 && base + 3 * x + 3 * y >= 0)
        by (nonlinear_arith)
        requires
            0 <= p <= q,
            base == 6 * p * (q - p),
            x == (3 * p - q) * (p - q),
            y == p * (3 * p - 2 * q),
    {
        assert(base + 3 * x == 3 * ((q - p) * (q - p)));
        assert((q - p) * (q - p) >= 0);
        assert(base + 3 * y == 3 * (p * p));
        assert(p * p >= 0);
        assert(base + 3 * x + 3 * y == 3 * ((2 * p - q) * (2 * p - q)));
        assert((2 * p - q) * (2 * p - q) >= 0);
    }
    assert(a * x >= if x < 0 {
        3 * u * x
    } else {
        0
    }) by (nonlinear_arith)
        requires
            0 <= a <= 3 * u,
    ;
    assert(b * y >= if y < 0 {
        3 * u * y
    } else {
        0
    }) by (nonlinear_arith)
        requires
            0 <= b <= 3 * u,
    ;
    assert(u * base + (if x < 0 {
        3 * u * x
    } else {
        0
    }) + (if y < 0 {
        3 * u * y
    } else {
        0
    }) >= 0) by (nonlinear_arith)
        requires
            u >= 0,
            base >= 0,
            base + 3 * x >= 0,
            base + 3 * y >= 0,
            base + 3 * x + 3 * y >= 0,
    {
        assert(u * (base + 3 * x) >= 0);
        assert(u * (base + 3 * y) >= 0);
        assert(u * (base + 3 * x + 3 * y) >= 0);
        assert(u * base >= 0);
    }
}

/// Tangents that the constraint leaves in size are, as multiples of the secant,
/// between zero and three.
pub proof fn law_kept_slopes_are_within_three(alpha: F64Bits, beta: F64Bits)
    requires
        !float_bits::nan(alpha),
        !float_bits::nan(beta),
        !float_bits::less(
            F64Bits(NINE),
            float_math::sum(
                float_math::product(forward(alpha), forward(alpha)),
                float_math::product(forward(beta), forward(beta)),
            ),
        ),
    ensures
        float_order::at_most(F64Bits(0), forward(alpha)),
        float_order::at_most(F64Bits(0), forward(beta)),
        float_order::at_most(forward(alpha), F64Bits(THREE)),
        float_order::at_most(forward(beta), F64Bits(THREE)),
{
    let a = forward(alpha);
    let b = forward(beta);
    let aa = float_math::product(a, a);
    let bb = float_math::product(b, b);
    float_order::law_product_of_unsigned(a, a);
    float_order::law_product_of_unsigned(b, b);
    lemma_square_is_a_number(a);
    lemma_square_is_a_number(b);
    if !float_order::at_most(a, F64Bits(THREE)) {
        lemma_square_past_three(a);
        lemma_sum_past_nine(aa, bb);
    }
    if !float_order::at_most(b, F64Bits(THREE)) {
        lemma_square_past_three(b);
        lemma_sum_past_nine(bb, aa);
        float_order::law_sum_commutes(aa, bb);
    }
}

proof fn lemma_square_is_a_number(a: F64Bits)
    requires
        float_order::at_most(F64Bits(0), a),
    ensures
        !float_bits::nan(float_math::product(a, a)),
{
    reveal(float_math::product);
    float_round::law_nearest_exists(float_math::size(a) * float_math::size(a), float_math::unit());
}

/// What is past three has a square past nine.
proof fn lemma_square_past_three(a: F64Bits)
    requires
        float_order::at_most(F64Bits(0x4008_0000_0000_0001), a),
    ensures
        float_order::at_most(F64Bits(0x4022_0000_0000_0001), float_math::product(a, a)),
{
    reveal(float_math::product);
    let n = F64Bits(0x4008_0000_0000_0001);
    lemma_square_of_the_next(n);
    if float_bits::finite(a) {
        float_order::law_product_keeps_order(n, a, n);
        float_order::law_product_keeps_order(n, a, a);
        float_math::lemma_product_commutes(n, a);
    }
}

proof fn lemma_square_of_the_next(n: F64Bits)
    requires
        n == F64Bits(0x4008_0000_0000_0001),
    ensures
        float_order::at_most(F64Bits(0x4022_0000_0000_0001), float_math::product(n, n)),
{
    reveal(float_math::product);
    let u = float_math::unit();
    let p = pow2(1023) as int;
    float_round::lemma_multiple(1023, 0x18_0000_0000_0001);
    float_round::lemma_multiple(1025, 0x12_0000_0000_0001);
    float_round::lemma_powers();
    lemma_pow2_pos(1023);
    lemma_pow2_adds(1023, 51);
    lemma_pow2_adds(2, 1023);
    vstd::arithmetic::power2::lemma2_to64();
    vstd::arithmetic::power2::lemma2_to64_rest();
    assert(u == p * 0x8_0000_0000_0000);
    let size = float_math::size(n);
    let nine = float_round::multiple(0x4022_0000_0000_0001);
    assert(size == 0x18_0000_0000_0001 * p);
    assert(nine == 0x12_0000_0000_0001 * (4 * p));
    assert(nine * u <= (size * size) * 1) by (nonlinear_arith)
        requires
            size == 0x18_0000_0000_0001 * p,
            nine == 0x12_0000_0000_0001 * (4 * p),
            u == p * 0x8_0000_0000_0000,
            p > 0,
    {
        assert(nine * u == (0x12_0000_0000_0001 * 4 * 0x8_0000_0000_0000) * (p * p));
        assert(size * size == (0x18_0000_0000_0001 * 0x18_0000_0000_0001) * (p * p));
        assert(p * p >= 0);
    }
    float_math::lemma_rounded_exact(0x4022_0000_0000_0001);
    float_round::law_rounding_keeps_order(nine, 1, size * size, u);
    float_round::law_nearest_exists(size * size, u);
}

/// Adding what is not negative leaves a float past nine there.
proof fn lemma_sum_past_nine(a: F64Bits, b: F64Bits)
    requires
        float_order::at_most(F64Bits(0x4022_0000_0000_0001), a),
        float_order::at_most(F64Bits(0), b),
    ensures
        float_bits::less(F64Bits(NINE), float_math::sum(a, b)),
{
    reveal(float_math::sum);
    if float_bits::finite(a) {
        float_order::law_sum_keeps_order(F64Bits(0), b, a);
        float_order::law_sum_commutes(a, b);
        float_order::law_sum_commutes(a, F64Bits(0));
        float_order::law_sum_with_zero(a, F64Bits(0));
    }
}

/// How fine the bound on tangents is: three, and one part in `2^40`.
pub const SHARE: u64 = 0x100_0000_0000;

/// The finer bound that holds before the next segment is constrained.
const FINE: u64 = 0x4000_0000_0000;

/// Whether a tangent does not point against a secant and is at most three times
/// it, up to one part in `share`. The tangent of a level secant is level.
pub open spec fn follows(t: F64Bits, d: F64Bits, share: int) -> bool {
    &&& float_bits::finite(t)
    &&& float_math::zero(t) || float_bits::signed(t) == float_bits::signed(d)
    &&& float_math::size(t) * share <= (3 * share + 1) * float_math::size(d)
}

/// Whether a tangent has a ratio to a secant that neither overflows nor loses
/// precision near zero.
pub open spec fn plain_ratio(t: F64Bits, d: F64Bits) -> bool {
    let ratio = float_math::quotient(t, d);
    float_math::zero(t) || (float_bits::finite(ratio) && float_bits::mag(ratio) >= FULL)
}

/// Whether four times a secant is still finite.
pub open spec fn moderate(d: F64Bits) -> bool {
    float_bits::mag(d) < INFINITE - 2 * FULL
}

/// Whether no slope overflows, and none loses precision near zero against the
/// secant that constrains it.
pub open spec fn plain_slopes(knots: Seq<Knot>) -> bool {
    forall|k: int|
        0 <= k < knots.len() - 1 ==> {
            let d = #[trigger] secant(knots, k);
            &&& moderate(d)
            &&& !float_math::zero(d) ==> plain_ratio(constrained(knots, k as nat)[k], d)
                && plain_ratio(constrained(knots, k as nat)[k + 1], d)
        }
}

/// What a ratio of a tangent to a secant says of the two.
proof fn lemma_ratio(t: F64Bits, d: F64Bits)
    requires
        float_bits::finite(d),
        !float_math::zero(d),
        plain_ratio(t, d),
    ensures
        ({
            let q = float_math::quotient(t, d);
            let u = float_math::unit();
            &&& float_bits::finite(t)
            &&& float_bits::finite(q)
            &&& float_math::zero(t) ==> float_math::zero(q)
            &&& !float_math::zero(t) ==> float_bits::mag(q) >= FULL && float_bits::signed(q) == (
            float_bits::signed(t) != float_bits::signed(d))
            &&& float_math::size(q) * float_math::size(d) * FULL <= float_math::size(t) * u * (FULL + 1)
            &&& float_math::size(t) * u * FULL <= float_math::size(q) * float_math::size(d) * (FULL + 1)
        }),
{
    reveal(float_math::quotient);
    let u = float_math::unit();
    float_round::lemma_multiple_ascends(0, float_bits::mag(d));
    float_math::lemma_small_multiples();
    let n = float_math::size(t) * u;
    float_round::law_nearest_exists(n, float_math::size(d));
    if float_math::zero(t) {
        float_math::lemma_rounded_nothing(float_math::size(d));
        assert(0 * u == 0);
        let dd = float_math::size(d);
        assert(0 * dd * FULL == 0 && 0 * (FULL + 1) == 0 && 0 * FULL == 0 && 0 * dd * (FULL + 1) == 0)
            by (nonlinear_arith);
    } else {
        float_error::law_rounding_adds_little(n, float_math::size(d));
        float_error::law_rounding_takes_little(n, float_math::size(d));
    }
}

/// What the floats of the constraint stand for.
pub proof fn lemma_constants()
    ensures
        float_math::unit() > 0,
        float_math::size(F64Bits(ONE)) == float_math::unit(),
        float_math::size(F64Bits(THREE)) == 3 * float_math::unit(),
        float_math::size(F64Bits(NINE)) == 9 * float_math::unit(),
{
    lemma_pow2_pos(1074);
    float_math::lemma_one();
    vstd::arithmetic::power2::lemma2_to64();
    vstd::arithmetic::power2::lemma2_to64_rest();
    float_round::lemma_multiple(1023, 0x18_0000_0000_0000);
    lemma_pow2_adds(51, 1023);
    float_round::lemma_multiple(1025, 0x12_0000_0000_0000);
    lemma_pow2_adds(49, 1025);
    let p = pow2(1023) as int;
    let r = pow2(1025) as int;
    assert(0x18_0000_0000_0000 * p == 3 * (0x8_0000_0000_0000 * p)) by (nonlinear_arith);
    assert(0x12_0000_0000_0000 * r == 9 * (0x2_0000_0000_0000 * r)) by (nonlinear_arith);
}

/// The root of nine is three.
proof fn lemma_root_of_nine()
    ensures
        float_round::rooted(float_math::size(F64Bits(NINE)) * float_math::unit()) == THREE,
{
    lemma_constants();
    let u = float_math::unit();
    let three = float_round::multiple(THREE as int);
    let below = float_round::multiple(THREE - 1) + three;
    let above = three + float_round::multiple(THREE + 1);
    float_round::lemma_multiple_steps(THREE - 1);
    float_round::lemma_multiple_steps(THREE as int);
    let n = float_math::size(F64Bits(NINE)) * u;
    assert(4 * n > below * below && 4 * n < above * above) by (nonlinear_arith)
        requires
            n == 9 * u * u,
            three == 3 * u,
            0 <= below < 2 * three,
            above > 2 * three,
    {
        assert(4 * n == (2 * three) * (2 * three));
        assert(below * below < (2 * three) * (2 * three));
        assert((2 * three) * (2 * three) < above * above);
    }
    float_round::lemma_rooted(n, THREE as int);
}

/// The root of a finite float past nine.
proof fn lemma_root_past_nine(squared: F64Bits)
    requires
        float_bits::less(F64Bits(NINE), squared),
        float_bits::finite(squared),
    ensures
        ({
            let u = float_math::unit();
            let r = float_math::size(float_math::root(squared));
            &&& float_bits::finite(float_math::root(squared))
            &&& !float_bits::signed(float_math::root(squared))
            &&& 3 * u <= r
            &&& r * FULL <= 3 * u * u
            &&& float_math::size(squared) * u * (FULL * FULL) <= (r * (FULL + 1)) * (r * (FULL + 1))
        }),
{
    reveal(float_math::root);
    lemma_constants();
    lemma_root_of_nine();
    let u = float_math::unit();
    let s = float_math::size(squared);
    float_round::lemma_multiple_ascends(NINE as int, float_bits::mag(squared));
    assert(9 * u * u <= s * u) by (nonlinear_arith)
        requires
            9 * u <= s,
            u > 0,
    ;
    float_error::law_nearest_root_exists(s * u);
    float_error::law_roots_keep_order(float_math::size(F64Bits(NINE)) * u, s * u);
    float_error::law_roots_are_bounded(s * u);
    let m = float_round::rooted(s * u);
    let r = float_round::multiple(m);
    if m > THREE {
        float_round::lemma_multiple_ascends(THREE as int, m);
    }
    let most = pow2(1024) as int;
    let half = pow2(513) as int;
    float_round::lemma_powers();
    float_round::lemma_multiple(2046, FULL as int);
    lemma_pow2_adds(52, 2046);
    lemma_pow2_adds(1024, 1074);
    lemma_pow2_adds(513, 513);
    lemma_pow2_adds(2, 1024);
    lemma_pow2_adds(52, 513);
    lemma_pow2_adds(513, 1074);
    vstd::arithmetic::power2::lemma2_to64();
    lemma_pow2_strictly_increases(565, 1074);
    lemma_pow2_strictly_increases(1587, 2098);
    lemma_pow2_pos(513);
    assert(float_round::multiple(INFINITE as int) == most * u);
    float_round::lemma_multiple_ascends(float_bits::mag(squared), INFINITE as int);
    assert(r <= half * u) by {
        if r > half * u {
            assert(r * r > 4 * (s * u)) by (nonlinear_arith)
                requires
                    r > half * u,
                    half * half == 4 * most,
                    s < most * u,
                    u > 0,
                    half > 0,
            {
                assert(half * u > 0);
                assert(r * r > (half * u) * (half * u));
                assert((half * u) * (half * u) == (half * half) * (u * u));
                assert(s * u < (most * u) * u);
            }
        }
    }
    assert(m < INFINITE);
    assert(r * FULL <= 3 * u * u) by (nonlinear_arith)
        requires
            r <= half * u,
            FULL * half < u,
            u > 0,
            FULL == 0x10_0000_0000_0000,
    {
        assert(r * FULL <= (half * u) * FULL);
        assert((half * u) * FULL == (FULL * half) * u);
        assert((FULL * half) * u <= u * u);
    }
    float_error::law_rooting_takes_little(s * u);
}

/// The factor of the constraint: at most one, and three over the root as far as
/// rounding goes.
proof fn lemma_factor(squared: F64Bits)
    requires
        float_bits::less(F64Bits(NINE), squared),
    ensures
        ({
            let u = float_math::unit();
            let tau = float_math::quotient(F64Bits(THREE), float_math::root(squared));
            let r = float_math::size(float_math::root(squared));
            &&& float_bits::finite(tau)
            &&& !float_bits::signed(tau)
            &&& float_math::size(tau) <= u
            &&& !float_bits::finite(squared) ==> float_math::zero(tau)
            &&& float_bits::finite(squared) ==> float_math::size(tau) * r * FULL <= 3 * u * u * (FULL + 1)
        }),
{
    lemma_constants();
    float_math::lemma_small_multiples();
    let u = float_math::unit();
    let three = F64Bits(THREE);
    let tau = float_math::quotient(three, float_math::root(squared));
    if float_bits::finite(squared) {
        lemma_root_past_nine(squared);
        let r = float_math::size(float_math::root(squared));
        let n = float_math::size(three) * u;
        assert(tau == float_math::with_sign(false, float_round::rounded(n, r))) by {
            reveal(float_math::quotient);
            if float_bits::mag(float_math::root(squared)) == 0 {
                assert(r == 0);
            }
        }
        float_round::law_nearest_exists(n, r);
        float_math::lemma_one();
        assert(n * 1 <= u * r) by (nonlinear_arith)
            requires
                n == 3 * u * u,
                3 * u <= r,
                u > 0,
        ;
        float_round::law_rounding_keeps_order(n, r, u, 1);
        let m = float_round::rounded(n, r);
        if m < ONE {
            float_round::lemma_multiple_ascends(m, ONE as int);
        }
        float_error::lemma_least(FULL as int);
        float_math::lemma_rounded_exact(FULL as int);
        assert(FULL * r <= n * 1) by (nonlinear_arith)
            requires
                r * FULL <= 3 * u * u,
                n == 3 * u * u,
        ;
        float_round::law_rounding_keeps_order(FULL as int, 1, n, r);
        float_error::law_rounding_adds_little(n, r);
    } else {
        reveal(float_math::root);
        reveal(float_math::quotient);
    }
}

/// The root of what is at least the square of a ratio covers the ratio.
proof fn lemma_root_covers(a: int, p: int, s: int, r: int, u: int)
    requires
        a >= 0,
        r >= 0,
        u > 0,
        a * a * FULL <= p * u * (FULL + 1),
        p <= s,
        s * u * (FULL * FULL) <= (r * (FULL + 1)) * (r * (FULL + 1)),
    ensures
        a * FULL <= r * (FULL + 2),
{
    let e = FULL as int;
    let rr = r * r;
    let aa = (a * e) * (a * e);
    assert(p * u <= s * u) by (nonlinear_arith)
        requires
            p <= s,
            u > 0,
    ;
    let pu = p * u;
    let su = s * u;
    assert(aa * e <= rr * ((e + 1) * (e + 1) * (e + 1))) by (nonlinear_arith)
        requires
            a * a * e <= pu * (e + 1),
            pu <= su,
            su * (e * e) <= (r * (e + 1)) * (r * (e + 1)),
            aa == (a * e) * (a * e),
            rr == r * r,
            e > 0,
    {
        let ee = e * e;
        assert(aa * e == (a * a * e) * ee);
        assert((a * a * e) * ee <= (pu * (e + 1)) * ee);
        assert((pu * (e + 1)) * ee == (pu * ee) * (e + 1));
        assert(pu * ee <= su * ee);
        assert((pu * ee) * (e + 1) <= (su * ee) * (e + 1));
        let w = (r * (e + 1)) * (r * (e + 1));
        assert((su * ee) * (e + 1) <= w * (e + 1));
        assert(w == rr * ((e + 1) * (e + 1)));
        assert(w * (e + 1) == rr * ((e + 1) * (e + 1) * (e + 1)));
    }
    if a * e > r * (e + 2) {
        assert(aa > (r * (e + 2)) * (r * (e + 2))) by (nonlinear_arith)
            requires
                a * e > r * (e + 2),
                r >= 0,
                e > 0,
                aa == (a * e) * (a * e),
        ;
        assert(aa * e > rr * ((e + 1) * (e + 1) * (e + 1))) by (nonlinear_arith)
            requires
                aa > (r * (e + 2)) * (r * (e + 2)),
                rr == r * r,
                e == 0x10_0000_0000_0000,
        {
            let w = (r * (e + 2)) * (r * (e + 2));
            assert(w == rr * ((e + 2) * (e + 2)));
            assert(aa * e > w * e);
            assert(w * e == rr * ((e + 2) * (e + 2) * e));
            assert((e + 2) * (e + 2) * e >= (e + 1) * (e + 1) * (e + 1));
            assert(rr >= 0);
            assert(rr * ((e + 2) * (e + 2) * e) >= rr * ((e + 1) * (e + 1) * (e + 1)));
        }
    }
}

/// A ratio times the factor is at most three, as far as rounding goes.
proof fn lemma_pulled_in(x: int, t: int, a: int, r: int, u: int)
    requires
        x * u * FULL <= t * a * (FULL + 1),
        t * r * FULL <= 3 * u * u * (FULL + 1),
        a * FULL <= r * (FULL + 2),
        a >= 0,
        r > 0,
        u > 0,
    ensures
        x * FULL <= 3 * u * (FULL + 5),
{
    let e = FULL as int;
    let ur = u * r;
    assert(ur > 0) by (nonlinear_arith)
        requires
            ur == u * r,
            u > 0,
            r > 0,
    ;
    let left = x * u * e;
    let tr = t * r * e;
    let uu = u * u;
    assert(uu >= 0 && 3 * u * u == 3 * uu) by (nonlinear_arith)
        requires
            uu == u * u,
    ;
    assert((left * (r * e)) * e <= (3 * uu * (e + 1) * (e + 1)) * (r * (e + 2))) by (nonlinear_arith)
        requires
            left <= t * a * (e + 1),
            tr == t * r * e,
            tr <= 3 * uu * (e + 1),
            uu == u * u,
            a * e <= r * (e + 2),
            a >= 0,
            r > 0,
            e > 0,
            uu >= 0,
    {
        assert(r * e > 0);
        assert(left * (r * e) <= (t * a * (e + 1)) * (r * e));
        assert((t * a * (e + 1)) * (r * e) == tr * (a * (e + 1)));
        assert(a * (e + 1) >= 0);
        assert(tr * (a * (e + 1)) <= (3 * uu * (e + 1)) * (a * (e + 1)));
        let g = 3 * uu * (e + 1) * (e + 1);
        assert((3 * uu * (e + 1)) * (a * (e + 1)) == g * a);
        assert((left * (r * e)) * e <= (g * a) * e);
        assert((g * a) * e == g * (a * e));
        assert(g >= 0);
        assert(g * (a * e) <= g * (r * (e + 2)));
    }
    let c = (e + 1) * (e + 1) * (e + 2);
    assert(left * r == ur * (x * e)) by (nonlinear_arith)
        requires
            left == x * u * e,
            ur == u * r,
    ;
    let xe = x * e;
    assert((left * (r * e)) * e == (left * r) * (e * e)) by (nonlinear_arith);
    assert((ur * xe) * (e * e) == ur * (xe * (e * e))) by (nonlinear_arith);
    assert(xe * (e * e) == x * (e * e * e)) by (nonlinear_arith)
        requires
            xe == x * e,
    ;
    let w = (e + 1) * (e + 1);
    assert(3 * uu * (e + 1) * (e + 1) == 3 * uu * w) by (nonlinear_arith)
        requires
            w == (e + 1) * (e + 1),
    ;
    assert((3 * uu * w) * (r * (e + 2)) == (uu * r) * (3 * (w * (e + 2)))) by (nonlinear_arith);
    assert(uu * r == ur * u) by (nonlinear_arith)
        requires
            uu == u * u,
            ur == u * r,
    ;
    assert((ur * u) * (3 * c) == ur * (3 * u * c)) by (nonlinear_arith);
    assert(ur * (x * (e * e * e)) <= ur * (3 * u * c));
    assert(x * (e * e * e) <= 3 * u * c) by (nonlinear_arith)
        requires
            ur * (x * (e * e * e)) <= ur * (3 * u * c),
            ur > 0,
    ;
    let ee = e * e;
    assert(ee > 0 && c <= ee * (e + 5)) by (nonlinear_arith)
        requires
            e == 0x10_0000_0000_0000,
            ee == e * e,
            c == (e + 1) * (e + 1) * (e + 2),
    ;
    assert(ee * (x * e) <= ee * (3 * u * (e + 5))) by (nonlinear_arith)
        requires
            x * (e * e * e) <= 3 * u * c,
            c <= ee * (e + 5),
            ee == e * e,
            u > 0,
    {
        assert(x * (e * e * e) == ee * (x * e));
        assert(3 * u * c <= 3 * u * (ee * (e + 5)));
        assert(3 * u * (ee * (e + 5)) == ee * (3 * u * (e + 5)));
    }
    assert(x * e <= 3 * u * (e + 5)) by (nonlinear_arith)
        requires
            ee * (x * e) <= ee * (3 * u * (e + 5)),
            ee > 0,
    ;
}

/// A scaled tangent against the secant.
proof fn lemma_scaled_bound(n: int, x: int, d: int, u: int)
    requires
        x * FULL <= 3 * u * (FULL + 5),
        n * u * FULL <= x * d * (FULL + 1) || 2 * n * u <= 2 * x * d + u,
        d > 0,
        u > 0,
    ensures
        n * FINE <= (3 * FINE + 1) * d,
{
    let e = FULL as int;
    assert(e == 0x10_0000_0000_0000);
    let xe = x * e;
    assert(xe * d <= 3 * u * (e + 5) * d) by (nonlinear_arith)
        requires
            xe <= 3 * u * (e + 5),
            d > 0,
    ;
    if n * u * e <= x * d * (e + 1) {
        assert(u * (n * (e * e)) <= u * (3 * (e + 5) * (e + 1) * d)) by (nonlinear_arith)
            requires
                n * u * e <= x * d * (e + 1),
                xe == x * e,
                xe * d <= 3 * u * (e + 5) * d,
                e > 0,
        {
            assert((n * u * e) * e <= (x * d * (e + 1)) * e);
            assert((n * u * e) * e == u * (n * (e * e)));
            assert((x * d * (e + 1)) * e == (xe * d) * (e + 1));
            assert((xe * d) * (e + 1) <= (3 * u * (e + 5) * d) * (e + 1));
            assert((3 * u * (e + 5) * d) * (e + 1) == u * (3 * (e + 5) * (e + 1) * d));
        }
        assert(n * (e * e) <= 3 * (e + 5) * (e + 1) * d) by (nonlinear_arith)
            requires
                u * (n * (e * e)) <= u * (3 * (e + 5) * (e + 1) * d),
                u > 0,
        ;
        assert(n * FINE <= (3 * FINE + 1) * d) by (nonlinear_arith)
            requires
                n * (e * e) <= 3 * (e + 5) * (e + 1) * d,
                e == 0x10_0000_0000_0000,
                FINE == 0x4000_0000_0000,
                d > 0,
        ;
    } else {
        assert(u * (2 * n * e) <= u * (6 * (e + 5) * d + e)) by (nonlinear_arith)
            requires
                2 * n * u <= 2 * x * d + u,
                xe == x * e,
                xe * d <= 3 * u * (e + 5) * d,
                e > 0,
        {
            assert((2 * n * u) * e <= (2 * x * d + u) * e);
            assert((2 * n * u) * e == u * (2 * n * e));
            assert((2 * x * d + u) * e == 2 * (xe * d) + u * e);
            assert(2 * (3 * u * (e + 5) * d) + u * e == u * (6 * (e + 5) * d + e));
        }
        assert(2 * n * e <= 6 * (e + 5) * d + e) by (nonlinear_arith)
            requires
                u * (2 * n * e) <= u * (6 * (e + 5) * d + e),
                u > 0,
        ;
        assert(2 * n * e <= 6 * d * e + 30 * d + e) by (nonlinear_arith)
            requires
                2 * n * e <= 6 * (e + 5) * d + e,
        ;
        assert(n * FINE <= (3 * FINE + 1) * d) by (nonlinear_arith)
            requires
                2 * n * e <= 6 * d * e + 30 * d + e,
                e == 0x10_0000_0000_0000,
                FINE == 0x4000_0000_0000,
                d > 0,
        ;
    }
}

/// A tangent that the next segment scales does not grow, as far as rounding
/// goes.
proof fn lemma_shrunk_bound(n: int, y: int, q: int, t: int, d: int, u: int)
    requires
        q * d * FULL <= t * u * (FULL + 1),
        y <= q,
        n * u * FULL <= y * d * (FULL + 1) || 2 * n * u <= 2 * y * d + u,
        d > 0,
        u > 0,
        t >= 0,
    ensures
        n * FULL <= t * (FULL + 3),
{
    let e = FULL as int;
    assert(y * d <= q * d) by (nonlinear_arith)
        requires
            y <= q,
            d > 0,
    ;
    let yd = y * d;
    let qd = q * d;
    assert(2 * y * d == 2 * yd) by (nonlinear_arith)
        requires
            yd == y * d,
    ;
    assert(yd * e <= t * u * (e + 1)) by (nonlinear_arith)
        requires
            yd <= qd,
            qd * e <= t * u * (e + 1),
            e > 0,
    ;
    if n * u * e <= yd * (e + 1) {
        assert(u * (n * (e * e)) <= u * (t * ((e + 1) * (e + 1)))) by (nonlinear_arith)
            requires
                n * u * e <= yd * (e + 1),
                yd * e <= t * u * (e + 1),
                e > 0,
        {
            assert((n * u * e) * e <= (yd * (e + 1)) * e);
            assert((n * u * e) * e == u * (n * (e * e)));
            assert((yd * (e + 1)) * e == (yd * e) * (e + 1));
            assert((yd * e) * (e + 1) <= (t * u * (e + 1)) * (e + 1));
            assert((t * u * (e + 1)) * (e + 1) == u * (t * ((e + 1) * (e + 1))));
        }
        assert(n * (e * e) <= t * ((e + 1) * (e + 1))) by (nonlinear_arith)
            requires
                u * (n * (e * e)) <= u * (t * ((e + 1) * (e + 1))),
                u > 0,
        ;
        assert(n * e <= t * (e + 3)) by (nonlinear_arith)
            requires
                n * (e * e) <= t * ((e + 1) * (e + 1)),
                e == 0x10_0000_0000_0000,
                t >= 0,
        {
            assert((e + 1) * (e + 1) <= e * (e + 3));
            assert(t * ((e + 1) * (e + 1)) <= t * (e * (e + 3)));
            assert(e * (n * e) <= e * (t * (e + 3)));
        }
    } else {
        assert(u * (2 * n * e) <= u * (2 * t * (e + 1) + e)) by (nonlinear_arith)
            requires
                2 * n * u <= 2 * yd + u,
                yd * e <= t * u * (e + 1),
                e > 0,
        {
            assert((2 * n * u) * e <= (2 * yd + u) * e);
            assert((2 * n * u) * e == u * (2 * n * e));
            assert((2 * yd + u) * e == 2 * (yd * e) + u * e);
            assert(2 * (t * u * (e + 1)) + u * e == u * (2 * t * (e + 1) + e));
        }
        assert(2 * n * e <= 2 * t * (e + 1) + e) by (nonlinear_arith)
            requires
                u * (2 * n * e) <= u * (2 * t * (e + 1) + e),
                u > 0,
        ;
        assert(n * e <= t * (e + 3)) by (nonlinear_arith)
            requires
                2 * n * e <= 2 * t * (e + 1) + e,
                e == 0x10_0000_0000_0000,
                t >= 0,
        ;
    }
}

/// What the constraint makes of the ratio of one tangent, given that the sum of
/// squares that it goes by covers that ratio and lies past nine.
proof fn lemma_scaled(a: F64Bits, squared: F64Bits, d: F64Bits)
    requires
        float_bits::finite(a),
        !float_bits::less(a, F64Bits(0)),
        float_bits::less(F64Bits(NINE), squared),
        float_order::at_most(float_math::product(a, a), squared),
        moderate(d),
        !float_math::zero(d),
    ensures
        ({
            let tau = float_math::quotient(F64Bits(THREE), float_math::root(squared));
            let y = float_math::product(tau, a);
            let n = float_math::product(y, d);
            let u = float_math::unit();
            &&& float_bits::finite(y)
            &&& float_math::size(y) <= float_math::size(a)
            &&& float_math::zero(a) ==> float_math::zero(n)
            &&& follows(n, d, FINE as int)
            &&& float_math::size(n) * u * FULL <= float_math::size(y) * float_math::size(d) * (FULL + 1) || 2
                * float_math::size(n) * u <= 2 * float_math::size(y) * float_math::size(d) + u
        }),
{
    lemma_constants();
    lemma_factor(squared);
    float_math::lemma_small_multiples();
    let u = float_math::unit();
    let tau = float_math::quotient(F64Bits(THREE), float_math::root(squared));
    let y = float_math::product(tau, a);
    let n = float_math::product(y, d);
    let (t, aa, dd) = (float_math::size(tau), float_math::size(a), float_math::size(d));
    if float_bits::mag(a) > 0 {
        float_round::lemma_multiple_ascends(0, float_bits::mag(a));
    }
    float_round::lemma_multiple_ascends(0, float_bits::mag(d));
    reveal(float_math::product);
    // The ratio shrinks.
    float_round::law_nearest_exists(t * aa, u);
    assert((t * aa) * 1 <= aa * u) by (nonlinear_arith)
        requires
            t <= u,
            aa >= 0,
    ;
    float_round::law_rounding_keeps_order(t * aa, u, aa, 1);
    float_math::lemma_rounded_exact(float_bits::mag(a));
    if float_bits::mag(y) < float_bits::mag(a) {
        float_round::lemma_multiple_ascends(float_bits::mag(y), float_bits::mag(a));
    }
    let x = float_math::size(y);
    if float_math::zero(a) {
        assert(t * 0 == 0);
        float_math::lemma_rounded_nothing(u);
        assert(0 * dd == 0);
    }
    // The tangent is that ratio times the secant.
    float_round::law_nearest_exists(x * dd, u);
    if float_bits::mag(y) > 0 {
        float_round::lemma_multiple_ascends(0, float_bits::mag(y));
    }
    assert(x * dd >= 0) by (nonlinear_arith)
        requires
            x >= 0,
            dd >= 0,
    ;
    if float_bits::mag(n) >= FULL {
        float_error::law_rounding_adds_little(x * dd, u);
    } else {
        float_error::law_least_rounding_adds_half(x * dd, u);
        assert(2 * x * dd == 2 * (x * dd)) by (nonlinear_arith);
    }
    lemma_factored_ratio(a, squared);
    lemma_scaled_bound(float_math::size(n), x, dd, u);
    lemma_moderate(n, d);
}

/// What is less than four times a moderate float is finite.
proof fn lemma_moderate(n: F64Bits, d: F64Bits)
    requires
        moderate(d),
        !float_math::zero(d),
        float_bits::mag(n) <= INFINITE,
        float_math::size(n) * FINE <= (3 * FINE + 1) * float_math::size(d),
    ensures
        float_bits::finite(n),
{
    float_math::lemma_small_multiples();
    float_round::lemma_multiple_ascends(0, float_bits::mag(d));
    let m = float_bits::mag(d);
    let four = if m < FULL {
        3 * FULL
    } else {
        m + 2 * FULL
    };
    float_error::lemma_least(FULL as int);
    float_round::lemma_doubled(FULL as int);
    float_round::lemma_doubled(2 * FULL);
    if m < FULL {
        float_round::lemma_multiple_ascends(m, FULL as int);
    } else {
        float_round::lemma_doubled(m);
        float_round::lemma_doubled(m + FULL);
    }
    let (size, dd) = (float_math::size(n), float_math::size(d));
    assert(size < 4 * dd) by (nonlinear_arith)
        requires
            size * FINE <= (3 * FINE + 1) * dd,
            FINE == 0x4000_0000_0000,
            dd > 0,
    ;
    float_round::lemma_multiple_ascends(four, INFINITE as int);
}

/// A ratio times the factor is at most three, as far as rounding goes.
proof fn lemma_factored_ratio(a: F64Bits, squared: F64Bits)
    requires
        float_bits::finite(a),
        !float_bits::less(a, F64Bits(0)),
        float_bits::less(F64Bits(NINE), squared),
        float_order::at_most(float_math::product(a, a), squared),
    ensures
        ({
            let tau = float_math::quotient(F64Bits(THREE), float_math::root(squared));
            let y = float_math::product(tau, a);
            float_math::size(y) * FULL <= 3 * float_math::unit() * (FULL + 5)
        }),
{
    lemma_constants();
    lemma_factor(squared);
    float_math::lemma_small_multiples();
    reveal(float_math::product);
    let u = float_math::unit();
    let tau = float_math::quotient(F64Bits(THREE), float_math::root(squared));
    let y = float_math::product(tau, a);
    let (t, aa) = (float_math::size(tau), float_math::size(a));
    float_round::law_nearest_exists(t * aa, u);
    float_round::lemma_multiple_ascends(0, THREE as int);
    if float_bits::mag(y) <= THREE {
        if float_bits::mag(y) < THREE {
            float_round::lemma_multiple_ascends(float_bits::mag(y), THREE as int);
        }
        let x = float_math::size(y);
        assert(x * FULL <= 3 * u * (FULL + 5)) by (nonlinear_arith)
            requires
                x <= 3 * u,
                u > 0,
                FULL == 0x10_0000_0000_0000,
        ;
    } else {
        // A ratio that stays past three was past three.
        if float_bits::mag(a) > 0 {
            float_round::lemma_multiple_ascends(0, float_bits::mag(a));
        }
        assert((t * aa) * 1 <= aa * u) by (nonlinear_arith)
            requires
                t <= u,
                aa >= 0,
        ;
        float_round::law_rounding_keeps_order(t * aa, u, aa, 1);
        float_math::lemma_rounded_exact(float_bits::mag(a));
        assert(float_bits::mag(a) > THREE);
        assert(!float_bits::signed(a));
        if !float_bits::finite(squared) {
            assert(0 * aa == 0);
            float_math::lemma_rounded_nothing(u);
        }
        lemma_root_past_nine(squared);
        let square = float_math::product(a, a);
        let p = float_math::size(square);
        float_round::law_nearest_exists(aa * aa, u);
        float_round::lemma_multiple_ascends(THREE as int, float_bits::mag(a));
        float_math::lemma_one();
        assert(u * u <= (aa * aa) * 1) by (nonlinear_arith)
            requires
                aa > 3 * u,
                u > 0,
        ;
        float_round::law_rounding_keeps_order(u, 1, aa * aa, u);
        float_error::law_rounding_takes_little(aa * aa, u);
        if float_bits::mag(square) < float_bits::mag(squared) {
            float_round::lemma_multiple_ascends(float_bits::mag(square), float_bits::mag(squared));
        }
        let r = float_math::size(float_math::root(squared));
        lemma_root_covers(aa, p, float_math::size(squared), r, u);
        float_error::law_rounding_adds_little(t * aa, u);
        lemma_pulled_in(float_math::size(y), t, aa, r, u);
    }
}

/// Whether a tangent was left in place, made level, or pulled in.
spec fn pulled(after: F64Bits, before: F64Bits) -> bool {
    float_math::zero(after) || (float_bits::signed(after) == float_bits::signed(before) && float_math::size(
        after,
    ) * FULL <= float_math::size(before) * (FULL + 3))
}

/// A tangent that the constraint does not scale.
proof fn lemma_kept(t: F64Bits, d: F64Bits)
    requires
        moderate(d),
        !float_math::zero(d),
        plain_ratio(t, d),
        float_order::at_most(forward(float_math::quotient(t, d)), F64Bits(THREE)),
    ensures
        ({
            let kept = if float_bits::less(float_math::quotient(t, d), F64Bits(0)) {
                F64Bits(0)
            } else {
                t
            };
            follows(kept, d, FINE as int) && pulled(kept, t)
        }),
{
    lemma_ratio(t, d);
    lemma_constants();
    float_math::lemma_small_multiples();
    float_round::lemma_multiple_ascends(0, float_bits::mag(d));
    let u = float_math::unit();
    let q = float_math::quotient(t, d);
    let (tt, qq, dd) = (float_math::size(t), float_math::size(q), float_math::size(d));
    if float_bits::mag(t) > 0 {
        float_round::lemma_multiple_ascends(0, float_bits::mag(t));
    }
    assert(0 * FINE <= (3 * FINE + 1) * dd) by (nonlinear_arith)
        requires
            dd > 0,
    ;
    if !float_bits::less(q, F64Bits(0)) {
        if float_bits::mag(q) < THREE {
            float_round::lemma_multiple_ascends(float_bits::mag(q), THREE as int);
        }
        assert(tt * FINE <= (3 * FINE + 1) * dd) by (nonlinear_arith)
            requires
                tt * u * FULL <= qq * dd * (FULL + 1),
                qq <= 3 * u,
                dd > 0,
                u > 0,
                FULL == 0x10_0000_0000_0000,
                FINE == 0x4000_0000_0000,
        {
            assert(qq * dd <= 3 * u * dd);
            assert(qq * dd * (FULL + 1) <= 3 * u * dd * (FULL + 1));
            assert(u * (tt * FULL) <= u * (3 * dd * (FULL + 1)));
            assert(tt * FULL <= 3 * dd * (FULL + 1));
        }
        assert(tt * FULL <= tt * (FULL + 3)) by (nonlinear_arith)
            requires
                tt >= 0,
        ;
    }
}

/// A tangent that the constraint scales.
proof fn lemma_pulled(t: F64Bits, d: F64Bits, squared: F64Bits)
    requires
        moderate(d),
        !float_math::zero(d),
        plain_ratio(t, d),
        float_bits::less(F64Bits(NINE), squared),
        ({
            let a = forward(float_math::quotient(t, d));
            float_order::at_most(float_math::product(a, a), squared)
        }),
    ensures
        ({
            let a = forward(float_math::quotient(t, d));
            let tau = float_math::quotient(F64Bits(THREE), float_math::root(squared));
            let n = float_math::product(float_math::product(tau, a), d);
            follows(n, d, FINE as int) && pulled(n, t)
        }),
{
    lemma_ratio(t, d);
    lemma_constants();
    float_math::lemma_small_multiples();
    float_round::lemma_multiple_ascends(0, float_bits::mag(d));
    let u = float_math::unit();
    let q = float_math::quotient(t, d);
    let a = forward(q);
    let tau = float_math::quotient(F64Bits(THREE), float_math::root(squared));
    let y = float_math::product(tau, a);
    let n = float_math::product(y, d);
    lemma_scaled(a, squared, d);
    if !float_math::zero(a) {
        float_round::lemma_multiple_ascends(0, float_bits::mag(t));
        lemma_shrunk_bound(
            float_math::size(n),
            float_math::size(y),
            float_math::size(q),
            float_math::size(t),
            float_math::size(d),
            u,
        );
    }
}

/// The constraint of a segment makes both tangents follow its secant, and lets
/// neither grow.
proof fn lemma_limited(d: F64Bits, left: F64Bits, right: F64Bits)
    requires
        moderate(d),
        !float_math::zero(d) ==> plain_ratio(left, d) && plain_ratio(right, d),
    ensures
        follows(limited(d, left, right).0, d, FINE as int),
        follows(limited(d, left, right).1, d, FINE as int),
        pulled(limited(d, left, right).0, left),
{
    float_math::lemma_small_multiples();
    if float_math::zero(d) {
        assert(0 * FINE <= (3 * FINE + 1) * 0);
    } else {
        lemma_ratio(left, d);
        lemma_ratio(right, d);
        let a = forward(float_math::quotient(left, d));
        let b = forward(float_math::quotient(right, d));
        let aa = float_math::product(a, a);
        let bb = float_math::product(b, b);
        let squared = float_math::sum(aa, bb);
        lemma_square_is_a_number(a);
        lemma_square_is_a_number(b);
        float_order::law_product_of_unsigned(a, a);
        float_order::law_product_of_unsigned(b, b);
        if float_bits::less(F64Bits(NINE), squared) {
            float_order::law_sums_cover_their_parts(aa, bb);
            float_order::law_sums_cover_their_parts(bb, aa);
            float_order::law_sum_commutes(aa, bb);
            lemma_pulled(left, d, squared);
            lemma_pulled(right, d, squared);
        } else {
            law_kept_slopes_are_within_three(float_math::quotient(left, d), float_math::quotient(right, d));
            lemma_kept(left, d);
            lemma_kept(right, d);
        }
    }
}

proof fn lemma_one_tangent_each(knots: Seq<Knot>, n: nat)
    requires
        n < knots.len(),
    ensures
        constrained(knots, n).len() == knots.len(),
    decreases n,
{
    if n > 0 {
        lemma_one_tangent_each(knots, (n - 1) as nat);
    }
}

/// The constraint of a segment leaves the tangents to its left alone.
proof fn lemma_tangents_settle(knots: Seq<Knot>, k: int, n: nat)
    requires
        0 <= k < n < knots.len(),
    ensures
        constrained(knots, n)[k] == constrained(knots, (k + 1) as nat)[k],
    decreases n,
{
    if n > k + 1 {
        lemma_tangents_settle(knots, k, (n - 1) as nat);
        lemma_one_tangent_each(knots, (n - 1) as nat);
    }
}

/// Tangents follow the data. On every segment both tangents do not point against
/// the secant and are at most three times it, as far as rounding goes; on a level
/// segment both are level.
pub proof fn law_tangents_follow_the_secants(knots: Seq<Knot>, k: int)
    requires
        0 <= k < knots.len() - 1,
        plain_slopes(knots),
    ensures
        follows(tangents_of(knots)[k], secant(knots, k), SHARE as int),
        follows(tangents_of(knots)[k + 1], secant(knots, k), SHARE as int),
        float_math::zero(secant(knots, k)) ==> float_math::zero(tangents_of(knots)[k])
            && float_math::zero(tangents_of(knots)[k + 1]),
{
    let n = (knots.len() - 1) as nat;
    let d = secant(knots, k);
    let before = constrained(knots, k as nat);
    let after = constrained(knots, (k + 1) as nat);
    lemma_one_tangent_each(knots, k as nat);
    lemma_one_tangent_each(knots, (k + 1) as nat);
    lemma_tangents_settle(knots, k, n);
    lemma_limited(d, before[k], before[k + 1]);
    lemma_coarser(after[k], after[k], d);
    if k + 1 < n {
        let next = secant(knots, k + 1);
        lemma_limited(next, after[k + 1], after[k + 2]);
        lemma_tangents_settle(knots, k + 1, n);
        lemma_coarser(tangents_of(knots)[k + 1], after[k + 1], d);
    } else {
        lemma_coarser(after[k + 1], after[k + 1], d);
    }
    lemma_level(tangents_of(knots)[k], d);
    lemma_level(tangents_of(knots)[k + 1], d);
}

/// A tangent that follows a level secant is level.
proof fn lemma_level(t: F64Bits, d: F64Bits)
    requires
        follows(t, d, SHARE as int),
    ensures
        float_math::zero(d) ==> float_math::zero(t),
{
    float_math::lemma_small_multiples();
    if float_math::zero(d) && !float_math::zero(t) {
        float_round::lemma_multiple_ascends(0, float_bits::mag(t));
    }
}

/// A tangent that was pulled in still follows the secant that it followed.
proof fn lemma_coarser(after: F64Bits, before: F64Bits, d: F64Bits)
    requires
        follows(before, d, FINE as int),
        float_bits::finite(after),
        after == before || pulled(after, before),
    ensures
        follows(after, d, SHARE as int),
{
    float_math::lemma_small_multiples();
    let (n, t, dd) = (float_math::size(after), float_math::size(before), float_math::size(d));
    float_error::lemma_least(0);
    if float_bits::mag(d) > 0 {
        float_round::lemma_multiple_ascends(0, float_bits::mag(d));
    }
    if float_bits::mag(before) > 0 {
        float_round::lemma_multiple_ascends(0, float_bits::mag(before));
    }
    if float_math::zero(after) {
        assert(0 * SHARE <= (3 * SHARE + 1) * dd) by (nonlinear_arith)
            requires
                dd >= 0,
        ;
    } else {
        float_round::lemma_multiple_ascends(0, float_bits::mag(after));
        assert(n * FULL <= t * (FULL + 3)) by (nonlinear_arith)
            requires
                n == t || n * FULL <= t * (FULL + 3),
                t >= 0,
        ;
        assert(n * SHARE <= (3 * SHARE + 1) * dd) by (nonlinear_arith)
            requires
                n * FULL <= t * (FULL + 3),
                t * FINE <= (3 * FINE + 1) * dd,
                dd >= 0,
                FULL == 0x10_0000_0000_0000,
                FINE == 0x4000_0000_0000,
                SHARE == 0x100_0000_0000,
        ;
    }
}

/// No segment turns back: wherever the cubic of a segment is looked at, its slope
/// against the secant is less than one part in `2^40` of it. The cubic is taken
/// without the rounding of its evaluation.
pub proof fn law_segments_do_not_turn_back(knots: Seq<Knot>, k: int, p: int, q: int)
    requires
        0 <= k < knots.len() - 1,
        plain_slopes(knots),
        0 <= p <= q,
    ensures
        slope_at(
            p,
            q,
            float_math::size(tangents_of(knots)[k]),
            float_math::size(tangents_of(knots)[k + 1]),
            float_math::size(secant(knots, k)),
        ) * SHARE >= -(q * q * float_math::size(secant(knots, k))),
{
    law_tangents_follow_the_secants(knots, k);
    float_math::lemma_small_multiples();
    let a = float_math::size(tangents_of(knots)[k]);
    let b = float_math::size(tangents_of(knots)[k + 1]);
    let u = float_math::size(secant(knots, k));
    let (ma, mb) = (float_bits::mag(tangents_of(knots)[k]), float_bits::mag(tangents_of(knots)[k + 1]));
    if ma > 0 {
        float_round::lemma_multiple_ascends(0, ma);
    }
    if mb > 0 {
        float_round::lemma_multiple_ascends(0, mb);
    }
    if float_bits::mag(secant(knots, k)) > 0 {
        float_round::lemma_multiple_ascends(0, float_bits::mag(secant(knots, k)));
    }
    // What exceeds three times the secant, set aside.
    let a3 = if a <= 3 * u {
        a
    } else {
        3 * u
    };
    let b3 = if b <= 3 * u {
        b
    } else {
        3 * u
    };
    law_slopes_within_three_never_turn(p, q, a3, b3, u);
    let x = (3 * p - q) * (p - q);
    let y = p * (3 * p - 2 * q);
    let g = q * q;
    assert(3 * x >= -g && 3 * y >= -g && g >= 0) by (nonlinear_arith)
        requires
            0 <= p <= q,
            x == (3 * p - q) * (p - q),
            y == p * (3 * p - 2 * q),
            g == q * q,
    {
        assert(3 * x + g == (3 * p - 2 * q) * (3 * p - 2 * q));
        assert(3 * y + g == (3 * p - q) * (3 * p - q));
    }
    let (ea, eb) = (a - a3, b - b3);
    assert(0 <= ea && ea * SHARE <= u && 0 <= eb && eb * SHARE <= u) by (nonlinear_arith)
        requires
            a * SHARE <= (3 * SHARE + 1) * u,
            b * SHARE <= (3 * SHARE + 1) * u,
            ea == a - a3,
            eb == b - b3,
            a3 == a || a3 == 3 * u,
            b3 == b || b3 == 3 * u,
            a3 <= a,
            b3 <= b,
            u >= 0,
    ;
    let base = slope_at(p, q, a3, b3, u);
    let slope = slope_at(p, q, a, b, u);
    assert(slope == base + ea * x + eb * y) by (nonlinear_arith)
        requires
            base == u * (6 * p * (q - p)) + a3 * x + b3 * y,
            slope == u * (6 * p * (q - p)) + a * x + b * y,
            ea == a - a3,
            eb == b - b3,
    ;
    assert(slope * SHARE >= -(g * u)) by (nonlinear_arith)
        requires
            slope == base + ea * x + eb * y,
            base >= 0,
            3 * x >= -g,
            3 * y >= -g,
            g >= 0,
            0 <= ea,
            ea * SHARE <= u,
            0 <= eb,
            eb * SHARE <= u,
            u >= 0,
            SHARE == 0x100_0000_0000,
    {
        let (sa, sb) = (ea * SHARE, eb * SHARE);
        assert(sa * (3 * x) >= sa * (-g));
        assert(sb * (3 * y) >= sb * (-g));
        assert(sa * g <= u * g);
        assert(sb * g <= u * g);
        assert(3 * (slope * SHARE) == 3 * (base * SHARE) + sa * (3 * x) + sb * (3 * y));
    }
}

/// How far a segment's cubic has risen at `p / q` of the way through it, as a
/// multiple of the secant's rise over the whole segment and times `q * q * q *
/// u`, where its tangents are `a / u` and `b / u` times the secant.
pub open spec fn rise_at(p: int, q: int, a: int, b: int, u: int) -> int {
    u * (p * p * (3 * q - 2 * p)) + a * (p * ((q - p) * (q - p))) - b * (p * p * (q - p))
}

/// A cubic whose tangents are between zero and three times its secant stays
/// between its ends.
pub proof fn law_slopes_within_three_never_overshoot(p: int, q: int, a: int, b: int, u: int)
    requires
        0 <= p <= q,
        0 <= a <= 3 * u,
        0 <= b <= 3 * u,
    ensures
        0 <= rise_at(p, q, a, b, u) <= u * (q * q * q),
{
    let r = q - p;
    let base = p * p * (3 * q - 2 * p);
    let x = p * (r * r);
    let y = p * p * r;
    let whole = q * q * q;
    lemma_rise_parts(p, r);
    assert(base == p * p * (p + 3 * r)) by (nonlinear_arith)
        requires
            base == p * p * (3 * q - 2 * p),
            r == q - p,
    ;
    assert(whole == (p + r) * (p + r) * (p + r));
    let rest = whole - base - 3 * x;
    let low = base - 3 * y;
    assert(x >= 0 && y >= 0 && low >= 0 && rest >= 0);
    assert(u >= 0);
    assert(0 <= a * x <= 3 * u * x) by (nonlinear_arith)
        requires
            0 <= a <= 3 * u,
            x >= 0,
    ;
    assert(0 <= b * y <= 3 * u * y) by (nonlinear_arith)
        requires
            0 <= b <= 3 * u,
            y >= 0,
    ;
    assert(u * low >= 0 && u * rest >= 0) by (nonlinear_arith)
        requires
            u >= 0,
            low >= 0,
            rest >= 0,
    ;
    assert(u * low == u * base - 3 * u * y) by (nonlinear_arith)
        requires
            low == base - 3 * y,
    ;
    assert(u * rest == u * whole - u * base - 3 * u * x) by (nonlinear_arith)
        requires
            rest == whole - base - 3 * x,
    ;
}

/// The parts of a rise, by how far it is to either end.
pub proof fn lemma_rise_parts(p: int, r: int)
    requires
        0 <= p,
        0 <= r,
    ensures
        p * (r * r) >= 0,
        p * p * r >= 0,
        p * p * (p + 3 * r) - 3 * (p * p * r) >= 0,
        (p + r) * (p + r) * (p + r) - p * p * (p + 3 * r) - 3 * (p * (r * r)) >= 0,
{
    let (pp, rr) = (p * p, r * r);
    assert(pp >= 0 && rr >= 0 && p * rr >= 0 && pp * r >= 0 && pp * p >= 0 && rr * r >= 0)
        by (nonlinear_arith)
        requires
            pp == p * p,
            rr == r * r,
            0 <= p,
            0 <= r,
    ;
    assert(pp * (p + 3 * r) == pp * p + 3 * (pp * r)) by (nonlinear_arith);
    assert((p + r) * (p + r) * (p + r) == pp * p + 3 * (pp * r) + 3 * (p * rr) + rr * r)
        by (nonlinear_arith)
        requires
            pp == p * p,
            rr == r * r,
    ;
}

/// No segment overshoots: wherever the cubic of a segment is looked at, it lies
/// between the segment's ends, up to one part in `2^40` of the rise between them.
/// The cubic is taken without the rounding of its evaluation.
pub proof fn law_segments_do_not_overshoot(knots: Seq<Knot>, k: int, p: int, q: int)
    requires
        0 <= k < knots.len() - 1,
        plain_slopes(knots),
        0 <= p <= q,
    ensures
        ({
            let rise = rise_at(
                p,
                q,
                float_math::size(tangents_of(knots)[k]),
                float_math::size(tangents_of(knots)[k + 1]),
                float_math::size(secant(knots, k)),
            );
            let whole = float_math::size(secant(knots, k)) * (q * q * q);
            -whole <= rise * SHARE <= whole * (SHARE + 1)
        }),
{
    law_tangents_follow_the_secants(knots, k);
    float_math::lemma_small_multiples();
    let a = float_math::size(tangents_of(knots)[k]);
    let b = float_math::size(tangents_of(knots)[k + 1]);
    let u = float_math::size(secant(knots, k));
    let (ma, mb) = (float_bits::mag(tangents_of(knots)[k]), float_bits::mag(tangents_of(knots)[k + 1]));
    if ma > 0 {
        float_round::lemma_multiple_ascends(0, ma);
    }
    if mb > 0 {
        float_round::lemma_multiple_ascends(0, mb);
    }
    if float_bits::mag(secant(knots, k)) > 0 {
        float_round::lemma_multiple_ascends(0, float_bits::mag(secant(knots, k)));
    }
    lemma_rise_within(p, q, a, b, u, SHARE as int);
}

/// What exceeds three times a secant by one part in `share` adds no more than that
/// to the rise.
pub proof fn lemma_rise_within(p: int, q: int, a: int, b: int, u: int, share: int)
    requires
        share > 0,
        0 <= p <= q,
        0 <= a,
        0 <= b,
        0 <= u,
        a * share <= (3 * share + 1) * u,
        b * share <= (3 * share + 1) * u,
    ensures
        -(u * (q * q * q)) <= rise_at(p, q, a, b, u) * share <= (u * (q * q * q)) * (share + 1),
{
    let a3 = if a <= 3 * u {
        a
    } else {
        3 * u
    };
    let b3 = if b <= 3 * u {
        b
    } else {
        3 * u
    };
    law_slopes_within_three_never_overshoot(p, q, a3, b3, u);
    assert((a - a3) * share <= u && (b - b3) * share <= u) by (nonlinear_arith)
        requires
            a * share <= (3 * share + 1) * u,
            b * share <= (3 * share + 1) * u,
            a3 == a || a3 == 3 * u,
            b3 == b || b3 == 3 * u,
            u >= 0,
    ;
    lemma_excess(p, q, a, b, a3, b3, u, share);
    let base = rise_at(p, q, a3, b3, u);
    let whole = u * (q * q * q);
    assert(0 <= base * share <= whole * share) by (nonlinear_arith)
        requires
            0 <= base <= whole,
            share > 0,
    ;
    assert(whole * (share + 1) == whole * share + whole) by (nonlinear_arith);
}

/// A cubic whose tangents are between zero and three times its secant rises
/// throughout.
pub proof fn law_slopes_within_three_rise(p1: int, p2: int, q: int, a: int, b: int, u: int)
    requires
        0 <= p1 <= p2 <= q,
        0 <= a <= 3 * u,
        0 <= b <= 3 * u,
    ensures
        rise_at(p1, q, a, b, u) <= rise_at(p2, q, a, b, u),
{
    let (b1, b2) = (p1 * p1 * (3 * q - 2 * p1), p2 * p2 * (3 * q - 2 * p2));
    let (x1, x2) = (p1 * ((q - p1) * (q - p1)), p2 * ((q - p2) * (q - p2)));
    let (y1, y2) = (p1 * p1 * (q - p1), p2 * p2 * (q - p2));
    let (db, dx, dy) = (b2 - b1, x2 - x1, y2 - y1);
    lemma_corners_rise(p1, p2, q);
    assert(a * dx >= if dx < 0 {
        3 * u * dx
    } else {
        0
    }) by (nonlinear_arith)
        requires
            0 <= a <= 3 * u,
    ;
    assert(-(b * dy) >= if dy > 0 {
        -(3 * u * dy)
    } else {
        0
    }) by (nonlinear_arith)
        requires
            0 <= b <= 3 * u,
    ;
    assert(u * db + (if dx < 0 {
        3 * u * dx
    } else {
        0
    }) + (if dy > 0 {
        -(3 * u * dy)
    } else {
        0
    }) >= 0) by (nonlinear_arith)
        requires
            u >= 0,
            db >= 0,
            db + 3 * dx >= 0,
            db - 3 * dy >= 0,
            db + 3 * dx - 3 * dy >= 0,
    {
        assert(u * (db + 3 * dx) >= 0);
        assert(u * (db - 3 * dy) >= 0);
        assert(u * (db + 3 * dx - 3 * dy) >= 0);
        assert(u * db >= 0);
    }
    assert(u * db == u * b2 - u * b1 && a * dx == a * x2 - a * x1 && b * dy == b * y2 - b * y1)
        by (nonlinear_arith)
        requires
            db == b2 - b1,
            dx == x2 - x1,
            dy == y2 - y1,
    ;
}

proof fn lemma_expanded(p: int, q: int)
    ensures
        p * ((q - p) * (q - p)) == p * p * p - 2 * (q * (p * p)) + p * (q * q),
{
    let r = (q - p) * (q - p);
    assert(r == q * q - 2 * (q * p) + p * p) by (nonlinear_arith)
        requires
            r == (q - p) * (q - p),
    ;
    assert(p * r == p * (q * q) - 2 * (p * (q * p)) + p * (p * p)) by (nonlinear_arith)
        requires
            r == q * q - 2 * (q * p) + p * p,
    ;
    assert(p * (q * p) == q * (p * p) && p * (p * p) == p * p * p) by (nonlinear_arith);
}

/// The rise at the four extremes of the tangents ascends.
proof fn lemma_corners_rise(p1: int, p2: int, q: int)
    requires
        0 <= p1 <= p2 <= q,
    ensures
        ({
            let db = p2 * p2 * (3 * q - 2 * p2) - p1 * p1 * (3 * q - 2 * p1);
            let dx = p2 * ((q - p2) * (q - p2)) - p1 * ((q - p1) * (q - p1));
            let dy = p2 * p2 * (q - p2) - p1 * p1 * (q - p1);
            &&& db >= 0
            &&& db + 3 * dx >= 0
            &&& db - 3 * dy >= 0
            &&& db + 3 * dx - 3 * dy >= 0
        }),
{
    let d = p2 - p1;
    let s = p1 + p2;
    let m = p1 * p2;
    let (s1, s2) = (p1 * p1, p2 * p2);
    let (c1, c2) = (p1 * p1 * p1, p2 * p2 * p2);
    let db = p2 * p2 * (3 * q - 2 * p2) - p1 * p1 * (3 * q - 2 * p1);
    let dx = p2 * ((q - p2) * (q - p2)) - p1 * ((q - p1) * (q - p1));
    let dy = p2 * p2 * (q - p2) - p1 * p1 * (q - p1);
    let qq = q * q;
    assert(db == 3 * (q * (s2 - s1)) - 2 * (c2 - c1)) by (nonlinear_arith)
        requires
            db == p2 * p2 * (3 * q - 2 * p2) - p1 * p1 * (3 * q - 2 * p1),
            s1 == p1 * p1,
            s2 == p2 * p2,
            c1 == p1 * p1 * p1,
            c2 == p2 * p2 * p2,
    ;
    lemma_expanded(p1, q);
    lemma_expanded(p2, q);
    assert(q * (s2 - s1) == q * s2 - q * s1 && d * qq == p2 * qq - p1 * qq) by (nonlinear_arith)
        requires
            d == p2 - p1,
    ;
    assert(dx == (c2 - c1) - 2 * (q * (s2 - s1)) + d * qq);
    assert(dy == q * (s2 - s1) - (c2 - c1)) by (nonlinear_arith)
        requires
            dy == p2 * p2 * (q - p2) - p1 * p1 * (q - p1),
            s1 == p1 * p1,
            s2 == p2 * p2,
            c1 == p1 * p1 * p1,
            c2 == p2 * p2 * p2,
    ;
    let sum = s1 + m + s2;
    assert(s2 - s1 == d * s && c2 - c1 == d * sum) by (nonlinear_arith)
        requires
            s1 == p1 * p1,
            s2 == p2 * p2,
            c1 == p1 * p1 * p1,
            c2 == p2 * p2 * p2,
            d == p2 - p1,
            s == p1 + p2,
            m == p1 * p2,
            sum == s1 + m + s2,
    ;
    let qs = q * s;
    assert(q * (s2 - s1) == d * qs) by (nonlinear_arith)
        requires
            s2 - s1 == d * s,
            qs == q * s,
    ;
    assert(3 * qs - 2 * sum >= 0 && sum >= 0 && 3 * qq - 3 * qs + sum >= 0 && 3 * qq - 6 * qs + 4 * sum >= 0)
        by (nonlinear_arith)
        requires
            0 <= p1 <= p2 <= q,
            s == p1 + p2,
            m == p1 * p2,
            s1 == p1 * p1,
            s2 == p2 * p2,
            sum == s1 + m + s2,
            qs == q * s,
            qq == q * q,
    {
        assert(qs >= p2 * s);
        assert(p2 * s == m + s2);
        assert(s1 <= m);
        assert(m <= s2);
        assert(s1 >= 0);
        assert((q - p1) * (q - p1) + (q - p1) * (q - p2) + (q - p2) * (q - p2) == 3 * qq - 3 * qs + sum);
        assert((q - p1) * (q - p2) >= 0);
        assert(3 * ((q - s) * (q - s)) + (p1 - p2) * (p1 - p2) == 3 * qq - 6 * qs + 4 * sum);
        assert((q - s) * (q - s) >= 0);
        assert((p1 - p2) * (p1 - p2) >= 0);
    }
    assert(db >= 0 && db + 3 * dx >= 0 && db - 3 * dy >= 0 && db + 3 * dx - 3 * dy >= 0) by (nonlinear_arith)
        requires
            db == 3 * (d * qs) - 2 * (d * sum),
            dx == d * sum - 2 * (d * qs) + d * qq,
            dy == d * qs - d * sum,
            d >= 0,
            3 * qs - 2 * sum >= 0,
            sum >= 0,
            3 * qq - 3 * qs + sum >= 0,
            3 * qq - 6 * qs + 4 * sum >= 0,
    {
        assert(db == d * (3 * qs - 2 * sum));
        assert(db + 3 * dx == d * (3 * qq - 3 * qs + sum));
        assert(db - 3 * dy == d * sum);
        assert(db + 3 * dx - 3 * dy == d * (3 * qq - 6 * qs + 4 * sum));
    }
}

/// What exceeds three times a secant by one part in `share` lets the rise fall
/// back by no more than twice that.
pub proof fn lemma_rise_ascends(p1: int, p2: int, q: int, a: int, b: int, u: int, share: int)
    requires
        share > 0,
        0 <= p1 <= p2 <= q,
        0 <= a,
        0 <= b,
        0 <= u,
        a * share <= (3 * share + 1) * u,
        b * share <= (3 * share + 1) * u,
    ensures
        rise_at(p1, q, a, b, u) * share <= rise_at(p2, q, a, b, u) * share + 2 * (u * (q * q * q)),
{
    let a3 = if a <= 3 * u {
        a
    } else {
        3 * u
    };
    let b3 = if b <= 3 * u {
        b
    } else {
        3 * u
    };
    law_slopes_within_three_rise(p1, p2, q, a3, b3, u);
    let (ea, eb) = (a - a3, b - b3);
    assert(0 <= ea && ea * share <= u && 0 <= eb && eb * share <= u) by (nonlinear_arith)
        requires
            a * share <= (3 * share + 1) * u,
            b * share <= (3 * share + 1) * u,
            ea == a - a3,
            eb == b - b3,
            a3 == a || a3 == 3 * u,
            b3 == b || b3 == 3 * u,
            a3 <= a,
            b3 <= b,
            u >= 0,
    ;
    lemma_excess(p1, q, a, b, a3, b3, u, share);
    lemma_excess(p2, q, a, b, a3, b3, u, share);
    let (r1, r2) = (rise_at(p1, q, a3, b3, u), rise_at(p2, q, a3, b3, u));
    assert(r1 * share <= r2 * share) by (nonlinear_arith)
        requires
            r1 <= r2,
            share > 0,
    ;
}

/// What a small excess of the tangents does to the rise.
proof fn lemma_excess(p: int, q: int, a: int, b: int, a3: int, b3: int, u: int, share: int)
    requires
        share > 0,
        0 <= p <= q,
        0 <= u,
        a3 <= a,
        b3 <= b,
        (a - a3) * share <= u,
        (b - b3) * share <= u,
    ensures
        ({
            let whole = u * (q * q * q);
            let (rise, base) = (rise_at(p, q, a, b, u), rise_at(p, q, a3, b3, u));
            -whole <= rise * share - base * share <= whole
        }),
{
    let r = q - p;
    let x = p * (r * r);
    let y = p * p * r;
    let g = q * q * q;
    lemma_rise_parts(p, r);
    assert(g == (p + r) * (p + r) * (p + r));
    assert(x <= g && y <= g) by (nonlinear_arith)
        requires
            0 <= p,
            0 <= r,
            x == p * (r * r),
            y == p * p * r,
            g == (p + r) * (p + r) * (p + r),
    {
        let (pp, rr) = (p * p, r * r);
        assert(pp * p >= 0 && rr * r >= 0 && p * rr >= 0 && pp * r >= 0);
        assert(g == pp * p + 3 * (pp * r) + 3 * (p * rr) + rr * r);
    }
    let (ea, eb) = (a - a3, b - b3);
    let base = rise_at(p, q, a3, b3, u);
    let rise = rise_at(p, q, a, b, u);
    assert(rise == base + ea * x - eb * y) by (nonlinear_arith)
        requires
            base == u * (p * p * (3 * q - 2 * p)) + a3 * x - b3 * y,
            rise == u * (p * p * (3 * q - 2 * p)) + a * x - b * y,
            ea == a - a3,
            eb == b - b3,
    ;
    let whole = u * g;
    let (sa, sb) = (ea * share, eb * share);
    assert(sa >= 0 && sb >= 0) by (nonlinear_arith)
        requires
            sa == ea * share,
            sb == eb * share,
            ea >= 0,
            eb >= 0,
            share > 0,
    ;
    assert(0 <= sa * x <= whole && 0 <= sb * y <= whole) by (nonlinear_arith)
        requires
            0 <= sa <= u,
            0 <= sb <= u,
            0 <= x <= g,
            0 <= y <= g,
            whole == u * g,
    ;
    assert(rise * share == base * share + sa * x - sb * y) by (nonlinear_arith)
        requires
            rise == base + ea * x - eb * y,
            sa == ea * share,
            sb == eb * share,
    ;
}

} // verus!
