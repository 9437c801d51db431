//! Arithmetic on floats keeps order: rounding moves no result past another.

use vstd::arithmetic::power2::{lemma_pow2_adds, lemma_pow2_pos, pow2};
use vstd::prelude::*;

use crate::float_bits;
use crate::float_bits::{F64Bits, ONE, TWO};
use crate::float_math;
use crate::float_round;
use crate::float_round::INFINITE;

verus! {

/// Where the float nearest to `t / d` stands among the numbers.
pub open spec fn rank_of(t: int, d: int) -> int {
    if t < 0 {
        -float_round::rounded(-t, d)
    } else {
        float_round::rounded(t, d)
    }
}

/// `a <= b`, of two numbers.
pub open spec fn at_most(a: F64Bits, b: F64Bits) -> bool {
    !float_bits::nan(a) && !float_bits::nan(b) && float_bits::number_rank(a) <= float_bits::number_rank(b)
}

/// A finite float above zero.
pub open spec fn positive(f: F64Bits) -> bool {
    float_bits::finite(f) && !float_bits::signed(f) && !float_math::zero(f)
}

pub proof fn lemma_rank_order(t1: int, d1: int, t2: int, d2: int)
    requires
        d1 > 0,
        d2 > 0,
        t1 * d2 <= t2 * d1,
    ensures
        rank_of(t1, d1) <= rank_of(t2, d2),
{
    if t1 >= 0 {
        assert(t2 >= 0) by (nonlinear_arith)
            requires
                t1 >= 0,
                d1 > 0,
                d2 > 0,
                t1 * d2 <= t2 * d1,
        ;
        float_round::law_rounding_keeps_order(t1, d1, t2, d2);
    } else if t2 < 0 {
        assert((-t2) * d1 <= (-t1) * d2) by (nonlinear_arith)
            requires
                t1 * d2 <= t2 * d1,
        ;
        float_round::law_rounding_keeps_order(-t2, d2, -t1, d1);
    } else {
        float_round::law_nearest_exists(-t1, d1);
        float_round::law_nearest_exists(t2, d2);
    }
}

/// Rank and value order finite floats alike.
pub proof fn lemma_value_order(a: F64Bits, b: F64Bits)
    requires
        float_bits::finite(a),
        float_bits::finite(b),
        float_bits::number_rank(a) <= float_bits::number_rank(b),
    ensures
        float_math::value(a) <= float_math::value(b),
{
    float_math::lemma_small_multiples();
    let m = float_bits::mag(a);
    let n = float_bits::mag(b);
    if m > 0 {
        float_round::lemma_multiple_ascends(0, m);
    }
    if n > 0 {
        float_round::lemma_multiple_ascends(0, n);
    }
    if m < n {
        float_round::lemma_multiple_ascends(m, n);
    }
    if n < m {
        float_round::lemma_multiple_ascends(n, m);
    }
}

/// A larger number stands for more.
pub proof fn lemma_value_steps(a: F64Bits, b: F64Bits)
    requires
        float_bits::finite(a),
        float_bits::finite(b),
        float_bits::less(a, b),
    ensures
        float_math::value(a) < float_math::value(b),
{
    float_math::lemma_small_multiples();
    let (m, n) = (float_bits::mag(a), float_bits::mag(b));
    if m > 0 {
        float_round::lemma_multiple_ascends(0, m);
    }
    if n > 0 {
        float_round::lemma_multiple_ascends(0, n);
    }
    if m < n {
        float_round::lemma_multiple_ascends(m, n);
    } else if n < m {
        float_round::lemma_multiple_ascends(n, m);
    }
}

proof fn lemma_positive_size(k: F64Bits)
    requires
        positive(k),
    ensures
        float_math::size(k) > 0,
        float_math::unit() > 0,
{
    float_math::lemma_small_multiples();
    float_round::lemma_multiple_ascends(0, float_bits::mag(k));
    lemma_pow2_pos(1074);
}

proof fn lemma_ranks_of_signs(negative: bool, m: int)
    requires
        0 <= m <= INFINITE,
    ensures
        !float_bits::nan(float_math::with_sign(negative, m)),
        float_bits::number_rank(float_math::with_sign(negative, m)) == if negative {
            -m
        } else {
            m
        },
{
}

proof fn lemma_product_rank(a: F64Bits, k: F64Bits)
    requires
        positive(k),
        !float_bits::nan(a),
    ensures
        !float_bits::nan(float_math::product(a, k)),
        float_bits::finite(a) ==> float_bits::number_rank(float_math::product(a, k)) == rank_of(
            float_math::value(a) * float_math::size(k),
            float_math::unit(),
        ),
        !float_bits::finite(a) ==> float_bits::number_rank(float_math::product(a, k))
            == float_bits::number_rank(a),
        -INFINITE <= float_bits::number_rank(float_math::product(a, k)) <= INFINITE,
{
    reveal(float_math::product);
    let n = float_math::size(a) * float_math::size(k);
    lemma_positive_size(k);
    float_round::law_nearest_exists(n, float_math::unit());
    lemma_ranks_of_signs(float_bits::signed(a), float_round::rounded(n, float_math::unit()));
    if float_bits::finite(a) && float_bits::signed(a) {
        assert(float_math::value(a) * float_math::size(k) == -n) by (nonlinear_arith)
            requires
                n == float_math::size(a) * float_math::size(k),
                float_math::value(a) == -float_math::size(a),
        ;
        float_math::lemma_rounded_nothing(float_math::unit());
        lemma_value_order(F64Bits(0), float_bits::unsigned(a));
        float_math::lemma_small_multiples();
        assert(n >= 0) by (nonlinear_arith)
            requires
                n == float_math::size(a) * float_math::size(k),
                float_math::size(a) >= 0,
                float_math::size(k) > 0,
        ;
    } else if float_bits::finite(a) {
        lemma_value_order(F64Bits(0), a);
        float_math::lemma_small_multiples();
        assert(n >= 0) by (nonlinear_arith)
            requires
                n == float_math::size(a) * float_math::size(k),
                float_math::size(a) >= 0,
                float_math::size(k) > 0,
        ;
    }
}

/// Multiplying by a positive factor keeps order.
pub proof fn law_product_keeps_order(a: F64Bits, b: F64Bits, k: F64Bits)
    requires
        at_most(a, b),
        positive(k),
    ensures
        at_most(float_math::product(a, k), float_math::product(b, k)),
{
    lemma_product_rank(a, k);
    lemma_product_rank(b, k);
    if float_bits::finite(a) && float_bits::finite(b) {
        lemma_value_order(a, b);
        lemma_positive_size(k);
        let x = float_math::value(a) * float_math::size(k);
        let y = float_math::value(b) * float_math::size(k);
        let u = float_math::unit();
        assert(x * u <= y * u) by (nonlinear_arith)
            requires
                float_math::value(a) <= float_math::value(b),
                float_math::size(k) > 0,
                x == float_math::value(a) * float_math::size(k),
                y == float_math::value(b) * float_math::size(k),
                u > 0,
        {
            assert(x <= y);
        }
        lemma_rank_order(x, u, y, u);
    }
}

proof fn lemma_quotient_rank(a: F64Bits, k: F64Bits)
    requires
        positive(k),
        !float_bits::nan(a),
    ensures
        !float_bits::nan(float_math::quotient(a, k)),
        float_bits::finite(a) ==> float_bits::number_rank(float_math::quotient(a, k)) == rank_of(
            float_math::value(a) * float_math::unit(),
            float_math::size(k),
        ),
        !float_bits::finite(a) ==> float_bits::number_rank(float_math::quotient(a, k))
            == float_bits::number_rank(a),
        -INFINITE <= float_bits::number_rank(float_math::quotient(a, k)) <= INFINITE,
{
    reveal(float_math::quotient);
    let n = float_math::size(a) * float_math::unit();
    lemma_positive_size(k);
    float_round::law_nearest_exists(n, float_math::size(k));
    lemma_ranks_of_signs(float_bits::signed(a), float_round::rounded(n, float_math::size(k)));
    if float_bits::finite(a) {
        lemma_value_order(F64Bits(0), float_bits::unsigned(a));
        float_math::lemma_small_multiples();
        assert(n >= 0) by (nonlinear_arith)
            requires
                n == float_math::size(a) * float_math::unit(),
                float_math::size(a) >= 0,
                float_math::unit() > 0,
        ;
        if float_bits::signed(a) {
            assert(float_math::value(a) * float_math::unit() == -n) by (nonlinear_arith)
                requires
                    n == float_math::size(a) * float_math::unit(),
                    float_math::value(a) == -float_math::size(a),
            ;
            float_math::lemma_rounded_nothing(float_math::size(k));
        }
    }
}

/// Dividing by a positive divisor keeps order.
pub proof fn law_quotient_keeps_order(a: F64Bits, b: F64Bits, k: F64Bits)
    requires
        at_most(a, b),
        positive(k),
    ensures
        at_most(float_math::quotient(a, k), float_math::quotient(b, k)),
{
    lemma_quotient_rank(a, k);
    lemma_quotient_rank(b, k);
    if float_bits::finite(a) && float_bits::finite(b) {
        lemma_value_order(a, b);
        lemma_positive_size(k);
        let u = float_math::unit();
        let d = float_math::size(k);
        let x = float_math::value(a) * u;
        let y = float_math::value(b) * u;
        assert(x * d <= y * d) by (nonlinear_arith)
            requires
                float_math::value(a) <= float_math::value(b),
                d > 0,
                x == float_math::value(a) * u,
                y == float_math::value(b) * u,
                u > 0,
        {
            assert(x <= y);
        }
        lemma_rank_order(x, d, y, d);
    }
}

/// A float over one that is positive and not larger is at least one.
pub proof fn law_quotient_of_the_larger(a: F64Bits, b: F64Bits)
    requires
        at_most(b, a),
        positive(b),
    ensures
        at_most(F64Bits(ONE), float_math::quotient(a, b)),
{
    lemma_quotient_rank(a, b);
    if float_bits::finite(a) {
        lemma_value_order(b, a);
        lemma_positive_size(b);
        float_math::lemma_one();
        let u = float_math::unit();
        let d = float_math::size(b);
        let y = float_math::value(a) * u;
        assert(u * d <= y * 1) by (nonlinear_arith)
            requires
                d <= float_math::value(a),
                y == float_math::value(a) * u,
                u > 0,
        ;
        lemma_rank_order(u, 1, y, d);
    }
}

/// A positive number over a larger one is less than one.
pub proof fn law_quotient_of_the_smaller(a: F64Bits, b: F64Bits)
    requires
        positive(a),
        positive(b),
        float_bits::less(a, b),
    ensures
        float_bits::less(float_math::quotient(a, b), F64Bits(ONE)),
        !float_bits::signed(float_math::quotient(a, b)),
{
    reveal(float_math::quotient);
    lemma_positive_size(a);
    lemma_positive_size(b);
    float_round::lemma_powers();
    let u = float_math::unit();
    let (x, d) = (float_math::size(a), float_math::size(b));
    let m = float_bits::mag(b);
    float_round::lemma_parts(m - 1);
    let t = float_round::doublings(m - 1);
    let s = m - 1 - t * 0x10_0000_0000_0000;
    float_round::lemma_multiple(t, s + 1);
    if float_bits::mag(a) < m - 1 {
        float_round::lemma_multiple_ascends(float_bits::mag(a), m - 1);
    }
    let p = pow2(t) as int;
    lemma_pow2_pos(t);
    assert(x * 0x20_0000_0000_0000 <= 0x1f_ffff_ffff_ffff * d) by (nonlinear_arith)
        requires
            x <= s * p,
            d == (s + 1) * p,
            0 <= s < 0x20_0000_0000_0000,
            p > 0,
    ;
    let below = ONE - 1;
    float_round::lemma_multiple(1021, 0x1f_ffff_ffff_ffff);
    lemma_pow2_adds(53, 1021);
    let w = pow2(1021) as int;
    lemma_pow2_pos(1021);
    let y = float_round::multiple(below);
    assert((x * u) * 1 <= y * d) by (nonlinear_arith)
        requires
            x * 0x20_0000_0000_0000 <= 0x1f_ffff_ffff_ffff * d,
            u == 0x20_0000_0000_0000 * w,
            y == 0x1f_ffff_ffff_ffff * w,
            w > 0,
    {
        assert((x * 0x20_0000_0000_0000) * w <= (0x1f_ffff_ffff_ffff * d) * w);
    }
    float_round::law_rounding_keeps_order(x * u, d, y, 1);
    float_math::lemma_rounded_exact(below);
    float_round::law_nearest_exists(x * u, d);
}

pub proof fn lemma_sum_rank(a: F64Bits, c: F64Bits)
    requires
        float_bits::finite(c),
        !float_bits::nan(a),
    ensures
        !float_bits::nan(float_math::sum(a, c)),
        float_bits::finite(a) ==> float_bits::number_rank(float_math::sum(a, c)) == rank_of(
            float_math::value(a) + float_math::value(c),
            1,
        ),
        !float_bits::finite(a) ==> float_math::sum(a, c) == a,
        -INFINITE <= float_bits::number_rank(float_math::sum(a, c)) <= INFINITE,
{
    reveal(float_math::sum);
    let total = float_math::value(a) + float_math::value(c);
    let m = if total < 0 {
        -total
    } else {
        total
    };
    float_round::law_nearest_exists(m, 1);
    lemma_ranks_of_signs(total < 0, float_round::rounded(m, 1));
    lemma_ranks_of_signs(float_bits::signed(a) && float_bits::signed(c), 0);
    float_math::lemma_rounded_nothing(1);
}

/// Adding one float to two keeps their order.
pub proof fn law_sum_keeps_order(a: F64Bits, b: F64Bits, c: F64Bits)
    requires
        at_most(a, b),
        float_bits::finite(c),
    ensures
        at_most(float_math::sum(a, c), float_math::sum(b, c)),
{
    lemma_sum_rank(a, c);
    lemma_sum_rank(b, c);
    if float_bits::finite(a) && float_bits::finite(b) {
        lemma_value_order(a, b);
        let x = float_math::value(a) + float_math::value(c);
        let y = float_math::value(b) + float_math::value(c);
        assert(x * 1 <= y * 1);
        lemma_rank_order(x, 1, y, 1);
    }
}

/// The order of the operands of a sum does not matter.
pub proof fn law_sum_commutes(a: F64Bits, b: F64Bits)
    ensures
        float_math::sum(a, b) == float_math::sum(b, a),
{
    reveal(float_math::sum);
}

/// Whole numbers keep their order as floats.
pub proof fn law_of_integer_keeps_order(v: int, w: int)
    requires
        -0x1_0000_0000_0000_0000_0000_0000_0000_0000 <= v <= w <= 0x1_0000_0000_0000_0000_0000_0000_0000_0000,
    ensures
        at_most(float_math::of_integer(v), float_math::of_integer(w)),
{
    float_math::lemma_of_integer(v);
    float_math::lemma_of_integer(w);
    lemma_integer_rank(v);
    lemma_integer_rank(w);
    lemma_pow2_pos(1074);
    let u = float_math::unit();
    let x = v * u;
    let y = w * u;
    assert(x * 1 <= y * 1) by (nonlinear_arith)
        requires
            x == v * u,
            y == w * u,
            v <= w,
            u > 0,
    ;
    lemma_rank_order(x, 1, y, 1);
}

proof fn lemma_integer_rank(v: int)
    requires
        -0x1_0000_0000_0000_0000_0000_0000_0000_0000 <= v <= 0x1_0000_0000_0000_0000_0000_0000_0000_0000,
    ensures
        float_bits::number_rank(float_math::of_integer(v)) == rank_of(v * float_math::unit(), 1),
{
    reveal(float_math::of_integer);
    let u = float_math::unit();
    lemma_pow2_pos(1074);
    let n = if v < 0 {
        -v * u
    } else {
        v * u
    };
    float_round::law_nearest_exists(n, 1);
    lemma_ranks_of_signs(v < 0, float_round::rounded(n, 1));
    assert((v < 0 ==> v * u < 0 && -v * u == -(v * u)) && (v >= 0 ==> v * u >= 0)) by (nonlinear_arith)
        requires
            u > 0,
    ;
}

/// A quotient of floats between `1` and `2^128` is finite and above zero.
pub proof fn law_moderate_quotient_is_positive(a: F64Bits, k: F64Bits)
    requires
        at_most(F64Bits(ONE), a),
        at_most(a, F64Bits(float_math::TWO_TO_128)),
        at_most(F64Bits(ONE), k),
        at_most(k, F64Bits(float_math::TWO_TO_128)),
    ensures
        positive(float_math::quotient(a, k)),
        at_most(float_math::quotient(a, k), F64Bits(float_math::TWO_TO_128)),
{
    reveal(float_math::quotient);
    let u = float_math::unit();
    let n = float_math::size(a) * u;
    let d = float_math::size(k);
    let top = float_math::size(F64Bits(float_math::TWO_TO_128));
    float_math::lemma_one();
    float_math::lemma_two_to_128();
    lemma_value_order(F64Bits(ONE), a);
    lemma_value_order(a, F64Bits(float_math::TWO_TO_128));
    lemma_value_order(F64Bits(ONE), k);
    lemma_value_order(k, F64Bits(float_math::TWO_TO_128));
    float_round::law_nearest_exists(n, d);
    // Not above 2^128.
    float_math::lemma_rounded_exact(float_math::TWO_TO_128 as int);
    assert(n * 1 <= top * d) by (nonlinear_arith)
        requires
            n == float_math::size(a) * u,
            float_math::size(a) <= top,
            0 < u <= d,
            top > 0,
    ;
    float_round::law_rounding_keeps_order(n, d, top, 1);
    // Not below the least positive float.
    float_math::lemma_small_multiples();
    float_math::lemma_rounded_exact(1);
    assert(1 * d <= n * 1) by (nonlinear_arith)
        requires
            n == float_math::size(a) * u,
            float_math::size(a) >= u,
            d <= top,
            top <= u * u,
            u > 0,
    ;
    float_round::law_rounding_keeps_order(1, 1, n, d);
    lemma_ranks_of_signs(false, float_round::rounded(n, d));
}

/// Positive whole numbers are between `1` and `2^128` as floats.
pub proof fn lemma_integer_is_moderate(v: int)
    requires
        1 <= v <= 0x1_0000_0000_0000_0000_0000_0000_0000_0000,
    ensures
        at_most(F64Bits(ONE), float_math::of_integer(v)),
        at_most(float_math::of_integer(v), F64Bits(float_math::TWO_TO_128)),
{
    reveal(float_math::of_integer);
    law_of_integer_keeps_order(1, v);
    law_of_integer_keeps_order(v, 0x1_0000_0000_0000_0000_0000_0000_0000_0000int);
    float_math::lemma_one();
    float_math::lemma_two_to_128();
    assert(1 * float_math::unit() == float_math::unit());
}

/// A finite float that is not below zero.
pub open spec fn not_negative(f: F64Bits) -> bool {
    float_bits::finite(f) && !float_bits::less(f, F64Bits(0))
}

/// Multiplying finite floats by a factor that is not negative keeps order.
pub proof fn law_product_keeps_weak_order(a: F64Bits, b: F64Bits, k: F64Bits)
    requires
        at_most(a, b),
        float_bits::finite(a),
        float_bits::finite(b),
        not_negative(k),
    ensures
        at_most(float_math::product(a, k), float_math::product(b, k)),
{
    if float_math::zero(k) {
        lemma_product_with_zero(a, k);
        lemma_product_with_zero(b, k);
    } else {
        law_product_keeps_order(a, b, k);
    }
}

/// A finite float times zero is zero.
pub proof fn lemma_product_with_zero(a: F64Bits, k: F64Bits)
    requires
        float_bits::finite(a),
        float_math::zero(k),
    ensures
        float_math::zero(float_math::product(a, k)),
{
    reveal(float_math::product);
    float_math::lemma_small_multiples();
    lemma_pow2_pos(1074);
    float_math::lemma_rounded_nothing(float_math::unit());
    assert(float_math::size(a) * 0 == 0);
}

/// The other sign reverses order.
pub proof fn law_negation_reverses_order(a: F64Bits, b: F64Bits)
    requires
        at_most(a, b),
    ensures
        at_most(float_math::negated(b), float_math::negated(a)),
{
}

/// A product of floats that are not negative is not negative, unless it is not a
/// number.
pub proof fn law_product_of_unsigned(a: F64Bits, b: F64Bits)
    requires
        !float_bits::less(a, F64Bits(0)),
        !float_bits::less(b, F64Bits(0)),
    ensures
        !float_bits::less(float_math::product(a, b), F64Bits(0)),
{
    reveal(float_math::product);
    float_round::law_nearest_exists(float_math::size(a) * float_math::size(b), float_math::unit());
    if float_bits::finite(a) && float_bits::finite(b) {
        if float_math::zero(a) || float_math::zero(b) {
            float_math::lemma_small_multiples();
            lemma_pow2_pos(1074);
            float_math::lemma_rounded_nothing(float_math::unit());
            assert(float_math::size(a) * 0 == 0);
            assert(0 * float_math::size(b) == 0);
        }
    }
}

/// A quotient of a float that is not negative by one above zero is not
/// negative, unless it is not a number.
pub proof fn law_quotient_of_unsigned(a: F64Bits, b: F64Bits)
    requires
        !float_bits::less(a, F64Bits(0)),
        float_bits::less(F64Bits(0), b),
    ensures
        !float_bits::less(float_math::quotient(a, b), F64Bits(0)),
{
    reveal(float_math::quotient);
    if float_bits::finite(a) && float_bits::finite(b) {
        float_math::lemma_quotient_sign(a, b);
    }
}

/// A sum of floats that are not negative is not negative, unless it is not a
/// number.
pub proof fn law_sum_of_unsigned(a: F64Bits, b: F64Bits)
    requires
        !float_bits::less(a, F64Bits(0)),
        !float_bits::less(b, F64Bits(0)),
    ensures
        !float_bits::less(float_math::sum(a, b), F64Bits(0)),
{
    reveal(float_math::sum);
    if float_bits::finite(a) && float_bits::finite(b) {
        lemma_value_order(F64Bits(0), a);
        lemma_value_order(F64Bits(0), b);
        float_math::lemma_small_multiples();
        let total = float_math::value(a) + float_math::value(b);
        float_round::law_nearest_exists(total, 1);
        lemma_ranks_of_signs(false, float_round::rounded(total, 1));
    }
}

/// Adding zero changes nothing that a comparison could see.
pub proof fn law_sum_with_zero(a: F64Bits, z: F64Bits)
    requires
        !float_bits::nan(a),
        float_math::zero(z),
    ensures
        float_bits::equal(float_math::sum(a, z), a),
{
    reveal(float_math::sum);
    float_math::lemma_small_multiples();
    if float_bits::finite(a) {
        float_math::lemma_rounded_exact(float_bits::mag(a));
        if !float_math::zero(a) {
            float_round::lemma_multiple_ascends(0, float_bits::mag(a));
        }
        lemma_ranks_of_signs(float_bits::signed(a), float_bits::mag(a));
    }
}

/// A sum of what is not negative is at least each part.
pub proof fn law_sums_cover_their_parts(a: F64Bits, b: F64Bits)
    requires
        at_most(F64Bits(0), a),
        at_most(F64Bits(0), b),
    ensures
        at_most(a, float_math::sum(a, b)),
{
    if float_bits::finite(a) {
        law_sum_keeps_order(F64Bits(0), b, a);
        law_sum_commutes(a, b);
        law_sum_commutes(a, F64Bits(0));
        law_sum_with_zero(a, F64Bits(0));
    } else {
        reveal(float_math::sum);
    }
}

/// Where the nearest whole number of a magnitude lies.
proof fn lemma_nearest_whole(f: F64Bits, n: int)
    requires
        n == float_math::whole(f) + if 2 * float_math::fraction(f) >= float_math::unit() {
            1int
        } else {
            0
        },
    ensures
        2 * float_math::unit() * n <= 2 * float_math::size(f) + float_math::unit(),
        2 * float_math::size(f) + float_math::unit() < 2 * float_math::unit() * (n + 1),
        n >= 0,
{
    let u = float_math::unit();
    let q = float_math::whole(f);
    let r = float_math::fraction(f);
    let s = float_math::size(f);
    float_math::lemma_whole_parts(f);
    lemma_pow2_pos(1074);
    vstd::arithmetic::div_mod::lemma_fundamental_div_mod(s, u);
    assert(2 * u * n <= 2 * s + u && 2 * s + u < 2 * u * (n + 1)) by (nonlinear_arith)
        requires
            s == u * q + r,
            0 <= r < u,
            n == q + (if 2 * r >= u {
                1int
            } else {
                0
            }),
    ;
}

proof fn lemma_nearest_whole_order(a: F64Bits, b: F64Bits, m: int, n: int)
    requires
        float_math::size(a) <= float_math::size(b),
        m == float_math::whole(a) + if 2 * float_math::fraction(a) >= float_math::unit() {
            1int
        } else {
            0
        },
        n == float_math::whole(b) + if 2 * float_math::fraction(b) >= float_math::unit() {
            1int
        } else {
            0
        },
    ensures
        0 <= m <= n,
{
    lemma_nearest_whole(a, m);
    lemma_nearest_whole(b, n);
    lemma_pow2_pos(1074);
    let u = float_math::unit();
    assert(m <= n) by (nonlinear_arith)
        requires
            2 * u * m < 2 * u * (n + 1),
            u > 0,
    ;
}

/// Rounding to whole numbers keeps order.
pub proof fn law_nearest_integer_keeps_order(a: F64Bits, b: F64Bits)
    requires
        at_most(a, b),
        float_bits::finite(a),
        float_bits::finite(b),
    ensures
        float_math::nearest_integer(a) <= float_math::nearest_integer(b),
{
    let m = float_math::whole(a) + if 2 * float_math::fraction(a) >= float_math::unit() {
        1int
    } else {
        0
    };
    let n = float_math::whole(b) + if 2 * float_math::fraction(b) >= float_math::unit() {
        1int
    } else {
        0
    };
    lemma_nearest_whole(a, m);
    lemma_nearest_whole(b, n);
    lemma_value_order(a, b);
    if float_bits::signed(a) && float_bits::signed(b) {
        lemma_nearest_whole_order(b, a, n, m);
    } else if !float_bits::signed(a) {
        if float_bits::signed(b) {
            lemma_value_order(F64Bits(0), a);
            lemma_value_order(b, F64Bits(0));
            float_math::lemma_whole_parts(a);
            float_math::lemma_whole_parts(b);
            lemma_pow2_pos(1074);
        } else {
            lemma_nearest_whole_order(a, b, m, n);
        }
    }
}

/// Rounding down and up to whole numbers keeps the order of floats that are not
/// negative.
pub proof fn law_whole_numbers_keep_order(a: F64Bits, b: F64Bits)
    requires
        float_bits::finite(a),
        float_bits::finite(b),
        !float_bits::less(a, F64Bits(0)),
        at_most(a, b),
    ensures
        float_math::floor_integer(a) <= float_math::floor_integer(b),
        float_math::ceil_integer(a) <= float_math::ceil_integer(b),
{
    lemma_value_order(F64Bits(0), a);
    lemma_value_order(a, b);
    float_math::lemma_small_multiples();
    float_math::lemma_whole_parts(a);
    float_math::lemma_whole_parts(b);
    lemma_pow2_pos(1074);
    let u = float_math::unit();
    let (x, y) = (float_math::size(a), float_math::size(b));
    vstd::arithmetic::div_mod::lemma_fundamental_div_mod(x, u);
    vstd::arithmetic::div_mod::lemma_fundamental_div_mod(y, u);
    let (p, q) = (x / u, y / u);
    let (r, s) = (x % u, y % u);
    assert(p <= q && (p == q ==> r <= s)) by (nonlinear_arith)
        requires
            x == u * p + r,
            y == u * q + s,
            0 <= r < u,
            0 <= s < u,
            x <= y,
    ;
}

/// What a magnitude of at most `2^i` stands for.
pub proof fn lemma_size_under(f: F64Bits, i: nat)
    requires
        i <= 1023,
        float_bits::mag(f) <= (1023 + i) * 0x10_0000_0000_0000,
    ensures
        float_math::size(f) <= pow2((1074 + i) as nat),
{
    let m = ((1023 + i) * 0x10_0000_0000_0000) as int;
    float_round::lemma_powers();
    float_round::lemma_multiple((1022 + i) as nat, 0x10_0000_0000_0000);
    lemma_pow2_adds(52, (1022 + i) as nat);
    if float_bits::mag(f) < m {
        float_round::lemma_multiple_ascends(float_bits::mag(f), m);
    }
}

/// A product of magnitudes of at most `2^i` and `2^j` is at most `2^(i + j)`.
pub proof fn lemma_product_under(a: F64Bits, b: F64Bits, i: nat, j: nat)
    requires
        float_bits::finite(a),
        float_bits::finite(b),
        float_math::size(a) <= pow2((1074 + i) as nat),
        float_math::size(b) <= pow2((1074 + j) as nat),
        i + j <= 1023,
    ensures
        float_bits::mag(float_math::product(a, b)) <= (1023 + i + j) * 0x10_0000_0000_0000,
        float_bits::finite(float_math::product(a, b)),
        float_math::size(float_math::product(a, b)) <= pow2((1074 + i + j) as nat),
{
    reveal(float_math::product);
    let m = ((1023 + i + j) * 0x10_0000_0000_0000) as int;
    let u = float_math::unit();
    let x = pow2((1074 + i) as nat) as int;
    let y = pow2((1074 + j) as nat) as int;
    let z = pow2((1074 + i + j) as nat) as int;
    let (p, q) = (float_math::size(a), float_math::size(b));
    float_round::lemma_powers();
    float_round::lemma_multiple((1022 + i + j) as nat, 0x10_0000_0000_0000);
    lemma_pow2_adds(52, (1022 + i + j) as nat);
    lemma_pow2_adds((1074 + i) as nat, (1074 + j) as nat);
    lemma_pow2_adds((1074 + i + j) as nat, 1074);
    lemma_pow2_pos(1074);
    lemma_value_order(F64Bits(0), float_bits::unsigned(a));
    lemma_value_order(F64Bits(0), float_bits::unsigned(b));
    float_math::lemma_small_multiples();
    assert(p * q * 1 <= z * u) by (nonlinear_arith)
        requires
            0 <= p <= x,
            0 <= q <= y,
            x * y == z * u,
    ;
    float_math::lemma_rounded_exact(m);
    float_round::law_rounding_keeps_order(p * q, u, z, 1);
    float_round::law_nearest_exists(p * q, u);
    let r = float_round::rounded(p * q, u);
    lemma_ranks_of_signs(float_bits::signed(a) != float_bits::signed(b), r);
    if r < m {
        float_round::lemma_multiple_ascends(r, m);
    }
}

/// The magnitude of a sum is at most the sum of what bounds the magnitudes.
pub proof fn law_sums_are_within_sums_of_magnitudes(net: F64Bits, d: F64Bits, gross: F64Bits)
    requires
        at_most(float_bits::unsigned(net), gross),
        float_bits::finite(d),
    ensures
        at_most(
            float_bits::unsigned(float_math::sum(net, d)),
            float_math::sum(gross, float_bits::unsigned(d)),
        ),
{
    reveal(float_math::sum);
    let e = float_bits::unsigned(d);
    lemma_sum_rank(net, d);
    lemma_sum_rank(gross, e);
    if float_bits::finite(gross) {
        lemma_value_order(float_bits::unsigned(net), gross);
        lemma_value_order(F64Bits(0), float_bits::unsigned(net));
        lemma_value_order(F64Bits(0), e);
        float_math::lemma_small_multiples();
        let t = float_math::value(net) + float_math::value(d);
        let m = if t < 0 {
            -t
        } else {
            t
        };
        let bound = float_math::value(gross) + float_math::value(e);
        assert(m * 1 <= bound * 1);
        lemma_rank_order(m, 1, bound, 1);
        float_round::law_nearest_exists(m, 1);
        lemma_ranks_of_signs(t < 0, float_round::rounded(m, 1));
        lemma_ranks_of_signs(float_bits::signed(net) && float_bits::signed(d), 0);
        float_math::lemma_rounded_nothing(1);
    }
}

/// Dividing what is not negative by more gives less.
pub proof fn law_larger_divisors_give_smaller_quotients(a: F64Bits, k1: F64Bits, k2: F64Bits)
    requires
        !float_bits::nan(a),
        !float_bits::less(a, F64Bits(0)),
        positive(k1),
        positive(k2),
        at_most(k1, k2),
    ensures
        at_most(float_math::quotient(a, k2), float_math::quotient(a, k1)),
{
    lemma_quotient_rank(a, k1);
    lemma_quotient_rank(a, k2);
    if float_bits::finite(a) {
        lemma_value_order(F64Bits(0), a);
        lemma_value_order(k1, k2);
        lemma_positive_size(k1);
        lemma_positive_size(k2);
        float_math::lemma_small_multiples();
        let n = float_math::value(a) * float_math::unit();
        let (d1, d2) = (float_math::size(k1), float_math::size(k2));
        assert(n * d1 <= n * d2) by (nonlinear_arith)
            requires
                n == float_math::value(a) * float_math::unit(),
                float_math::value(a) >= 0,
                float_math::unit() > 0,
                0 < d1 <= d2,
        {
            assert(n >= 0);
        }
        lemma_rank_order(n, d2, n, d1);
    }
}

/// Half of a float added to itself is the float.
proof fn lemma_half_of_double(a: F64Bits)
    requires
        float_bits::finite(float_math::sum(a, a)),
        float_bits::finite(a),
    ensures
        float_bits::equal(
            float_math::quotient(float_math::sum(a, a), F64Bits(TWO)),
            a,
        ),
{
    reveal(float_math::sum);
    reveal(float_math::quotient);
    let two = F64Bits(TWO);
    let m = float_bits::mag(a);
    let v = float_math::size(a);
    let u = float_math::unit();
    float_math::lemma_small_multiples();
    float_math::lemma_one();
    float_round::lemma_doubled(ONE as int);
    lemma_pow2_pos(1074);
    let total = float_math::sum(a, a);
    if m == 0 {
        float_math::lemma_quotient_sign(total, two);
    } else {
        float_round::lemma_multiple_ascends(0, m);
        float_round::law_nearest_exists(2 * v, 1);
        lemma_double_is_exact(m);
        let d = float_round::rounded(2 * v, 1);
        lemma_ranks_of_signs(float_bits::signed(a), d);
        assert(float_bits::mag(total) == d);
        assert(float_math::size(total) == 2 * v);
        float_math::lemma_rounded_exact(m);
        let n = (2 * v) * u;
        assert(n * 1 == v * (2 * u)) by (nonlinear_arith)
            requires
                n == (2 * v) * u,
        ;
        float_round::law_rounding_keeps_order(n, 2 * u, v, 1);
        float_round::law_rounding_keeps_order(v, 1, n, 2 * u);
        lemma_ranks_of_signs(float_bits::signed(a), m);
    }
}

/// Twice a magnitude is a magnitude, unless it rounds to infinity.
proof fn lemma_double_is_exact(m: int)
    requires
        0 < m < INFINITE,
        float_round::rounded(2 * float_round::multiple(m), 1) < INFINITE,
    ensures
        float_round::multiple(float_round::rounded(2 * float_round::multiple(m), 1)) == 2
            * float_round::multiple(m),
{
    let v = float_round::multiple(m);
    float_round::law_nearest_exists(2 * v, 1);
    if m < 0x10_0000_0000_0000 {
        float_round::lemma_powers();
        float_round::lemma_multiple(0, m);
        float_round::lemma_multiple(0, 2 * m);
        assert(m * 1 == m && (2 * m) * 1 == 2 * m);
        float_math::lemma_rounded_exact(2 * m);
    } else {
        let d = m + 0x10_0000_0000_0000;
        float_round::lemma_doubled(m);
        if d < INFINITE {
            float_math::lemma_rounded_exact(d);
        } else {
            let r = float_round::rounded(2 * v, 1);
            float_round::lemma_multiple_ascends(r, r + 1);
            if r + 1 < d {
                float_round::lemma_multiple_ascends(r + 1, d);
            }
        }
    }
}

/// The mean of two floats lies between them, where doubling either does not
/// overflow.
pub proof fn law_mean_lies_between(a: F64Bits, b: F64Bits)
    requires
        at_most(a, b),
        float_bits::finite(a),
        float_bits::finite(b),
        float_bits::finite(float_math::sum(a, a)),
        float_bits::finite(float_math::sum(b, b)),
    ensures
        ({
            let mean = float_math::quotient(float_math::sum(a, b), F64Bits(TWO));
            at_most(a, mean) && at_most(mean, b)
        }),
{
    let two = F64Bits(TWO);
    lemma_half_of_double(a);
    lemma_half_of_double(b);
    law_sum_keeps_order(a, b, a);
    law_sum_commutes(b, a);
    law_sum_keeps_order(a, b, b);
    law_quotient_keeps_order(float_math::sum(a, a), float_math::sum(a, b), two);
    law_quotient_keeps_order(float_math::sum(a, b), float_math::sum(b, b), two);
}

} // verus!
