//! How far rounding moves a result: by less than one part in `2^52`, unless the
//! result is among the least floats.

use vstd::arithmetic::power2::{lemma_pow2_adds, lemma_pow2_pos, pow2};
use vstd::prelude::*;

use crate::float_bits;
use crate::float_bits::F64Bits;
use crate::float_math;
use crate::float_order;
use crate::float_round;
use crate::float_round::INFINITE;

verus! {

/// `2^52`: the least significand of a float of full precision, and its magnitude
/// bits.
pub const FULL: u64 = 0x10_0000_0000_0000;

/// The step from a magnitude of full precision to the next is at most one part
/// in `2^52` of it.
proof fn lemma_step_above(m: int)
    requires
        FULL <= m,
    ensures
        0 < float_round::multiple(m + 1) - float_round::multiple(m),
        (float_round::multiple(m + 1) - float_round::multiple(m)) * FULL <= float_round::multiple(m),
{
    float_round::lemma_parts(m);
    float_round::lemma_multiple_steps(m);
    let t = float_round::doublings(m);
    let s = m - t * FULL;
    float_round::lemma_multiple(t, s + 1);
    lemma_pow2_pos(t);
    let p = pow2(t) as int;
    assert((s + 1) * p == s * p + p) by (nonlinear_arith);
    assert(p * FULL <= s * p) by (nonlinear_arith)
        requires
            s >= FULL,
            p > 0,
    ;
}

/// The step to a magnitude of full precision from the one before is at most one
/// part in `2^52` of it.
proof fn lemma_step_below(m: int)
    requires
        FULL <= m,
    ensures
        0 < float_round::multiple(m) - float_round::multiple(m - 1),
        (float_round::multiple(m) - float_round::multiple(m - 1)) * FULL <= float_round::multiple(m),
{
    if m > FULL {
        lemma_step_above(m - 1);
    } else {
        lemma_least(m);
        lemma_least(m - 1);
    }
}

/// Magnitudes up to the first of full precision stand for themselves.
pub proof fn lemma_least(m: int)
    requires
        0 <= m <= FULL,
    ensures
        float_round::multiple(m) == m,
{
    float_round::lemma_powers();
    float_round::lemma_multiple(0, m);
}

/// Rounding moves a quotient up by at most one part in `2^52`.
pub proof fn law_rounding_adds_little(n: int, d: int)
    requires
        d > 0,
        float_round::rounded(n, d) >= FULL,
    ensures
        float_round::multiple(float_round::rounded(n, d)) * d * FULL <= n * (FULL + 1),
{
    float_round::law_nearest_exists(n, d);
    let m = float_round::rounded(n, d);
    lemma_step_below(m);
    let x = float_round::multiple(m);
    let g = x - float_round::multiple(m - 1);
    assert(2 * n >= (2 * x - g) * d);
    assert(x * d * FULL <= n * (FULL + 1)) by (nonlinear_arith)
        requires
            2 * n >= (2 * x - g) * d,
            g * FULL <= x,
            d > 0,
            x > 0,
            FULL == 0x10_0000_0000_0000,
    {
        let y = x * d;
        assert((2 * x - g) * d == 2 * y - g * d);
        assert((g * d) * FULL == (g * FULL) * d);
        assert((g * FULL) * d <= x * d);
        assert(y > 0);
        assert(2 * n * FULL >= 2 * y * FULL - y);
    }
}

/// Rounding moves a quotient down by at most one part in `2^52`.
pub proof fn law_rounding_takes_little(n: int, d: int)
    requires
        d > 0,
        FULL <= float_round::rounded(n, d) < INFINITE,
    ensures
        n * FULL <= float_round::multiple(float_round::rounded(n, d)) * d * (FULL + 1),
{
    float_round::law_nearest_exists(n, d);
    let m = float_round::rounded(n, d);
    lemma_step_above(m);
    let x = float_round::multiple(m);
    let g = float_round::multiple(m + 1) - x;
    assert(2 * n <= (2 * x + g) * d);
    assert(n * FULL <= x * d * (FULL + 1)) by (nonlinear_arith)
        requires
            2 * n <= (2 * x + g) * d,
            0 < g,
            g * FULL <= x,
            d > 0,
            FULL == 0x10_0000_0000_0000,
    {
        let y = x * d;
        assert((2 * x + g) * d == 2 * y + g * d);
        assert((g * d) * FULL == (g * FULL) * d);
        assert((g * FULL) * d <= x * d);
        assert(x > 0);
        assert(y > 0);
    }
}

/// Among the least floats rounding moves a quotient up by at most half a step.
pub proof fn law_least_rounding_adds_half(n: int, d: int)
    requires
        d > 0,
        n >= 0,
        float_round::rounded(n, d) < FULL,
    ensures
        0 <= float_round::rounded(n, d),
        2 * float_round::multiple(float_round::rounded(n, d)) * d <= 2 * n + d,
{
    float_round::law_nearest_exists(n, d);
    let m = float_round::rounded(n, d);
    lemma_least(m);
    if m > 0 {
        lemma_least(m - 1);
        assert((2 * m - 1) * d == 2 * m * d - d) by (nonlinear_arith);
    } else {
        assert(2 * 0 * d == 0) by (nonlinear_arith);
    }
}

/// If no magnitude above `m` is nearest to a root, one up to `m` is.
proof fn lemma_root_up_to(n: int, m: int)
    requires
        0 <= m <= INFINITE,
        m < INFINITE ==> {
            let middle = float_round::multiple(m) + float_round::multiple(m + 1);
            4 * n < middle * middle || (4 * n == middle * middle && m % 2 == 0)
        },
    ensures
        exists|x: int| float_round::nearest_root(n, x),
    decreases m,
{
    if !float_round::nearest_root(n, m) {
        lemma_root_up_to(n, m - 1);
    }
}

/// Every root has a nearest magnitude.
pub proof fn law_nearest_root_exists(n: int)
    ensures
        float_round::nearest_root(n, float_round::rooted(n)),
{
    lemma_root_up_to(n, INFINITE as int);
}

/// Rounding moves a root down by at most one part in `2^52`.
pub proof fn law_rooting_takes_little(n: int)
    requires
        FULL <= float_round::rooted(n) < INFINITE,
    ensures
        ({
            let x = float_round::multiple(float_round::rooted(n));
            n * (FULL * FULL) <= (x * (FULL + 1)) * (x * (FULL + 1))
        }),
{
    law_nearest_root_exists(n);
    let m = float_round::rooted(n);
    lemma_step_above(m);
    let x = float_round::multiple(m);
    let g = float_round::multiple(m + 1) - x;
    let w = 2 * x + g;
    assert(4 * n <= w * w);
    assert(n * (FULL * FULL) <= (x * (FULL + 1)) * (x * (FULL + 1))) by (nonlinear_arith)
        requires
            4 * n <= w * w,
            w == 2 * x + g,
            0 < g,
            g * FULL <= x,
            FULL == 0x10_0000_0000_0000,
    {
        let a = w * FULL;
        let b = 2 * (x * (FULL + 1));
        assert(x > 0);
        assert(a <= 2 * x * FULL + x);
        assert(0 <= a <= b);
        assert(a * a <= b * b);
        assert(a * a == (w * w) * (FULL * FULL));
        assert(b * b == 4 * ((x * (FULL + 1)) * (x * (FULL + 1))));
        assert((4 * n) * (FULL * FULL) <= (w * w) * (FULL * FULL));
    }
}

/// Twice the root of `n` is at least what its magnitude stands for.
pub proof fn law_roots_are_bounded(n: int)
    requires
        n >= 0,
    ensures
        ({
            let x = float_round::multiple(float_round::rooted(n));
            x * x <= 4 * n
        }),
{
    law_nearest_root_exists(n);
    let m = float_round::rooted(n);
    if m > 0 {
        float_round::lemma_multiple_steps(m - 1);
        let x = float_round::multiple(m);
        let w = float_round::multiple(m - 1) + x;
        assert(x * x <= w * w) by (nonlinear_arith)
            requires
                0 <= x <= w,
        ;
    } else {
        lemma_least(0);
    }
}

/// Roots keep order.
pub proof fn law_roots_keep_order(n1: int, n2: int)
    requires
        n1 <= n2,
    ensures
        float_round::rooted(n1) <= float_round::rooted(n2),
{
    law_nearest_root_exists(n1);
    law_nearest_root_exists(n2);
    let a = float_round::rooted(n2);
    let b = float_round::rooted(n1);
    if a < b {
        let low = float_round::multiple(a) + float_round::multiple(a + 1);
        let high = float_round::multiple(b - 1) + float_round::multiple(b);
        if a + 1 < b {
            float_round::lemma_multiple_ascends(a, b - 1);
            float_round::lemma_multiple_ascends(a + 1, b);
            assert(low * low < high * high) by (nonlinear_arith)
                requires
                    0 <= low < high,
            ;
        }
    }
}

/// Whether a number lies within a bound of zero.
pub open spec fn within(x: int, bound: int) -> bool {
    -bound <= x <= bound
}

/// `2^1023`: the greatest power of two among floats.
pub open spec fn cap() -> int {
    pow2(1023) as int
}

/// Rounding moves a quotient by at most one part in `2^52`, and half a step among
/// the least floats.
proof fn lemma_rounding_error(n: int, d: int)
    requires
        d > 0,
        n >= 0,
        float_round::rounded(n, d) < INFINITE,
    ensures
        within((float_round::multiple(float_round::rounded(n, d)) * d - n) * 2 * FULL, 2 * n + FULL * d),
{
    float_round::law_nearest_exists(n, d);
    let m = float_round::rounded(n, d);
    let x = float_round::multiple(m);
    let e = FULL as int;
    if m >= FULL {
        law_rounding_adds_little(n, d);
        law_rounding_takes_little(n, d);
        lemma_step_above(m);
        assert(within((x * d - n) * 2 * e, 2 * n + e * d)) by (nonlinear_arith)
            requires
                x * d * e <= n * (e + 1),
                n * e <= x * d * (e + 1),
                x > 0,
                d > 0,
                n >= 0,
                e == 0x10_0000_0000_0000,
        {
            let y = x * d;
            assert(y > 0);
            assert((y - n) * 2 * e == 2 * (y * e) - 2 * (n * e));
            assert(y * (e + 1) == y * e + y);
            assert(n * (e + 1) == n * e + n);
            assert(y <= 2 * n + 1);
            assert(e * d > 0);
            assert(y * e <= n * e + n);
            assert((y - n) * e <= n);
            assert(y - n <= n);
            assert(n * e <= y * e + y);
            assert(2 * y <= 2 * n + 2 * (y - n));
            assert(2 * (y - n) * e <= 2 * n);
            assert(e * (2 * (y - n)) <= e * d + 2 * n);
            assert(2 * (n - y) * e <= 2 * y);
        }
    } else {
        law_least_rounding_adds_half(n, d);
        lemma_least(m);
        lemma_least(m + 1);
        assert(2 * n <= (2 * m + 1) * d);
        assert(within((x * d - n) * 2 * e, 2 * n + e * d)) by (nonlinear_arith)
            requires
                2 * x * d <= 2 * n + d,
                2 * n <= (2 * x + 1) * d,
                n >= 0,
                d > 0,
                e > 0,
        {
            let y = x * d;
            assert(2 * (y - n) <= d);
            assert(2 * (n - y) <= d);
            assert(2 * (y - n) * e <= d * e);
            assert(2 * (n - y) * e <= d * e);
        }
    }
}

/// What is at most `2^1023` rounds to a finite float.
pub proof fn lemma_rounds_to_finite(n: int, d: int)
    requires
        d > 0,
        n <= d * (float_math::unit() * cap()),
    ensures
        float_round::rounded(n, d) < INFINITE,
{
    let most = float_math::unit() * cap();
    float_round::lemma_powers();
    float_round::lemma_multiple(2045, FULL as int);
    lemma_pow2_adds(52, 2045);
    lemma_pow2_adds(1074, 1023);
    let m = INFINITE - FULL;
    assert(float_round::multiple(m) == most);
    float_math::lemma_rounded_exact(m);
    assert(n * 1 <= most * d) by (nonlinear_arith)
        requires
            n <= d * most,
    ;
    float_round::law_rounding_keeps_order(n, d, most, 1);
}

/// A product is off by at most one part in `2^52` and half of the least float.
pub proof fn law_product_error(a: F64Bits, b: F64Bits)
    requires
        float_bits::finite(a),
        float_bits::finite(b),
        float_math::size(a) * float_math::size(b) <= float_math::unit() * (float_math::unit() * cap()),
    ensures
        float_bits::finite(float_math::product(a, b)),
        ({
            let u = float_math::unit();
            let (x, y) = (float_math::value(a), float_math::value(b));
            let p = float_math::value(float_math::product(a, b));
            within((p * u - x * y) * 2 * FULL, 2 * (float_math::size(a) * float_math::size(b)) + FULL * u)
        }),
{
    reveal(float_math::product);
    let u = float_math::unit();
    lemma_pow2_pos(1074);
    float_math::lemma_small_multiples();
    let (s, t) = (float_math::size(a), float_math::size(b));
    lemma_sizes(a);
    lemma_sizes(b);
    let n = s * t;
    assert(n >= 0) by (nonlinear_arith)
        requires
            n == s * t,
            s >= 0,
            t >= 0,
    ;
    lemma_rounds_to_finite(n, u);
    float_round::law_nearest_exists(n, u);
    lemma_rounding_error(n, u);
    let (x, y) = (float_math::value(a), float_math::value(b));
    let negative = float_bits::signed(a) != float_bits::signed(b);
    let sign = if negative {
        -1int
    } else {
        1
    };
    assert(x * y == sign * n) by (nonlinear_arith)
        requires
            n == s * t,
            x == s || x == -s,
            y == t || y == -t,
            sign == 1 || sign == -1,
            sign == 1 ==> ((x == s && y == t) || (x == -s && y == -t)),
            sign == -1 ==> ((x == s && y == -t) || (x == -s && y == t)),
            s >= 0,
            t >= 0,
    ;
    let p = float_math::value(float_math::product(a, b));
    let m = float_round::multiple(float_round::rounded(n, u));
    assert(p == sign * m) by {
        if negative {
            assert(p == -m);
            assert((-1) * m == -m);
        } else {
            assert(p == m);
            assert(1 * m == m);
        }
    }
    assert(p * u - x * y == sign * (m * u - n)) by (nonlinear_arith)
        requires
            p == sign * m,
            x * y == sign * n,
    ;
    let err = m * u - n;
    assert((sign * err) * 2 * FULL == err * 2 * FULL || (sign * err) * 2 * FULL == -(err * 2 * FULL))
        by (nonlinear_arith)
        requires
            sign == 1 || sign == -1,
    ;
}

/// The size of a finite float is not negative, and its value has that size.
pub proof fn lemma_sizes(a: F64Bits)
    requires
        float_bits::finite(a),
    ensures
        float_math::size(a) >= 0,
        float_math::size(a) > 0 <==> !float_math::zero(a),
        float_math::value(a) == float_math::size(a) || float_math::value(a) == -float_math::size(a),
{
    float_math::lemma_small_multiples();
    if float_bits::mag(a) > 0 {
        float_round::lemma_multiple_ascends(0, float_bits::mag(a));
    }
}

/// A sum is off by at most one part in `2^52`.
pub proof fn law_sum_error(a: F64Bits, b: F64Bits)
    requires
        float_bits::finite(a),
        float_bits::finite(b),
        within(float_math::value(a) + float_math::value(b), float_math::unit() * cap()),
    ensures
        float_bits::finite(float_math::sum(a, b)),
        ({
            let total = float_math::value(a) + float_math::value(b);
            let s = float_math::value(float_math::sum(a, b));
            &&& within((s - total) * FULL, total) || within((s - total) * FULL, -total)
            &&& total == 0 ==> s == 0
            &&& total > 0 ==> s > 0
            &&& total < 0 ==> s < 0
        }),
{
    reveal(float_math::sum);
    float_math::lemma_small_multiples();
    let total = float_math::value(a) + float_math::value(b);
    let n = if total < 0 {
        -total
    } else {
        total
    };
    if n > 0 {
        lemma_rounds_to_finite(n, 1);
        float_round::law_nearest_exists(n, 1);
        let m = float_round::rounded(n, 1);
        let x = float_round::multiple(m);
        float_math::lemma_rounded_exact(1);
        float_round::law_rounding_keeps_order(1, 1, n, 1);
        float_round::lemma_multiple_ascends(0, m);
        if m >= FULL {
            law_rounding_adds_little(n, 1);
            law_rounding_takes_little(n, 1);
            assert(within((x - n) * FULL, n)) by (nonlinear_arith)
                requires
                    x * 1 * FULL <= n * (FULL + 1),
                    n * FULL <= x * 1 * (FULL + 1),
                    n > 0,
                    x > 0,
                    FULL == 0x10_0000_0000_0000,
            ;
        } else {
            lemma_least(m);
            if n < FULL {
                lemma_least(n);
                float_math::lemma_rounded_exact(n);
            } else {
                lemma_least(FULL as int);
                float_math::lemma_rounded_exact(FULL as int);
                float_round::law_rounding_keeps_order(FULL as int, 1, n, 1);
            }
            assert(x == n);
            assert((x - n) * FULL == 0);
        }
        let s = float_math::value(float_math::sum(a, b));
        assert(s - total == x - n || s - total == -(x - n));
        assert((-(x - n)) * FULL == -((x - n) * FULL)) by (nonlinear_arith);
    }
}

/// A quotient of full precision is off by at most one part in `2^52`.
pub proof fn law_quotient_error(a: F64Bits, b: F64Bits)
    requires
        float_order::positive(a),
        float_order::positive(b),
        FULL * float_math::size(b) <= float_math::size(a) * float_math::unit(),
        float_math::size(a) <= float_math::size(b) * cap(),
    ensures
        ({
            let u = float_math::unit();
            let (x, y) = (float_math::size(a), float_math::size(b));
            let q = float_math::quotient(a, b);
            &&& float_order::positive(q)
            &&& float_math::size(q) * y * FULL <= x * u * (FULL + 1)
            &&& x * u * FULL <= float_math::size(q) * y * (FULL + 1)
        }),
{
    reveal(float_math::quotient);
    lemma_pow2_pos(1074);
    lemma_sizes(a);
    lemma_sizes(b);
    let u = float_math::unit();
    let (x, y) = (float_math::size(a), float_math::size(b));
    assert(x * u <= y * (u * cap())) by (nonlinear_arith)
        requires
            x <= y * cap(),
            u > 0,
    {
        assert(x * u <= (y * cap()) * u);
    }
    lemma_rounds_to_finite(x * u, y);
    float_round::law_nearest_exists(x * u, y);
    lemma_least(FULL as int);
    float_math::lemma_rounded_exact(FULL as int);
    float_round::law_rounding_keeps_order(FULL as int, 1, x * u, y);
    law_rounding_adds_little(x * u, y);
    law_rounding_takes_little(x * u, y);
}

} // verus!
