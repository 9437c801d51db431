//! How near a computed number is to the exact one, in parts of `2^52`.

use vstd::arithmetic::power2::{lemma_pow2_adds, lemma_pow2_pos, lemma_pow2_strictly_increases};
use vstd::prelude::*;

use crate::float_bits;
use crate::float_bits::F64Bits;
use crate::float_error;
use crate::float_error::FULL;
use crate::float_math;
use crate::float_round;
use crate::float_round::INFINITE;

verus! {

/// Whether each of two numbers exceeds the other by at most `k` parts in `2^52`.
pub open spec fn near(x: int, y: int, k: int) -> bool {
    x * FULL <= y * (FULL + k) && y * FULL <= x * (FULL + k)
}

/// Whether a float is finite and not so close to zero that it lost precision.
pub open spec fn full(f: F64Bits) -> bool {
    FULL <= float_bits::mag(f) < INFINITE
}

/// A number without its sign.
pub open spec fn distance(n: int) -> int {
    if n < 0 {
        -n
    } else {
        n
    }
}

/// What is near stays near under a wider measure.
pub proof fn law_near_widens(x: int, y: int, j: int, k: int)
    requires
        near(x, y, j),
        x >= 0,
        y >= 0,
        j <= k,
    ensures
        near(x, y, k),
{
    assert(y * (FULL + j) <= y * (FULL + k)) by (nonlinear_arith)
        requires
            y >= 0,
            j <= k,
    ;
    assert(x * (FULL + j) <= x * (FULL + k)) by (nonlinear_arith)
        requires
            x >= 0,
            j <= k,
    ;
}

proof fn lemma_half_chain(x: int, y: int, z: int, j: int, k: int)
    requires
        x * FULL <= y * (FULL + j),
        y * FULL <= z * (FULL + k),
        z >= 0,
        0 <= j <= 0x10_0000,
        0 <= k <= 0x10_0000,
    ensures
        x * FULL <= z * (FULL + j + k + 1),
{
    let e = FULL as int;
    let jk = j * k;
    assert(jk <= e) by (nonlinear_arith)
        requires
            jk == j * k,
            0 <= j <= 0x10_0000,
            0 <= k <= 0x10_0000,
            e == 0x10_0000_0000_0000,
    ;
    assert((x * e) * e <= (y * (e + j)) * e) by (nonlinear_arith)
        requires
            x * e <= y * (e + j),
            e > 0,
    ;
    assert((y * e) * (e + j) <= (z * (e + k)) * (e + j)) by (nonlinear_arith)
        requires
            y * e <= z * (e + k),
            e + j > 0,
    ;
    assert((y * (e + j)) * e == (y * e) * (e + j)) by (nonlinear_arith);
    assert((z * (e + k)) * (e + j) == (z * (e + j + k)) * e + z * jk) by (nonlinear_arith)
        requires
            jk == j * k,
    ;
    assert(z * jk <= z * e) by (nonlinear_arith)
        requires
            z >= 0,
            jk <= e,
    ;
    assert((z * (e + j + k)) * e + z * e == (z * (e + j + k + 1)) * e) by (nonlinear_arith);
    let (p, q) = (x * e, z * (e + j + k + 1));
    assert(p <= q) by (nonlinear_arith)
        requires
            p * e <= q * e,
            e > 0,
    ;
}

/// Nearness adds up along a chain.
pub proof fn law_near_chains(x: int, y: int, z: int, j: int, k: int)
    requires
        near(x, y, j),
        near(y, z, k),
        x >= 0,
        z >= 0,
        0 <= j <= 0x10_0000,
        0 <= k <= 0x10_0000,
    ensures
        near(x, z, j + k + 1),
{
    lemma_half_chain(x, y, z, j, k);
    lemma_half_chain(z, y, x, k, j);
}

/// What is near stays near in any multiple.
pub proof fn law_near_scales(x: int, y: int, c: int, k: int)
    requires
        near(x, y, k),
        c >= 0,
    ensures
        near(x * c, y * c, k),
{
    assert((x * c) * FULL <= (y * c) * (FULL + k)) by (nonlinear_arith)
        requires
            x * FULL <= y * (FULL + k),
            c >= 0,
    {
        assert((x * FULL) * c <= (y * (FULL + k)) * c);
    }
    assert((y * c) * FULL <= (x * c) * (FULL + k)) by (nonlinear_arith)
        requires
            y * FULL <= x * (FULL + k),
            c >= 0,
    {
        assert((y * FULL) * c <= (x * (FULL + k)) * c);
    }
}

/// Products of what is near are near.
pub proof fn law_near_multiplies(x: int, y: int, v: int, w: int, j: int, k: int)
    requires
        near(x, y, j),
        near(v, w, k),
        x >= 0,
        y >= 0,
        v >= 0,
        w >= 0,
        0 <= j <= 0x10_0000,
        0 <= k <= 0x10_0000,
    ensures
        near(x * v, y * w, j + k + 1),
{
    law_near_scales(x, y, v, j);
    law_near_scales(v, w, y, k);
    assert(y * v == v * y && w * y == y * w) by (nonlinear_arith);
    assert(x * v >= 0 && y * w >= 0) by (nonlinear_arith)
        requires
            x >= 0,
            y >= 0,
            v >= 0,
            w >= 0,
    ;
    law_near_chains(x * v, y * v, y * w, j, k);
}

/// What is near in a multiple is near.
pub proof fn law_near_cancels(x: int, y: int, c: int, k: int)
    requires
        near(x * c, y * c, k),
        c > 0,
    ensures
        near(x, y, k),
{
    let (p, q) = (x * FULL, y * (FULL + k));
    assert(p <= q) by (nonlinear_arith)
        requires
            (x * c) * FULL <= (y * c) * (FULL + k),
            p == x * FULL,
            q == y * (FULL + k),
            c > 0,
    {
        assert((x * c) * FULL == p * c);
        assert((y * c) * (FULL + k) == q * c);
    }
    let (r, s) = (y * FULL, x * (FULL + k));
    assert(r <= s) by (nonlinear_arith)
        requires
            (y * c) * FULL <= (x * c) * (FULL + k),
            r == y * FULL,
            s == x * (FULL + k),
            c > 0,
    {
        assert((y * c) * FULL == r * c);
        assert((x * c) * (FULL + k) == s * c);
    }
}

proof fn lemma_rounding_is_near(n: int, d: int)
    requires
        d > 0,
        FULL <= float_round::rounded(n, d) < INFINITE,
    ensures
        near(float_round::multiple(float_round::rounded(n, d)) * d, n, 1),
{
    float_error::law_rounding_adds_little(n, d);
    float_error::law_rounding_takes_little(n, d);
}

/// A product of full precision is near the exact one, and its sign is that of the
/// two.
pub proof fn law_product_is_near(a: F64Bits, b: F64Bits)
    requires
        float_bits::finite(a),
        float_bits::finite(b),
        full(float_math::product(a, b)),
    ensures
        near(
            float_math::size(float_math::product(a, b)) * float_math::unit(),
            float_math::size(a) * float_math::size(b),
            1,
        ),
        float_bits::signed(float_math::product(a, b)) == (float_bits::signed(a) != float_bits::signed(b)),
{
    reveal(float_math::product);
    lemma_pow2_pos(1074);
    let n = float_math::size(a) * float_math::size(b);
    float_round::law_nearest_exists(n, float_math::unit());
    lemma_rounding_is_near(n, float_math::unit());
}

/// A quotient of full precision is near the exact one, and its sign is that of the
/// two.
pub proof fn law_quotient_is_near(a: F64Bits, b: F64Bits)
    requires
        float_bits::finite(a),
        float_bits::finite(b),
        !float_math::zero(b),
        full(float_math::quotient(a, b)),
    ensures
        near(
            float_math::size(float_math::quotient(a, b)) * float_math::size(b),
            float_math::size(a) * float_math::unit(),
            1,
        ),
        float_bits::signed(float_math::quotient(a, b)) == (float_bits::signed(a) != float_bits::signed(b)),
{
    reveal(float_math::quotient);
    float_error::lemma_sizes(b);
    let n = float_math::size(a) * float_math::unit();
    float_round::law_nearest_exists(n, float_math::size(b));
    lemma_rounding_is_near(n, float_math::size(b));
}

/// A finite sum is near the exact one, and on its side of zero.
pub proof fn law_sum_is_near(a: F64Bits, b: F64Bits)
    requires
        float_bits::finite(a),
        float_bits::finite(b),
        float_bits::finite(float_math::sum(a, b)),
    ensures
        ({
            let total = float_math::value(a) + float_math::value(b);
            let s = float_math::sum(a, b);
            &&& near(float_math::size(s), distance(total), 1)
            &&& total == 0 <==> float_math::zero(s)
            &&& total > 0 ==> float_math::value(s) == float_math::size(s)
            &&& total < 0 ==> float_math::value(s) == -float_math::size(s)
        }),
{
    lemma_sum_parts(a, b);
    float_math::lemma_small_multiples();
    let n = distance(float_math::value(a) + float_math::value(b));
    if n > 0 {
        lemma_whole_is_near(n);
    }
}

/// The sign and the magnitude of a sum.
proof fn lemma_sum_parts(a: F64Bits, b: F64Bits)
    requires
        float_bits::finite(a),
        float_bits::finite(b),
    ensures
        ({
            let total = float_math::value(a) + float_math::value(b);
            let s = float_math::sum(a, b);
            &&& total == 0 ==> float_math::zero(s)
            &&& total != 0 ==> float_bits::mag(s) == float_round::rounded(distance(total), 1)
                && float_bits::signed(s) == (total < 0)
        }),
{
    reveal(float_math::sum);
    let total = float_math::value(a) + float_math::value(b);
    float_round::law_nearest_exists(distance(total), 1);
}

/// The float nearest to a whole multiple of the least one.
proof fn lemma_whole_is_near(n: int)
    requires
        n > 0,
        float_round::rounded(n, 1) < INFINITE,
    ensures
        float_round::rounded(n, 1) > 0,
        near(float_round::multiple(float_round::rounded(n, 1)), n, 1),
{
    float_round::law_nearest_exists(n, 1);
    let m = float_round::rounded(n, 1);
    float_math::lemma_rounded_exact(1);
    float_math::lemma_small_multiples();
    float_round::law_rounding_keeps_order(1, 1, n, 1);
    if m >= FULL {
        lemma_rounding_is_near(n, 1);
    } else {
        float_error::lemma_least(m);
        if n < FULL {
            float_error::lemma_least(n);
            float_math::lemma_rounded_exact(n);
        } else {
            float_error::lemma_least(FULL as int);
            float_math::lemma_rounded_exact(FULL as int);
            float_round::law_rounding_keeps_order(FULL as int, 1, n, 1);
        }
        assert(float_round::multiple(m) == n);
    }
}

/// A difference is a sum with the opposite.
pub proof fn law_difference_is_near(a: F64Bits, b: F64Bits)
    requires
        float_bits::finite(a),
        float_bits::finite(b),
        float_bits::finite(float_math::difference(a, b)),
    ensures
        ({
            let total = float_math::value(a) - float_math::value(b);
            let s = float_math::difference(a, b);
            &&& near(float_math::size(s), distance(total), 1)
            &&& total == 0 <==> float_math::zero(s)
            &&& total > 0 ==> float_math::value(s) == float_math::size(s)
            &&& total < 0 ==> float_math::value(s) == -float_math::size(s)
        }),
{
    assert(float_math::value(float_math::negated(b)) == -float_math::value(b));
    law_sum_is_near(a, float_math::negated(b));
}

/// The float of a whole number is near it.
pub proof fn law_integer_is_near(v: int)
    requires
        -0x1_0000_0000_0000_0000_0000_0000_0000_0000 <= v <= 0x1_0000_0000_0000_0000_0000_0000_0000_0000,
    ensures
        near(
            float_math::size(float_math::of_integer(v)),
            distance(v) * float_math::unit(),
            1,
        ),
        float_bits::finite(float_math::of_integer(v)),
        float_bits::signed(float_math::of_integer(v)) == (v < 0),
{
    float_math::lemma_of_integer(v);
    reveal(float_math::of_integer);
    lemma_pow2_pos(1074);
    float_math::lemma_small_multiples();
    let u = float_math::unit();
    let n = distance(v) * u;
    if v == 0 {
        assert(n == 0) by (nonlinear_arith)
            requires
                n == distance(0) * u,
                distance(0) == 0,
        ;
    } else {
        assert(n > 0) by (nonlinear_arith)
            requires
                n == distance(v) * u,
                distance(v) > 0,
                u > 0,
        ;
        float_round::law_nearest_exists(n, 1);
        assert(-v * u == n || v * u == n);
        lemma_whole_is_near(n);
    }
}

/// What is near is off by at most that many parts of the other, and at most twice
/// as large.
pub proof fn law_near_is_off_by_little(x: int, y: int, k: int)
    requires
        near(x, y, k),
        x >= 0,
        y >= 0,
        0 <= k <= 0x10_0000,
    ensures
        (x - y) * FULL <= k * y,
        (y - x) * FULL <= k * x,
        x <= 2 * y,
        y <= 2 * x,
        distance(x - y) * FULL <= 2 * (k * y),
{
    let e = FULL as int;
    assert(y * (e + k) == y * e + k * y && x * (e + k) == x * e + k * x) by (nonlinear_arith);
    assert((x - y) * e == x * e - y * e) by (nonlinear_arith);
    assert((y - x) * e == y * e - x * e) by (nonlinear_arith);
    assert(k * y <= y * e && k * x <= x * e) by (nonlinear_arith)
        requires
            0 <= k <= e,
            x >= 0,
            y >= 0,
    ;
    assert(x <= 2 * y) by (nonlinear_arith)
        requires
            x * e <= y * e + y * e,
            e > 0,
    ;
    assert(y <= 2 * x) by (nonlinear_arith)
        requires
            y * e <= x * e + x * e,
            e > 0,
    ;
    assert(k * x <= 2 * (k * y)) by (nonlinear_arith)
        requires
            x <= 2 * y,
            k >= 0,
    ;
    assert(k * y >= 0) by (nonlinear_arith)
        requires
            k >= 0,
            y >= 0,
    ;
}

/// The quotient of two whole numbers, taken as floats, is near the exact one.
pub proof fn law_integer_quotient_is_near(n: int, d: int)
    requires
        -0x1_0000_0000_0000_0000_0000_0000_0000_0000 <= n <= 0x1_0000_0000_0000_0000_0000_0000_0000_0000,
        0 < d <= 0x1_0000_0000_0000_0000_0000_0000_0000_0000,
    ensures
        ({
            let q = float_math::quotient(float_math::of_integer(n), float_math::of_integer(d));
            &&& near(float_math::size(q) * d, distance(n) * float_math::unit(), 5)
            &&& n != 0 ==> full(q) && float_bits::signed(q) == (n < 0)
            &&& n == 0 ==> float_math::zero(q)
            &&& float_bits::finite(q)
        }),
{
    let (a, b) = (float_math::of_integer(n), float_math::of_integer(d));
    law_integer_is_near(n);
    law_integer_is_near(d);
    float_math::lemma_of_integer(n);
    float_math::lemma_of_integer(d);
    float_math::lemma_small_multiples();
    if n == 0 {
        float_math::lemma_quotient_sign(a, b);
        assert(0 * d == 0 && 0 * float_math::unit() == 0);
    } else {
        law_moderate_quotient_is_near(a, b, distance(n), d);
    }
}

/// The quotient of two floats near whole numbers is near their quotient.
pub proof fn law_moderate_quotient_is_near(a: F64Bits, b: F64Bits, m: int, d: int)
    requires
        float_bits::finite(a),
        float_bits::finite(b),
        near(float_math::size(a), m * float_math::unit(), 1),
        near(float_math::size(b), d * float_math::unit(), 1),
        0 < m <= 0x1_0000_0000_0000_0000_0000_0000_0000_0000,
        0 < d <= 0x1_0000_0000_0000_0000_0000_0000_0000_0000,
    ensures
        ({
            let q = float_math::quotient(a, b);
            &&& near(float_math::size(q) * d, m * float_math::unit(), 5)
            &&& full(q)
            &&& float_bits::signed(q) == (float_bits::signed(a) != float_bits::signed(b))
        }),
{
    let u = float_math::unit();
    lemma_pow2_pos(1074);
    float_error::lemma_sizes(a);
    float_error::lemma_sizes(b);
    let q = float_math::quotient(a, b);
    let (x, y) = (float_math::size(a), float_math::size(b));
    assert(m * u >= 0 && d * u > 0) by (nonlinear_arith)
        requires
            m >= 0,
            d > 0,
            u > 0,
    ;
    law_near_is_off_by_little(x, m * u, 1);
    law_near_is_off_by_little(y, d * u, 1);
    lemma_moderate_quotient(x, y, m, d, u);
    assert(full(q)) by {
        reveal(float_math::quotient);
        float_error::lemma_rounds_to_finite(x * u, y);
        float_error::lemma_least(FULL as int);
        float_math::lemma_rounded_exact(FULL as int);
        float_round::law_rounding_keeps_order(FULL as int, 1, x * u, y);
        float_round::law_nearest_exists(x * u, y);
    }
    law_quotient_is_near(a, b);
    float_error::lemma_sizes(q);
    let s = float_math::size(q);
    law_near_scales(y, d * u, s, 1);
    law_near_scales(x, m * u, u, 1);
    assert(y * s == s * y && (d * u) * s == (s * d) * u) by (nonlinear_arith);
    assert((s * d) * u >= 0 && (m * u) * u >= 0 && s * y >= 0 && x * u >= 0) by (nonlinear_arith)
        requires
            s >= 0,
            d > 0,
            u > 0,
            m >= 0,
            y >= 0,
            x >= 0,
    {
        assert(s * d >= 0);
        assert(m * u >= 0);
    }
    law_near_chains((s * d) * u, s * y, x * u, 1, 1);
    law_near_chains((s * d) * u, x * u, (m * u) * u, 3, 1);
    law_near_cancels(s * d, m * u, u, 5);
}

/// Quotients of moderate numbers neither overflow nor lose precision.
proof fn lemma_moderate_quotient(x: int, y: int, m: int, d: int, u: int)
    requires
        u == float_math::unit(),
        x <= 2 * (m * u),
        m * u <= 2 * x,
        y <= 2 * (d * u),
        d * u <= 2 * y,
        0 < m <= 0x1_0000_0000_0000_0000_0000_0000_0000_0000,
        0 < d <= 0x1_0000_0000_0000_0000_0000_0000_0000_0000,
    ensures
        x * u <= y * (u * float_error::cap()),
        (FULL as int) * y <= (x * u) * 1,
{
    float_round::lemma_powers();
    lemma_pow2_pos(1074);
    lemma_pow2_adds(128, 64);
    lemma_pow2_strictly_increases(192, 1074);
    lemma_pow2_strictly_increases(192, 1023);
    let c = float_error::cap();
    let big = 0x1_0000_0000_0000_0000_0000_0000_0000_0000int;
    let wide = 0x1_0000_0000_0000_0000int;
    assert(u <= 2 * x && u <= 2 * y && x <= 2 * (big * u) && y <= 2 * (big * u)) by (nonlinear_arith)
        requires
            x <= 2 * (m * u),
            m * u <= 2 * x,
            y <= 2 * (d * u),
            d * u <= 2 * y,
            0 < m <= big,
            0 < d <= big,
            u > 0,
    {
        assert(u <= m * u);
        assert(u <= d * u);
        assert(m * u <= big * u);
        assert(d * u <= big * u);
    }
    let uu = u * u;
    assert(uu > 0) by (nonlinear_arith)
        requires
            uu == u * u,
            u > 0,
    ;
    assert(x * u <= 2 * big * uu) by (nonlinear_arith)
        requires
            x <= 2 * (big * u),
            uu == u * u,
            u > 0,
    ;
    assert(2 * (y * (u * c)) >= uu * c) by (nonlinear_arith)
        requires
            u <= 2 * y,
            uu == u * u,
            u > 0,
            c > 0,
    {
        assert((2 * y) * (u * c) >= u * (u * c));
    }
    assert(uu * c >= uu * (big * wide)) by (nonlinear_arith)
        requires
            c >= big * wide,
            uu > 0,
    ;
    assert(uu * (big * wide) >= 4 * big * uu) by (nonlinear_arith)
        requires
            uu > 0,
            big > 0,
            wide >= 4,
    {
        assert(big * wide >= 4 * big);
    }
    assert(x * u <= y * (u * c)) by (nonlinear_arith)
        requires
            x * u <= 2 * big * uu,
            2 * (y * (u * c)) >= uu * c,
            uu * c >= uu * (big * wide),
            uu * (big * wide) >= 4 * big * uu,
    ;
    let e = FULL as int;
    assert(e * y <= 2 * e * big * u) by (nonlinear_arith)
        requires
            y <= 2 * (big * u),
            e > 0,
    ;
    assert(2 * (x * u) >= uu) by (nonlinear_arith)
        requires
            u <= 2 * x,
            uu == u * u,
            u > 0,
    ;
    assert(uu >= (big * wide) * u) by (nonlinear_arith)
        requires
            u >= big * wide,
            uu == u * u,
            u > 0,
    ;
    assert((big * wide) * u >= 4 * e * big * u) by (nonlinear_arith)
        requires
            wide >= 4 * e,
            big > 0,
            u > 0,
    {
        let bu = big * u;
        assert(bu > 0);
        assert((big * wide) * u == wide * bu);
        assert(4 * e * big * u == (4 * e) * bu);
    }
}

} // verus!
