//! How near fixed-point values and the floats that they become are to each other,
//! and what each rounding of a quotient means.

use vstd::arithmetic::power2::lemma_pow2_pos;
use vstd::arithmetic::power2::{lemma_pow2_adds, lemma_pow2_strictly_increases};
use vstd::prelude::*;

use crate::float_bits;
use crate::float_bits::F64Bits;
use crate::float_error;
use crate::float_error::FULL;
use crate::float_math;
use crate::float_near;
use crate::float_near::{distance, full, near};
use crate::float_round;
use crate::tick_math::error::MathError;
use crate::tick_math::fixed;
use crate::tick_math::fixed::FixedX18;
use crate::tick_math::math;

verus! {

/// A fixed-point value as a float is its raw value over `1e18`, as far as rounding
/// goes, with its sign.
pub proof fn law_a_float_is_near_its_fixed_value(x: FixedX18)
    ensures
        ({
            let f = fixed::to_float(x);
            &&& float_bits::finite(f)
            &&& near(
                float_math::size(f) * 1_000_000_000_000_000_000,
                distance(x.0 as int) * float_math::unit(),
                5,
            )
            &&& x.0 != 0 ==> full(f) && float_bits::signed(f) == (x.0 < 0)
            &&& x.0 == 0 ==> float_math::zero(f)
        }),
{
    float_near::law_integer_quotient_is_near(x.0 as int, 1_000_000_000_000_000_000);
}

/// The fixed-point value of a float is the float times `1e18`: off by at most one
/// raw unit, and a few parts in `2^52` of the value.
pub proof fn law_a_fixed_value_is_near_its_float(v: F64Bits)
    requires
        float_bits::finite(v),
        float_math::size(v) * 1_000_000_000_000_000_000 <= 0x4000_0000_0000_0000_0000_0000_0000_0000
            * float_math::unit(),
    ensures
        distance(
            fixed::from_float(v).0 * float_math::unit() - float_math::value(v) * 1_000_000_000_000_000_000,
        ) * FULL <= float_math::unit() * FULL + 6 * (float_math::size(v) * 1_000_000_000_000_000_000),
{
    let u = float_math::unit();
    lemma_pow2_pos(1074);
    let k: int = 1_000_000_000_000_000_000;
    let scale = float_math::of_integer(k);
    float_near::law_integer_is_near(k);
    float_math::lemma_of_integer(k);
    float_error::lemma_sizes(v);
    float_error::lemma_sizes(scale);
    let (a, y) = (float_math::size(v), float_math::size(scale));
    float_near::law_near_is_off_by_little(y, k * u, 1);
    float_round::lemma_powers();
    lemma_pow2_adds(128, 64);
    lemma_pow2_strictly_increases(192, 1023);
    lemma_pow2_strictly_increases(64, 1074);
    let c = float_error::cap();
    assert(a * y <= u * (u * c)) by (nonlinear_arith)
        requires
            y <= 2 * (k * u),
            a * k <= 0x4000_0000_0000_0000_0000_0000_0000_0000 * u,
            c >= 0x8000_0000_0000_0000_0000_0000_0000_0000,
            a >= 0,
            u > 0,
    {
        let uu = u * u;
        assert(uu > 0);
        assert(a * y <= a * (2 * (k * u)));
        assert(a * (2 * (k * u)) == 2 * u * (a * k));
        assert(2 * u * (a * k) <= 2 * u * (0x4000_0000_0000_0000_0000_0000_0000_0000 * u));
        assert(2 * u * (0x4000_0000_0000_0000_0000_0000_0000_0000 * u)
            == 0x8000_0000_0000_0000_0000_0000_0000_0000 * uu);
        assert(u * (u * c) == c * uu);
        assert(0x8000_0000_0000_0000_0000_0000_0000_0000 * uu <= c * uu);
    }
    float_error::law_product_error(v, scale);
    let scaled = float_math::product(v, scale);
    float_error::lemma_sizes(scaled);
    let (s, x) = (float_math::value(scaled), float_math::nearest_integer(scaled));
    lemma_nearest_integer(scaled);
    let w = float_math::value(v);
    let e = FULL as int;
    assert(float_math::value(scale) == y);
    let off = distance(x * u - w * k);
    lemma_scaled_off(x, s, w, a, y, k, u, e);
    // The result is in range, so it is not cut off.
    assert(distance(x) <= i128::MAX) by (nonlinear_arith)
        requires
            off * e <= u * e + 6 * (a * k),
            off == distance(x * u - w * k),
            w == a || w == -a,
            a * k <= 0x4000_0000_0000_0000_0000_0000_0000_0000 * u,
            a >= 0,
            k > 0,
            u > 0,
            e == 0x10_0000_0000_0000,
    {
        let z = a * k;
        assert(w * k == z || w * k == -z);
        assert(off <= u + z);
        assert(distance(x * u) <= off + z);
        assert(distance(x * u) == distance(x) * u);
        assert(distance(x) * u <= (1 + 0x8000_0000_0000_0000_0000_0000_0000_0000) * u - u + u);
        assert(off * 0x10_0000_0000_0000 <= u * 0x10_0000_0000_0000 + 6 * z);
        assert(2 * off <= 2 * u + z);
        assert(2 * (distance(x) * u) <= 2 * u + 3 * z);
        assert(2 * (distance(x) * u) <= (2 + 3 * 0x4000_0000_0000_0000_0000_0000_0000_0000) * u);
        assert(2 * distance(x) <= 2 + 3 * 0x4000_0000_0000_0000_0000_0000_0000_0000);
    }
}

/// The nearest whole number is off by at most one half.
proof fn lemma_nearest_integer(f: F64Bits)
    requires
        float_bits::finite(f),
    ensures
        -float_math::unit() <= 2 * (float_math::nearest_integer(f) * float_math::unit()) - 2 * float_math::value(f)
            <= float_math::unit(),
{
    let u = float_math::unit();
    lemma_pow2_pos(1074);
    vstd::arithmetic::div_mod::lemma_fundamental_div_mod(float_math::size(f), u);
    let (q, r) = (float_math::whole(f), float_math::fraction(f));
    let up: int = if 2 * r >= u {
        1
    } else {
        0
    };
    assert((q + up) * u == u * q + up * u) by (nonlinear_arith);
    assert((-(q + up)) * u == -((q + up) * u)) by (nonlinear_arith);
    assert(1 * u == u && 0 * u == 0);
}

proof fn lemma_scaled_off(x: int, s: int, w: int, a: int, y: int, k: int, u: int, e: int)
    requires
        -u <= 2 * (x * u) - 2 * s <= u,
        float_error::within((s * u - w * y) * 2 * e, 2 * (a * y) + e * u),
        (y - k * u) * e <= 1 * (k * u),
        (k * u - y) * e <= 1 * y,
        y <= 2 * (k * u),
        w == a || w == -a,
        a >= 0,
        k > 0,
        u > 1,
        e > 0,
    ensures
        distance(x * u - w * k) * e <= u * e + 6 * (a * k),
{
    let ak = a * k;
    let aku = ak * u;
    assert(aku >= 0) by (nonlinear_arith)
        requires
            aku == (a * k) * u,
            a >= 0,
            k > 0,
            u > 0,
    {
        assert(a * k >= 0);
    }
    assert(a * y <= 2 * aku) by (nonlinear_arith)
        requires
            y <= 2 * (k * u),
            a >= 0,
            aku == (a * k) * u,
    ;
    // The scale.
    let d = y - k * u;
    assert(-(2 * aku) <= (w * d) * e <= 2 * aku) by (nonlinear_arith)
        requires
            d * e <= k * u,
            -d * e <= 2 * (k * u),
            w == a || w == -a,
            a >= 0,
            aku == (a * k) * u,
            k > 0,
            u > 0,
    {
        assert(k * u > 0);
        assert(a * (d * e) <= a * (2 * (k * u)));
        assert(a * (-d * e) <= a * (2 * (k * u)));
        assert(a * (2 * (k * u)) == 2 * aku);
        assert((a * d) * e == a * (d * e));
        assert((-a * d) * e == a * (-d * e));
    }
    let product = s * u - w * y;
    let whole = x * u - s;
    let z = x * u - w * k;
    assert(z * u == whole * u + product + w * d) by (nonlinear_arith)
        requires
            product == s * u - w * y,
            whole == x * u - s,
            z == x * u - w * k,
            d == y - k * u,
    ;
    assert(-((u * u) * e) <= (2 * (whole * u)) * e <= (u * u) * e) by (nonlinear_arith)
        requires
            -u <= 2 * whole <= u,
            u > 0,
            e > 0,
    {
        assert(-(u * u) <= 2 * (whole * u) <= u * u);
    }
    assert(2 * ((z * u) * e) == (2 * (whole * u)) * e + product * 2 * e + 2 * ((w * d) * e)) by (nonlinear_arith)
        requires
            z * u == whole * u + product + w * d,
    ;
    let bound = (u * u) * e + 8 * aku + e * u;
    assert(-bound <= 2 * ((z * u) * e) <= bound);
    let half = u * e + 6 * ak;
    assert(bound <= 2 * (half * u)) by (nonlinear_arith)
        requires
            bound == (u * u) * e + 8 * aku + e * u,
            half == u * e + 6 * ak,
            aku == ak * u,
            aku >= 0,
            u > 1,
            e > 0,
    {
        assert(half * u == (u * u) * e + 6 * aku);
        assert(e * u <= (u * u) * e);
    }
    assert(-half <= z * e <= half) by (nonlinear_arith)
        requires
            -(2 * (half * u)) <= 2 * ((z * u) * e) <= 2 * (half * u),
            u > 0,
    {
        assert((z * u) * e == (z * e) * u);
    }
    assert(distance(z) * e == distance(z * e)) by (nonlinear_arith)
        requires
            e > 0,
            distance(z) == (if z < 0 { -z } else { z }),
            distance(z * e) == (if z * e < 0 { -(z * e) } else { z * e }),
    ;
}

/// What each rounding of a quotient means: the floor is the greatest whole number
/// that is not above it, the ceiling the least one that is not below it, and
/// truncation the one of the two that lies toward zero. The divisor has to be
/// positive, and the result in range.
pub proof fn law_roundings_are_what_they_are_called(n: int, d: int)
    ensures
        d <= 0 ==> math::floor_outcome(n, d) == Err::<i128, MathError>(MathError::DivisionByZero)
            && math::ceil_outcome(n, d) == Err::<i128, MathError>(MathError::DivisionByZero)
            && math::trunc_outcome(n, d) == Err::<i128, MathError>(MathError::DivisionByZero),
        d > 0 ==> {
            &&& math::floor_outcome(n, d) matches Ok(v) ==> v * d <= n < (v + 1) * d
            &&& math::ceil_outcome(n, d) matches Ok(v) ==> (v - 1) * d < n <= v * d
            &&& math::trunc_outcome(n, d) matches Ok(v) ==> {
                &&& n >= 0 ==> 0 <= v && v * d <= n < (v + 1) * d
                &&& n <= 0 ==> v <= 0 && (v - 1) * d < n <= v * d
            }
            &&& math::floor_outcome(n, d) matches Err(e) ==> e == MathError::Overflow
            &&& math::ceil_outcome(n, d) matches Err(e) ==> e == MathError::Overflow
            &&& math::trunc_outcome(n, d) matches Err(e) ==> e == MathError::Overflow
            &&& math::floor_outcome(n, d) is Ok <==> distance(n) < (i128::MAX + 1) * d
            &&& math::trunc_outcome(n, d) is Ok <==> distance(n) < (i128::MAX + 1) * d
            &&& math::ceil_outcome(n, d) is Ok <==> -(i128::MAX + 1) * d < n <= i128::MAX * d
        },
{
    if d > 0 {
        lemma_quotients(n, d);
        lemma_quotients(-n, d);
        lemma_quotients(distance(n), d);
        let top = i128::MAX as int;
        lemma_quotient_at_most(distance(n), d, top);
        lemma_quotient_at_most(-n, d, -top - 1);
        assert((-top - 1 + 1) * d == -(top * d)) by (nonlinear_arith);
        assert(-(top + 1) * d == -((top + 1) * d)) by (nonlinear_arith);
        let c = math::ceil_div(n, d);
        assert((c - 1) * d < n <= c * d) by (nonlinear_arith)
            requires
                (-c) * d <= -n < (-c + 1) * d,
        ;
        lemma_ceil_range(n, d, c);
        math::law_rounding_directions(n, d);
        math::law_rounding_directions(-n, d);
        assert(math::magnitude(n) == distance(n));
        assert(math::magnitude_fits(n, d) <==> distance(n) < (top + 1) * d);
        assert(math::floor_outcome(n, d) matches Ok(v) ==> v * d <= n < (v + 1) * d);
        if math::magnitude_fits(n, d) {
            let t = distance(n) / d;
            assert(math::trunc_div(n, d) == t || math::trunc_div(n, d) == -t);
            assert((-t - 1) * d == -((t + 1) * d) && (-t) * d == -(t * d)) by (nonlinear_arith);
            assert(n < 0 ==> math::trunc_div(n, d) == -t);
            assert(n == 0 ==> t == 0) by (nonlinear_arith)
                requires
                    t * d <= distance(n),
                    t >= 0,
                    d > 0,
                    n == 0 ==> distance(n) == 0,
            ;
        }
        assert(math::trunc_outcome(n, d) matches Ok(v) ==> {
            &&& n >= 0 ==> 0 <= v && v * d <= n < (v + 1) * d
            &&& n <= 0 ==> v <= 0 && (v - 1) * d < n <= v * d
        });
        assert(math::magnitude_fits(n, d) ==> c >= i128::MIN) by {
            assert(c >= math::floor_div(n, d));
        }
        assert(top * d <= (top + 1) * d) by (nonlinear_arith)
            requires
                d > 0,
        ;
        assert(-(top * d) <= (top + 1) * d) by (nonlinear_arith)
            requires
                d > 0,
                top > 0,
        ;
        assert(math::ceil_outcome(n, d) is Ok <==> -(top + 1) * d < n <= top * d);
    }
}

proof fn lemma_quotients(n: int, d: int)
    requires
        d > 0,
    ensures
        (n / d) * d <= n < (n / d + 1) * d,
        n >= 0 ==> n / d >= 0,
{
    vstd::arithmetic::div_mod::lemma_fundamental_div_mod(n, d);
    let (q, r) = (n / d, n % d);
    assert(q * d <= n < (q + 1) * d) by (nonlinear_arith)
        requires
            n == d * q + r,
            0 <= r < d,
    ;
    assert(n >= 0 ==> q >= 0) by (nonlinear_arith)
        requires
            n < (q + 1) * d,
            d > 0,
    ;
}

proof fn lemma_quotient_at_most(n: int, d: int, top: int)
    requires
        d > 0,
    ensures
        n / d <= top <==> n < (top + 1) * d,
{
    lemma_quotients(n, d);
    let q = n / d;
    if q <= top {
        assert((q + 1) * d <= (top + 1) * d) by (nonlinear_arith)
            requires
                q <= top,
                d > 0,
        ;
    } else {
        assert((top + 1) * d <= q * d) by (nonlinear_arith)
            requires
                q >= top + 1,
                d > 0,
        ;
    }
}

proof fn lemma_ceil_range(n: int, d: int, c: int)
    requires
        d > 0,
        (c - 1) * d < n <= c * d,
    ensures
        c <= i128::MAX <==> n <= i128::MAX * d,
{
    let top = i128::MAX as int;
    if c <= top {
        assert(c * d <= top * d) by (nonlinear_arith)
            requires
                c <= top,
                d > 0,
        ;
    } else {
        assert(top * d <= (c - 1) * d) by (nonlinear_arith)
            requires
                c - 1 >= top,
                d > 0,
        ;
    }
}

/// The unsigned roundings: up and down, within 128 bits.
pub proof fn law_unsigned_roundings_are_what_they_are_called(n: int, d: int)
    requires
        n >= 0,
        d >= 0,
    ensures
        d == 0 ==> math::up_outcome(n, d) == Err::<u128, MathError>(MathError::DivisionByZero)
            && math::down_outcome(n, d) == Err::<u128, MathError>(MathError::DivisionByZero),
        d > 0 ==> {
            &&& math::up_outcome(n, d) matches Ok(v) ==> (v - 1) * d < n <= v * d
            &&& math::down_outcome(n, d) matches Ok(v) ==> v * d <= n < (v + 1) * d
            &&& math::up_outcome(n, d) matches Err(e) ==> e == MathError::Overflow
            &&& math::down_outcome(n, d) matches Err(e) ==> e == MathError::Overflow
            &&& math::up_outcome(n, d) is Ok <==> n <= u128::MAX * d
            &&& math::down_outcome(n, d) is Ok <==> n < (u128::MAX + 1) * d
        },
{
    if d > 0 {
        lemma_quotients(n, d);
        lemma_quotients(-n, d);
        let top = u128::MAX as int;
        lemma_quotient_at_most(n, d, top);
        let c = math::ceil_div(n, d);
        assert((c - 1) * d < n <= c * d) by (nonlinear_arith)
            requires
                (-c) * d <= -n < (-c + 1) * d,
        ;
        assert(c >= 0) by (nonlinear_arith)
            requires
                n <= c * d,
                n >= 0,
                d > 0,
        ;
        if c <= top {
            assert(c * d <= top * d) by (nonlinear_arith)
                requires
                    c <= top,
                    d > 0,
            ;
        } else {
            assert(top * d <= (c - 1) * d) by (nonlinear_arith)
                requires
                    c - 1 >= top,
                    d > 0,
            ;
        }
    }
}

/// Sums and differences of raw values are exact where they are in range, and off by
/// one whole turn where they are not.
pub proof fn law_wrapping_is_exact_in_range(a: i128, b: i128)
    ensures
        i128::MIN <= a + b <= i128::MAX ==> fixed::wrapped_add(a, b) == a + b,
        i128::MIN <= a - b <= i128::MAX ==> fixed::wrapped_sub(a, b) == a - b,
        a + b > i128::MAX ==> fixed::wrapped_add(a, b) == a + b - 2 * (i128::MAX + 1),
        a + b < i128::MIN ==> fixed::wrapped_add(a, b) == a + b + 2 * (i128::MAX + 1),
        a - b > i128::MAX ==> fixed::wrapped_sub(a, b) == a - b - 2 * (i128::MAX + 1),
        a - b < i128::MIN ==> fixed::wrapped_sub(a, b) == a - b + 2 * (i128::MAX + 1),
{
}

/// A quotient by way of floats is the exact one with its fraction cut off, as far as
/// rounding goes, with the sign of its operands.
pub proof fn law_an_approximate_quotient_is_near(a: i128, b: i128, d: i128)
    requires
        math::approx_outcome(a, b, d) is Ok,
        i128::MIN < math::approx_outcome(a, b, d)->Ok_0 < i128::MAX,
        full(float_math::product(float_math::of_integer(a as int), float_math::of_integer(b as int))),
        full(math::float_quotient(a, b, d)),
    ensures
        ({
            let v = math::approx_outcome(a, b, d)->Ok_0 as int;
            let n = distance(a as int) * distance(b as int);
            &&& (distance(v) * distance(d as int)) * FULL <= n * (FULL + 9)
            &&& n * FULL <= ((distance(v) + 1) * distance(d as int)) * (FULL + 9)
            &&& v > 0 ==> ((a < 0) != (b < 0)) == (d < 0)
            &&& v < 0 ==> ((a < 0) != (b < 0)) != (d < 0)
        }),
{
    let u = float_math::unit();
    lemma_pow2_pos(1074);
    let (fa, fb, fd) = (
        float_math::of_integer(a as int),
        float_math::of_integer(b as int),
        float_math::of_integer(d as int),
    );
    float_near::law_integer_is_near(a as int);
    float_near::law_integer_is_near(b as int);
    float_near::law_integer_is_near(d as int);
    float_math::lemma_of_integer(d as int);
    let p = float_math::product(fa, fb);
    let q = math::float_quotient(a, b, d);
    float_near::law_product_is_near(fa, fb);
    float_near::law_quotient_is_near(p, fd);
    float_error::lemma_sizes(fa);
    float_error::lemma_sizes(fb);
    float_error::lemma_sizes(fd);
    float_error::lemma_sizes(p);
    float_error::lemma_sizes(q);
    let (size, whole) = (float_math::size(q), float_math::whole(q));
    let (x, y, z) = (distance(a as int), distance(b as int), distance(d as int));
    lemma_quotient_parts(
        size,
        float_math::size(p),
        float_math::size(fa),
        float_math::size(fb),
        float_math::size(fd),
        x,
        y,
        z,
        u,
    );
    vstd::arithmetic::div_mod::lemma_fundamental_div_mod(size, u);
    assert(whole * u <= size && size <= (whole + 1) * u && whole >= 0) by (nonlinear_arith)
        requires
            size == u * whole + size % u,
            0 <= size % u < u,
            size >= 0,
            u > 0,
    {
        if whole < 0 {
            assert(u * whole <= -u);
        }
    }
    lemma_cut_off(size, whole, x * y, z, u);
}

proof fn lemma_quotient_parts(q: int, p: int, a: int, b: int, d: int, x: int, y: int, z: int, u: int)
    requires
        near(a, x * u, 1),
        near(b, y * u, 1),
        near(d, z * u, 1),
        near(p * u, a * b, 1),
        near(q * d, p * u, 1),
        q >= 0,
        p >= 0,
        a >= 0,
        b >= 0,
        d >= 0,
        x >= 0,
        y >= 0,
        z >= 0,
        u > 0,
    ensures
        near(q * z, (x * y) * u, 9),
{
    assert(x * u >= 0 && y * u >= 0 && z * u >= 0 && q * d >= 0 && p * u >= 0 && x * y >= 0) by (nonlinear_arith)
        requires
            x >= 0,
            y >= 0,
            z >= 0,
            q >= 0,
            d >= 0,
            p >= 0,
            u > 0,
    ;
    float_near::law_near_multiplies(a, x * u, b, y * u, 1, 1);
    let exact = (x * u) * (y * u);
    assert(exact >= 0 && exact == ((x * y) * u) * u) by (nonlinear_arith)
        requires
            exact == (x * u) * (y * u),
            x * u >= 0,
            y * u >= 0,
    ;
    float_near::law_near_chains(p * u, a * b, exact, 1, 3);
    float_near::law_near_scales(d, z * u, q, 1);
    assert(d * q == q * d && (z * u) * q == (q * z) * u) by (nonlinear_arith);
    let left = (q * z) * u;
    assert(left >= 0) by (nonlinear_arith)
        requires
            left == (z * u) * q,
            z * u >= 0,
            q >= 0,
    ;
    float_near::law_near_chains(left, q * d, p * u, 1, 1);
    float_near::law_near_chains(left, p * u, exact, 3, 5);
    float_near::law_near_cancels(q * z, (x * y) * u, u, 9);
}

proof fn lemma_cut_off(q: int, w: int, n: int, z: int, u: int)
    requires
        near(q * z, n * u, 9),
        w * u <= q <= (w + 1) * u,
        w >= 0,
        z >= 0,
        n >= 0,
        u > 0,
    ensures
        (w * z) * FULL <= n * (FULL + 9),
        n * FULL <= ((w + 1) * z) * (FULL + 9),
{
    let e = FULL as int;
    assert((w * u) * z <= q * z && q * z <= ((w + 1) * u) * z) by (nonlinear_arith)
        requires
            w * u <= q <= (w + 1) * u,
            z >= 0,
    ;
    let (low, high) = ((w * z) * e, n * (e + 9));
    assert(low * u <= high * u) by (nonlinear_arith)
        requires
            low == (w * z) * e,
            high == n * (e + 9),
            (w * u) * z <= q * z,
            (q * z) * e <= (n * u) * (e + 9),
            e > 0,
    {
        assert(low * u == ((w * u) * z) * e);
        assert(((w * u) * z) * e <= (q * z) * e);
        assert(high * u == (n * u) * (e + 9));
    }
    assert(low <= high) by (nonlinear_arith)
        requires
            low * u <= high * u,
            u > 0,
    ;
    let (least, most) = (n * e, ((w + 1) * z) * (e + 9));
    assert(least * u <= most * u) by (nonlinear_arith)
        requires
            least == n * e,
            most == ((w + 1) * z) * (e + 9),
            q * z <= ((w + 1) * u) * z,
            (n * u) * e <= (q * z) * (e + 9),
            e > 0,
    {
        assert(least * u == (n * u) * e);
        assert((q * z) * (e + 9) <= (((w + 1) * u) * z) * (e + 9));
        assert(most * u == (((w + 1) * u) * z) * (e + 9));
    }
    assert(least <= most) by (nonlinear_arith)
        requires
            least * u <= most * u,
            u > 0,
    ;
}

} // verus!
