//! What rounding does to the values of an interpolant: they stay between the
//! values of the neighbouring knots, as far as rounding goes.

use vstd::arithmetic::power2::{lemma_pow2_adds, lemma_pow2_pos, lemma_pow2_strictly_increases, pow2};
use vstd::prelude::*;

use crate::curve_engine::shape;
use crate::curve_engine::spline;
use crate::curve_engine::spline::{Knot, Place};
use crate::float_bits;
use crate::float_bits::{F64Bits, MINUS_TWO, ONE, THREE, TWO};
use crate::float_error;
use crate::float_error::{within, FULL};
use crate::float_math;
use crate::float_order;
use crate::float_round;

verus! {

/// The weight of the left value.
pub open spec fn left_weight(t: F64Bits) -> F64Bits {
    let t2 = float_math::product(t, t);
    let t3 = float_math::product(t2, t);
    float_math::sum(
        float_math::difference(
            float_math::product(F64Bits(TWO), t3),
            float_math::product(F64Bits(THREE), t2),
        ),
        F64Bits(ONE),
    )
}

/// The weight of the left tangent.
pub open spec fn left_slope_weight(t: F64Bits) -> F64Bits {
    let t2 = float_math::product(t, t);
    let t3 = float_math::product(t2, t);
    float_math::sum(float_math::difference(t3, float_math::product(F64Bits(TWO), t2)), t)
}

/// The weight of the right value.
pub open spec fn right_weight(t: F64Bits) -> F64Bits {
    let t2 = float_math::product(t, t);
    let t3 = float_math::product(t2, t);
    float_math::sum(
        float_math::product(F64Bits(MINUS_TWO), t3),
        float_math::product(F64Bits(THREE), t2),
    )
}

/// The weight of the right tangent.
pub open spec fn right_slope_weight(t: F64Bits) -> F64Bits {
    let t2 = float_math::product(t, t);
    let t3 = float_math::product(t2, t);
    float_math::difference(t3, t2)
}

/// Whether a float is a weight `n / u^3` up to 64 parts in `2^52` of one.
pub open spec fn weighs(f: F64Bits, n: int) -> bool {
    let u = float_math::unit();
    &&& float_bits::finite(f)
    &&& within((float_math::value(f) * (u * u) - n) * FULL, 64 * (u * u * u))
    &&& within(float_math::value(f), 2 * u)
}

/// The unit against the precision of floats.
proof fn lemma_unit()
    ensures
        float_math::unit() >= 0x1_0000_0000_0000_0000_0000,
        float_error::cap() >= 0x1_0000_0000_0000_0000,
        float_math::size(F64Bits(ONE)) == float_math::unit(),
        float_math::value(F64Bits(ONE)) == float_math::unit(),
        float_math::size(F64Bits(TWO)) == 2 * float_math::unit(),
        float_math::value(F64Bits(TWO)) == 2 * float_math::unit(),
        float_math::size(F64Bits(THREE)) == 3 * float_math::unit(),
        float_math::value(F64Bits(THREE)) == 3 * float_math::unit(),
        float_math::size(F64Bits(MINUS_TWO)) == 2 * float_math::unit(),
        float_math::value(F64Bits(MINUS_TWO)) == -2 * float_math::unit(),
{
    vstd::arithmetic::power2::lemma2_to64();
    lemma_pow2_adds(64, 16);
    lemma_pow2_strictly_increases(80, 1074);
    lemma_pow2_strictly_increases(64, 1023);
    vstd::arithmetic::power2::lemma2_to64_rest();
    float_math::lemma_one();
    float_math::lemma_two();
    float_round::lemma_multiple(1023, 0x18_0000_0000_0000);
    lemma_pow2_adds(51, 1023);
    let p = pow2(1023) as int;
    assert(0x18_0000_0000_0000 * p == 3 * (0x8_0000_0000_0000 * p)) by (nonlinear_arith);
}

/// A small multiple of a float of at most two.
proof fn lemma_times(c: F64Bits, k: int, f: F64Bits)
    requires
        float_bits::finite(c),
        float_math::value(c) == k * float_math::unit(),
        float_math::size(c) <= 3 * float_math::unit(),
        -3 <= k <= 3,
        float_bits::finite(f),
        within(float_math::value(f), 2 * float_math::unit()),
    ensures
        float_bits::finite(float_math::product(c, f)),
        within(
            (float_math::value(float_math::product(c, f)) - k * float_math::value(f)) * FULL,
            7 * float_math::unit(),
        ),
{
    lemma_unit();
    let u = float_math::unit();
    let e = FULL as int;
    float_error::lemma_sizes(c);
    float_error::lemma_sizes(f);
    let (s, t) = (float_math::size(c), float_math::size(f));
    let uu = u * u;
    let b = s * t;
    assert(b <= 6 * uu) by (nonlinear_arith)
        requires
            b == s * t,
            0 <= s <= 3 * u,
            0 <= t <= 2 * u,
            uu == u * u,
    ;
    assert(6 * uu <= u * (u * float_error::cap())) by (nonlinear_arith)
        requires
            uu == u * u,
            u > 0,
            float_error::cap() >= 6,
    {
        assert(u * (u * float_error::cap()) == uu * float_error::cap());
        assert(uu > 0);
    }
    float_error::law_product_error(c, f);
    let p = float_math::value(float_math::product(c, f));
    let (x, v) = (float_math::value(c), float_math::value(f));
    assert(within((p - k * v) * e, 7 * u)) by (nonlinear_arith)
        requires
            within((p * u - x * v) * 2 * e, 2 * b + e * u),
            x == k * u,
            b <= 6 * uu,
            uu == u * u,
            e <= u,
            u > 0,
            e > 0,
    {
        let z = (p - k * v) * e;
        assert((p * u - x * v) * 2 * e == 2 * (u * z));
        assert(e * u <= u * u);
        assert(2 * (u * z) <= 13 * (u * u));
        assert(2 * (u * z) >= -13 * (u * u));
        assert(u * (2 * z) <= u * (13 * u));
        assert(u * (2 * z) >= u * (-13 * u));
        assert(2 * z <= 13 * u);
        assert(2 * z >= -13 * u);
    }
}

/// A sum of floats of moderate size.
proof fn lemma_plus(a: F64Bits, b: F64Bits, c: int)
    requires
        float_bits::finite(a),
        float_bits::finite(b),
        0 <= c <= 20,
        within(float_math::value(a) + float_math::value(b), c * float_math::unit()),
    ensures
        float_bits::finite(float_math::sum(a, b)),
        within(
            (float_math::value(float_math::sum(a, b)) - (float_math::value(a) + float_math::value(b))) * FULL,
            c * float_math::unit(),
        ),
        within(float_math::value(float_math::sum(a, b)), (c + 1) * float_math::unit()),
{
    lemma_unit();
    let u = float_math::unit();
    assert(c * u <= u * float_error::cap()) by (nonlinear_arith)
        requires
            0 <= c <= 20,
            u > 0,
            float_error::cap() >= 20,
    ;
    float_error::law_sum_error(a, b);
    let total = float_math::value(a) + float_math::value(b);
    let s = float_math::value(float_math::sum(a, b));
    let cu = c * u;
    assert((c + 1) * u == cu + u) by (nonlinear_arith)
        requires
            cu == c * u,
    ;
    assert(within(s - total, u)) by (nonlinear_arith)
        requires
            within((s - total) * FULL, cu),
            cu == c * u,
            0 <= c <= 20,
            u > 0,
            FULL == 0x10_0000_0000_0000,
    {
        assert(c * u <= 20 * u);
    }
}

/// The square of a fraction.
proof fn lemma_square(t: F64Bits)
    requires
        float_bits::finite(t),
        0 <= float_math::value(t) <= float_math::unit(),
    ensures
        ({
            let u = float_math::unit();
            let x = float_math::value(t);
            let f = float_math::product(t, t);
            &&& float_bits::finite(f)
            &&& within((float_math::value(f) * u - x * x) * FULL, 2 * (u * u))
            &&& within(float_math::value(f), 2 * u)
        }),
{
    lemma_unit();
    let u = float_math::unit();
    let e = FULL as int;
    let x = float_math::value(t);
    float_error::lemma_sizes(t);
    let s = float_math::size(t);
    assert(s * s == x * x) by (nonlinear_arith)
        requires
            x == s || x == -s,
    ;
    let xx = x * x;
    let uu = u * u;
    assert(0 <= xx <= uu && uu <= u * (u * float_error::cap())) by (nonlinear_arith)
        requires
            xx == x * x,
            uu == u * u,
            0 <= x <= u,
            u > 0,
            float_error::cap() >= 1,
    {
        assert(u * (u * float_error::cap()) == uu * float_error::cap());
    }
    float_error::law_product_error(t, t);
    let v = float_math::value(float_math::product(t, t));
    assert(within((v * u - xx) * e, 2 * uu)) by (nonlinear_arith)
        requires
            within((v * u - xx) * 2 * e, 2 * xx + e * u),
            xx <= uu,
            uu == u * u,
            e <= u,
            u > 0,
    {
        assert(e * u <= u * u);
    }
    assert(within(v, 2 * u)) by (nonlinear_arith)
        requires
            within((v * u - xx) * e, 2 * uu),
            0 <= xx <= uu,
            uu == u * u,
            u > 0,
            e == 0x10_0000_0000_0000,
    {
        assert(v * u <= 2 * uu);
        assert(v * u >= -uu);
        assert(u * v <= u * (2 * u));
        assert(u * v >= u * (-u));
    }
}

/// The cube of a fraction.
proof fn lemma_cube(t: F64Bits)
    requires
        float_bits::finite(t),
        0 <= float_math::value(t) <= float_math::unit(),
    ensures
        ({
            let u = float_math::unit();
            let x = float_math::value(t);
            let f = float_math::product(float_math::product(t, t), t);
            &&& float_bits::finite(f)
            &&& within((float_math::value(f) * (u * u) - x * x * x) * FULL, 5 * (u * u * u))
            &&& within(float_math::value(f), 2 * u)
        }),
{
    lemma_unit();
    lemma_square(t);
    let u = float_math::unit();
    let e = FULL as int;
    let x = float_math::value(t);
    let t2 = float_math::product(t, t);
    let v2 = float_math::value(t2);
    float_error::lemma_sizes(t);
    float_error::lemma_sizes(t2);
    let b = float_math::size(t2) * float_math::size(t);
    let uu = u * u;
    assert(0 <= b <= 2 * uu) by (nonlinear_arith)
        requires
            b == float_math::size(t2) * float_math::size(t),
            0 <= float_math::size(t2) <= 2 * u,
            0 <= float_math::size(t) <= u,
            uu == u * u,
    ;
    assert(2 * uu <= u * (u * float_error::cap())) by (nonlinear_arith)
        requires
            uu == u * u,
            u > 0,
            float_error::cap() >= 2,
    {
        assert(u * (u * float_error::cap()) == uu * float_error::cap());
        assert(uu > 0);
    }
    float_error::law_product_error(t2, t);
    let v = float_math::value(float_math::product(t2, t));
    let near = v * u - v2 * x;
    let below = v2 * u - x * x;
    assert(within(near * e, 3 * uu)) by (nonlinear_arith)
        requires
            within(near * 2 * e, 2 * b + e * u),
            b <= 2 * uu,
            uu == u * u,
            e <= u,
            u > 0,
    {
        assert(e * u <= u * u);
    }
    lemma_cube_parts(v, v2, x, u, near, below, e);
}

proof fn lemma_cube_parts(v: int, v2: int, x: int, u: int, near: int, below: int, e: int)
    requires
        near == v * u - v2 * x,
        below == v2 * u - x * x,
        within(near * e, 3 * (u * u)),
        within(below * e, 2 * (u * u)),
        0 <= x <= u,
        u > 0,
        e == 0x10_0000_0000_0000,
    ensures
        within((v * (u * u) - x * x * x) * e, 5 * (u * u * u)),
        within(v, 2 * u),
{
    let uu = u * u;
    let uuu = u * u * u;
    let cube = x * x * x;
    assert(u * near == v * uu - v2 * x * u) by (nonlinear_arith)
        requires
            near == v * u - v2 * x,
            uu == u * u,
    ;
    assert(x * below == v2 * x * u - cube) by (nonlinear_arith)
        requires
            below == v2 * u - x * x,
            cube == x * x * x,
    ;
    let whole = v * uu - cube;
    assert(whole * e == u * (near * e) + x * (below * e)) by (nonlinear_arith)
        requires
            whole == u * near + x * below,
    ;
    let (m, n) = (near * e, below * e);
    assert(within(u * m, 3 * uuu)) by (nonlinear_arith)
        requires
            within(m, 3 * uu),
            u > 0,
            uu == u * u,
            uuu == u * u * u,
    ;
    assert(within(x * n, 2 * uuu)) by (nonlinear_arith)
        requires
            within(n, 2 * uu),
            0 <= x <= u,
            uu == u * u,
            uuu == u * u * u,
    {
        assert(uu >= 0);
        assert(x * n <= x * (2 * uu));
        assert(x * n >= -(x * (2 * uu)));
        assert(x * (2 * uu) <= u * (2 * uu));
    }
    assert(0 <= cube <= uuu) by (nonlinear_arith)
        requires
            cube == x * x * x,
            uuu == u * u * u,
            0 <= x <= u,
    {
        assert(0 <= x * x <= u * u);
    }
    assert(within(v, 2 * u)) by (nonlinear_arith)
        requires
            within((v * uu - cube) * e, 5 * uuu),
            0 <= cube <= uuu,
            uu == u * u,
            uuu == u * u * u,
            u > 0,
            e == 0x10_0000_0000_0000,
    {
        assert(v * uu <= 2 * uuu);
        assert(v * uu >= -uuu);
        assert(uu > 0);
        assert(uu * v <= uu * (2 * u));
        assert(uu * v >= uu * (-u));
    }
}

/// From the error of a combination of powers to a weight.
proof fn lemma_weighs(f: F64Bits, n: int, err: int)
    requires
        float_bits::finite(f),
        ({
            let u = float_math::unit();
            within((float_math::value(f) * (u * u) - n) * FULL, err * (u * u * u))
        }),
        0 <= err <= 64,
        ({
            let u = float_math::unit();
            within(n, u * u * u)
        }),
    ensures
        weighs(f, n),
{
    lemma_unit();
    let u = float_math::unit();
    let v = float_math::value(f);
    let uuu = u * u * u;
    let uu = u * u;
    assert(uuu > 0 && uu > 0) by (nonlinear_arith)
        requires
            uuu == u * u * u,
            uu == u * u,
            u > 0,
    ;
    assert(err * uuu <= 64 * uuu) by (nonlinear_arith)
        requires
            err <= 64,
            uuu > 0,
    ;
    assert(within(v, 2 * u)) by (nonlinear_arith)
        requires
            within((v * uu - n) * FULL, 64 * uuu),
            within(n, uuu),
            uuu == uu * u,
            uu > 0,
            uuu > 0,
            FULL == 0x10_0000_0000_0000,
    {
        assert(v * uu <= 2 * uuu);
        assert(v * uu >= -2 * uuu);
        assert(uu * v <= uu * (2 * u));
        assert(uu * v >= uu * (-2 * u));
    }
}

/// How far the parts of the weights are off, on one scale.
proof fn lemma_scaled_parts(w: int, v: int, k: int, n: int, err: int, u: int)
    requires
        within((w - k * v) * FULL, 7 * u),
        within((v * (u * u) - n) * FULL, err * (u * u * u)),
        -3 <= k <= 3,
        0 <= err,
        u > 0,
    ensures
        within((w * (u * u) - k * n) * FULL, (7 + 3 * err) * (u * u * u)),
        k * k <= 4 ==> within((w * (u * u) - k * n) * FULL, (7 + 2 * err) * (u * u * u)),
{
    let uu = u * u;
    let uuu = u * u * u;
    let e = FULL as int;
    let (a, b) = ((w - k * v) * e, (v * uu - n) * e);
    assert((w * uu - k * n) * e == uu * a + k * b) by (nonlinear_arith)
        requires
            a == (w - k * v) * e,
            b == (v * uu - n) * e,
    ;
    assert(within(uu * a, 7 * uuu)) by (nonlinear_arith)
        requires
            within(a, 7 * u),
            uu == u * u,
            uuu == u * u * u,
            u > 0,
    {
        assert(uu > 0);
        assert(uu * a <= uu * (7 * u));
        assert(uu * a >= -(uu * (7 * u)));
    }
    let c = err * uuu;
    assert(c >= 0) by (nonlinear_arith)
        requires
            c == err * uuu,
            err >= 0,
            uuu == u * u * u,
            u > 0,
    ;
    assert(within(k * b, 3 * c) && (k * k <= 4 ==> within(k * b, 2 * c))) by (nonlinear_arith)
        requires
            within(b, c),
            -3 <= k <= 3,
            c >= 0,
    {
        assert(k == -3 || k == -2 || k == -1 || k == 0 || k == 1 || k == 2 || k == 3);
    }
    assert((7 + 3 * err) * uuu == 7 * uuu + 3 * c && (7 + 2 * err) * uuu == 7 * uuu + 2 * c)
        by (nonlinear_arith)
        requires
            c == err * uuu,
    ;
}

/// Adding two parts, on one scale.
proof fn lemma_added_parts(s: int, a: int, b: int, m: int, n: int, i: int, j: int, c: int, u: int)
    requires
        within((s - (a + b)) * FULL, c * u),
        within((a * (u * u) - m) * FULL, i * (u * u * u)),
        within((b * (u * u) - n) * FULL, j * (u * u * u)),
        u > 0,
        c >= 0,
    ensures
        within((s * (u * u) - (m + n)) * FULL, (i + j + c) * (u * u * u)),
{
    let uu = u * u;
    let uuu = u * u * u;
    let e = FULL as int;
    let z = (s - (a + b)) * e;
    assert((s * uu - (m + n)) * e == uu * z + (a * uu - m) * e + (b * uu - n) * e) by (nonlinear_arith)
        requires
            z == (s - (a + b)) * e,
    ;
    assert(within(uu * z, c * uuu)) by (nonlinear_arith)
        requires
            within(z, c * u),
            uu == u * u,
            uuu == u * u * u,
            u > 0,
    {
        assert(uu > 0);
        assert(uu * z <= uu * (c * u));
        assert(uu * z >= -(uu * (c * u)));
        assert(uu * (c * u) == c * uuu);
    }
    assert((i + j + c) * uuu == i * uuu + j * uuu + c * uuu) by (nonlinear_arith);
}

/// The other sign has the opposite value.
proof fn lemma_negated(f: F64Bits)
    requires
        float_bits::finite(f),
    ensures
        float_bits::finite(float_math::negated(f)),
        float_math::value(float_math::negated(f)) == -float_math::value(f),
{
}

/// A multiple of the square or the cube of a fraction: how large it is, and how
/// far it is off.
proof fn lemma_times_power(c: F64Bits, k: int, f: F64Bits, n: int, err: int)
    requires
        float_bits::finite(c),
        float_math::value(c) == k * float_math::unit(),
        float_math::size(c) <= 3 * float_math::unit(),
        -3 <= k <= 3,
        float_bits::finite(f),
        within(float_math::value(f), 2 * float_math::unit()),
        ({
            let u = float_math::unit();
            within((float_math::value(f) * (u * u) - n) * FULL, err * (u * u * u))
        }),
        0 <= err,
    ensures
        ({
            let u = float_math::unit();
            let w = float_math::value(float_math::product(c, f));
            &&& float_bits::finite(float_math::product(c, f))
            &&& within((w * (u * u) - k * n) * FULL, (7 + 3 * err) * (u * u * u))
            &&& k * k <= 4 ==> within((w * (u * u) - k * n) * FULL, (7 + 2 * err) * (u * u * u))
            &&& within(w, 7 * u)
            &&& k * k <= 4 ==> within(w, 5 * u)
        }),
{
    lemma_unit();
    lemma_times(c, k, f);
    let u = float_math::unit();
    let (w, v) = (float_math::value(float_math::product(c, f)), float_math::value(f));
    lemma_scaled_parts(w, v, k, n, err, u);
    assert(within(w - k * v, u)) by (nonlinear_arith)
        requires
            within((w - k * v) * FULL, 7 * u),
            u > 0,
            FULL == 0x10_0000_0000_0000,
    ;
    assert(within(k * v, 6 * u) && (k * k <= 4 ==> within(k * v, 4 * u))) by (nonlinear_arith)
        requires
            within(v, 2 * u),
            -3 <= k <= 3,
            u > 0,
    {
        assert(k == -3 || k == -2 || k == -1 || k == 0 || k == 1 || k == 2 || k == 3);
    }
}

/// The powers of a fraction, on one scale.
proof fn lemma_powers(t: F64Bits)
    requires
        float_bits::finite(t),
        0 <= float_math::value(t) <= float_math::unit(),
    ensures
        ({
            let u = float_math::unit();
            let x = float_math::value(t);
            let t2 = float_math::product(t, t);
            let t3 = float_math::product(t2, t);
            &&& float_bits::finite(t2)
            &&& float_bits::finite(t3)
            &&& within((float_math::value(t2) * (u * u) - x * x * u) * FULL, 2 * (u * u * u))
            &&& within((float_math::value(t3) * (u * u) - x * x * x) * FULL, 5 * (u * u * u))
            &&& within((x * (u * u) - x * u * u) * FULL, 0 * (u * u * u))
            &&& within(float_math::value(t2), 2 * u)
            &&& within(float_math::value(t3), 2 * u)
        }),
{
    lemma_unit();
    lemma_square(t);
    lemma_cube(t);
    let u = float_math::unit();
    let x = float_math::value(t);
    let v = float_math::value(float_math::product(t, t));
    let a = (v * u - x * x) * FULL;
    assert((v * (u * u) - x * x * u) * FULL == u * a) by (nonlinear_arith)
        requires
            a == (v * u - x * x) * FULL,
    ;
    assert(within(u * a, 2 * (u * u * u))) by (nonlinear_arith)
        requires
            within(a, 2 * (u * u)),
            u > 0,
    ;
    assert(x * (u * u) - x * u * u == 0) by (nonlinear_arith);
    assert(0 * (u * u * u) == 0);
}

/// The four weights of a fraction.
proof fn lemma_weights(t: F64Bits)
    requires
        float_bits::finite(t),
        0 <= float_math::value(t) <= float_math::unit(),
    ensures
        ({
            let u = float_math::unit();
            let x = float_math::value(t);
            let r = u - x;
            &&& weighs(left_weight(t), u * u * u - x * x * (3 * u - 2 * x))
            &&& weighs(left_slope_weight(t), x * (r * r))
            &&& weighs(right_weight(t), x * x * (3 * u - 2 * x))
            &&& weighs(right_slope_weight(t), -(x * x * r))
        }),
{
    lemma_unit();
    lemma_powers(t);
    let u = float_math::unit();
    let x = float_math::value(t);
    let r = u - x;
    let t2 = float_math::product(t, t);
    let t3 = float_math::product(t2, t);
    let (two, three, minus_two) = (F64Bits(TWO), F64Bits(THREE), F64Bits(MINUS_TWO));
    let (p2, p3) = (x * x * u, x * x * x);
    let uuu = u * u * u;
    lemma_weight_sizes(x, u);
    lemma_times_power(two, 2, t3, p3, 5);
    lemma_times_power(minus_two, -2, t3, p3, 5);
    lemma_times_power(three, 3, t2, p2, 2);
    lemma_times_power(two, 2, t2, p2, 2);
    let d3 = float_math::product(two, t3);
    let m3 = float_math::product(minus_two, t3);
    let c2 = float_math::product(three, t2);
    let d2 = float_math::product(two, t2);
    let (v2, v3, w3, n3, w2, y2) = (
        float_math::value(t2),
        float_math::value(t3),
        float_math::value(d3),
        float_math::value(m3),
        float_math::value(c2),
        float_math::value(d2),
    );
    lemma_negated(c2);
    lemma_negated(d2);
    lemma_negated(t2);
    lemma_opposite_part(w2, 3 * p2, 13, u);
    lemma_opposite_part(y2, 2 * p2, 11, u);
    lemma_opposite_part(v2, p2, 2, u);
    // The left value.
    let a = float_math::difference(d3, c2);
    lemma_plus(d3, float_math::negated(c2), 12);
    lemma_added_parts(float_math::value(a), w3, -w2, 2 * p3, -(3 * p2), 17, 13, 12, u);
    lemma_plus(a, F64Bits(ONE), 14);
    assert(within((u * (u * u) - uuu) * FULL, 0 * (u * u * u))) by {
        assert(u * (u * u) == u * u * u) by (nonlinear_arith);
        assert(0 * (u * u * u) == 0);
        assert(0 * FULL == 0);
    }
    lemma_added_parts(
        float_math::value(left_weight(t)),
        float_math::value(a),
        u,
        2 * p3 - 3 * p2,
        uuu,
        42,
        0,
        14,
        u,
    );
    lemma_weighs(left_weight(t), u * u * u - x * x * (3 * u - 2 * x), 56);
    // The left tangent.
    let b = float_math::difference(t3, d2);
    lemma_plus(t3, float_math::negated(d2), 7);
    lemma_added_parts(float_math::value(b), v3, -y2, p3, -(2 * p2), 5, 11, 7, u);
    lemma_plus(b, t, 9);
    lemma_added_parts(
        float_math::value(left_slope_weight(t)),
        float_math::value(b),
        x,
        p3 - 2 * p2,
        x * u * u,
        23,
        0,
        9,
        u,
    );
    lemma_weighs(left_slope_weight(t), x * (r * r), 32);
    // The right value.
    lemma_plus(m3, c2, 12);
    lemma_added_parts(float_math::value(right_weight(t)), n3, w2, -2 * p3, 3 * p2, 17, 13, 12, u);
    lemma_weighs(right_weight(t), x * x * (3 * u - 2 * x), 42);
    // The right tangent.
    lemma_plus(t3, float_math::negated(t2), 4);
    lemma_added_parts(float_math::value(right_slope_weight(t)), v3, -v2, p3, -p2, 5, 2, 4, u);
    lemma_weighs(right_slope_weight(t), -(x * x * r), 11);
}

/// The opposite of a part is off by as much.
proof fn lemma_opposite_part(v: int, n: int, err: int, u: int)
    requires
        within((v * (u * u) - n) * FULL, err * (u * u * u)),
    ensures
        within(((-v) * (u * u) - (-n)) * FULL, err * (u * u * u)),
{
    assert(((-v) * (u * u) - (-n)) * FULL == -((v * (u * u) - n) * FULL)) by (nonlinear_arith);
}

/// The exact weights in terms of powers, and their range.
proof fn lemma_weight_sizes(x: int, u: int)
    requires
        0 <= x <= u,
    ensures
        ({
            let r = u - x;
            let (p2, p3) = (x * x * u, x * x * x);
            let uuu = u * u * u;
            &&& u * u * u - x * x * (3 * u - 2 * x) == 2 * p3 - 3 * p2 + uuu
            &&& x * (r * r) == p3 - 2 * p2 + x * u * u
            &&& x * x * (3 * u - 2 * x) == -2 * p3 + 3 * p2
            &&& -(x * x * r) == p3 - p2
            &&& within(u * u * u - x * x * (3 * u - 2 * x), uuu)
            &&& within(x * (r * r), uuu)
            &&& within(x * x * (3 * u - 2 * x), uuu)
            &&& within(-(x * x * r), uuu)
        }),
{
    let r = u - x;
    let (p2, p3) = (x * x * u, x * x * x);
    let uuu = u * u * u;
    assert(x * x * (3 * u - 2 * x) == -2 * p3 + 3 * p2) by (nonlinear_arith)
        requires
            p2 == x * x * u,
            p3 == x * x * x,
    ;
    assert(x * (r * r) == p3 - 2 * p2 + x * u * u) by (nonlinear_arith)
        requires
            p2 == x * x * u,
            p3 == x * x * x,
            r == u - x,
    ;
    assert(-(x * x * r) == p3 - p2) by (nonlinear_arith)
        requires
            p2 == x * x * u,
            p3 == x * x * x,
            r == u - x,
    ;
    shape::law_slopes_within_three_never_overshoot(x, u, 0, 0, 1);
    assert(shape::rise_at(x, u, 0, 0, 1) == x * x * (3 * u - 2 * x)) by {
        assert(0 * (x * ((u - x) * (u - x))) == 0);
        assert(0 * (x * x * (u - x)) == 0);
    }
    shape::lemma_rise_parts(x, r);
    assert(uuu == (x + r) * (x + r) * (x + r));
    assert(x * (r * r) <= uuu && x * x * r <= uuu) by (nonlinear_arith)
        requires
            uuu == (x + r) * (x + r) * (x + r),
            x >= 0,
            r >= 0,
    {
        let (xx, rr) = (x * x, r * r);
        assert(xx * x >= 0 && rr * r >= 0 && x * rr >= 0 && xx * r >= 0);
        assert(uuu == xx * x + 3 * (xx * r) + 3 * (x * rr) + rr * r);
    }
}

/// `2^900`: widths and values up to it are far from overflow.
pub open spec fn large() -> int {
    pow2(900) as int
}

proof fn lemma_large()
    ensures
        0x1000 * large() <= float_error::cap(),
        large() >= 1,
{
    vstd::arithmetic::power2::lemma2_to64();
    lemma_pow2_adds(12, 900);
    lemma_pow2_strictly_increases(912, 1023);
    lemma_pow2_pos(900);
}

/// A weight times the value of a knot.
proof fn lemma_value_term(f: F64Bits, n: int, y: F64Bits)
    requires
        weighs(f, n),
        float_bits::finite(y),
        float_math::size(y) <= float_math::unit() * large(),
    ensures
        ({
            let u = float_math::unit();
            let p = float_math::value(float_math::product(f, y));
            let s = float_math::size(y);
            let all = u * u * u * u;
            &&& float_bits::finite(float_math::product(f, y))
            &&& within((p * all - n * (float_math::value(y) * u)) * (2 * FULL), all * (132 * s + FULL))
            &&& within(p, 3 * s + 1)
        }),
{
    lemma_unit();
    lemma_large();
    let u = float_math::unit();
    float_error::lemma_sizes(f);
    float_error::lemma_sizes(y);
    let (a, s) = (float_math::size(f), float_math::size(y));
    let b = a * s;
    assert(0 <= b <= 2 * u * s) by (nonlinear_arith)
        requires
            b == a * s,
            0 <= a <= 2 * u,
            s >= 0,
    ;
    assert(2 * u * s <= u * (u * float_error::cap())) by (nonlinear_arith)
        requires
            s <= u * large(),
            u > 0,
            2 * large() <= float_error::cap(),
    {
        assert(2 * s <= 2 * (u * large()));
        assert(2 * (u * large()) == u * (2 * large()));
        assert(u * (2 * large()) <= u * float_error::cap());
        assert(u * (2 * s) <= u * (u * float_error::cap()));
    }
    float_error::law_product_error(f, y);
    lemma_value_parts(
        float_math::value(float_math::product(f, y)),
        float_math::value(f),
        float_math::value(y),
        n,
        b,
        s,
        u,
    );
}

proof fn lemma_value_parts(p: int, f: int, y: int, n: int, b: int, s: int, u: int)
    requires
        within((p * u - f * y) * 2 * FULL, 2 * b + FULL * u),
        0 <= b <= 2 * u * s,
        within((f * (u * u) - n) * FULL, 64 * (u * u * u)),
        within(f, 2 * u),
        y == s || y == -s,
        s >= 0,
        u > 0,
    ensures
        ({
            let all = u * u * u * u;
            within((p * all - n * (y * u)) * (2 * FULL), all * (132 * s + FULL))
        }),
        within(p, 3 * s + 1),
{
    let e = FULL as int;
    let uuu = u * u * u;
    let all = u * u * u * u;
    assert(uuu > 0) by (nonlinear_arith)
        requires
            uuu == u * u * u,
            u > 0,
    ;
    let g = p * u - f * y;
    let h = f * (u * u) - n;
    assert(uuu * g == p * all - f * y * uuu) by (nonlinear_arith)
        requires
            g == p * u - f * y,
            uuu == u * u * u,
            all == u * u * u * u,
    ;
    assert((u * y) * h == f * y * uuu - n * (y * u)) by (nonlinear_arith)
        requires
            h == f * (u * u) - n,
            uuu == u * u * u,
    ;
    let whole = p * all - n * (y * u);
    let (ge, he) = (g * 2 * e, h * e);
    let uy = u * y;
    assert(whole * (2 * e) == uuu * ge + uy * (2 * he)) by (nonlinear_arith)
        requires
            whole == uuu * g + uy * h,
            ge == g * 2 * e,
            he == h * e,
    ;
    let us = u * s;
    assert(us >= 0) by (nonlinear_arith)
        requires
            us == u * s,
            u > 0,
            s >= 0,
    ;
    assert(2 * u * s == 2 * us) by (nonlinear_arith)
        requires
            us == u * s,
    ;
    assert(within(uuu * ge, uuu * (4 * us + e * u))) by (nonlinear_arith)
        requires
            within(ge, 2 * b + e * u),
            b <= 2 * us,
            uuu > 0,
    ;
    assert(uy == us || uy == -us) by (nonlinear_arith)
        requires
            uy == u * y,
            us == u * s,
            y == s || y == -s,
    ;
    assert(within(uy * (2 * he), us * (128 * uuu))) by (nonlinear_arith)
        requires
            within(he, 64 * uuu),
            uy == us || uy == -us,
            us >= 0,
    ;
    assert(uuu * (4 * us + e * u) + us * (128 * uuu) == all * (132 * s + e)) by (nonlinear_arith)
        requires
            us == u * s,
            all == uuu * u,
    {
        assert(uuu * us == all * s);
        assert(uuu * (4 * us) == 4 * (uuu * us));
        assert(us * (128 * uuu) == 128 * (uuu * us));
        assert(uuu * (e * u) == all * e);
    }
    // Its size.
    assert(within(f * y, 2 * us)) by (nonlinear_arith)
        requires
            within(f, 2 * u),
            y == s || y == -s,
            s >= 0,
            us == u * s,
    ;
    assert(within(p, 3 * s + 1)) by (nonlinear_arith)
        requires
            within((p * u - f * y) * 2 * e, 4 * us + e * u),
            within(f * y, 2 * us),
            us == u * s,
            us >= 0,
            s >= 0,
            u > 0,
            e == 0x10_0000_0000_0000,
    {
        let z = p * u - f * y;
        assert(2 * z <= us + u);
        assert(2 * z >= -(us + u));
        assert(2 * (p * u) <= 5 * us + u);
        assert(2 * (p * u) >= -(5 * us + u));
        assert(u * (2 * p) <= u * (5 * s + 1));
        assert(u * (2 * p) >= u * (-(5 * s + 1)));
    }
}

/// A weight times the width of a segment times a tangent.
proof fn lemma_tangent_term(f: F64Bits, n: int, h: F64Bits, l: F64Bits, s: int)
    requires
        weighs(f, n),
        float_bits::finite(h),
        !float_bits::signed(h),
        FULL <= float_math::size(h) <= float_math::unit() * large(),
        float_bits::finite(l),
        float_math::size(h) * float_math::size(l) <= 4 * s * float_math::unit(),
        0 <= s <= float_math::unit() * (2 * large()),
    ensures
        ({
            let u = float_math::unit();
            let z = float_math::product(f, h);
            let p = float_math::value(float_math::product(z, l));
            let all = u * u * u * u;
            let exact = n * (float_math::size(h) * float_math::value(l));
            &&& float_bits::finite(float_math::product(z, l))
            &&& within((p * all - exact) * (2 * FULL), all * (556 * s + FULL))
            &&& within(p, 16 * s + 1)
        }),
{
    lemma_unit();
    lemma_large();
    let u = float_math::unit();
    let e = FULL as int;
    float_error::lemma_sizes(f);
    float_error::lemma_sizes(h);
    float_error::lemma_sizes(l);
    let z = float_math::product(f, h);
    let (a, w, t) = (float_math::size(f), float_math::size(h), float_math::size(l));
    let b = a * w;
    assert(0 <= b <= 2 * u * w) by (nonlinear_arith)
        requires
            b == a * w,
            0 <= a <= 2 * u,
            w >= 0,
    ;
    assert(2 * u * w <= u * (u * float_error::cap())) by (nonlinear_arith)
        requires
            w <= u * large(),
            u > 0,
            2 * large() <= float_error::cap(),
    {
        assert(2 * (u * large()) == u * (2 * large()));
        assert(u * (2 * large()) <= u * float_error::cap());
        assert(u * (2 * w) <= u * (u * float_error::cap()));
    }
    float_error::law_product_error(f, h);
    let (x, v) = (float_math::value(z), float_math::value(f));
    lemma_width_parts(x, v, w, n, b, u);
    float_error::lemma_sizes(z);
    let c = float_math::size(z) * t;
    let wt = w * t;
    assert(0 <= c <= 3 * wt) by (nonlinear_arith)
        requires
            c == float_math::size(z) * t,
            0 <= float_math::size(z) <= 3 * w,
            t >= 0,
            wt == w * t,
    ;
    assert(3 * wt <= u * (u * float_error::cap())) by (nonlinear_arith)
        requires
            wt <= 4 * s * u,
            s <= u * (2 * large()),
            u > 0,
            0x1000 * large() <= float_error::cap(),
            large() >= 1,
    {
        assert(s * u <= (u * (2 * large())) * u);
        assert((u * (2 * large())) * u == (u * u) * (2 * large()));
        assert(u * u > 0);
        assert(3 * wt <= (u * u) * (24 * large()));
        assert((u * u) * (24 * large()) <= (u * u) * float_error::cap());
        assert(u * (u * float_error::cap()) == (u * u) * float_error::cap());
    }
    float_error::law_product_error(z, l);
    lemma_tangent_parts(
        float_math::value(float_math::product(z, l)),
        x,
        float_math::value(l),
        t,
        w,
        n,
        c,
        s,
        u,
    );
}

proof fn lemma_width_parts(z: int, f: int, w: int, n: int, b: int, u: int)
    requires
        within((z * u - f * w) * 2 * FULL, 2 * b + FULL * u),
        0 <= b <= 2 * u * w,
        within((f * (u * u) - n) * FULL, 64 * (u * u * u)),
        within(f, 2 * u),
        FULL <= w,
        u > 0,
    ensures
        within((z * (u * u * u) - n * w) * (2 * FULL), 133 * (u * u * u) * w),
        within(z, 3 * w),
{
    let e = FULL as int;
    let uu = u * u;
    let uuu = u * u * u;
    let uw = u * w;
    assert(uw > 0 && uu > 0 && e * u <= uw && 2 * u * w == 2 * uw) by (nonlinear_arith)
        requires
            uw == u * w,
            uu == u * u,
            w >= e,
            u > 0,
            e == 0x10_0000_0000_0000,
    ;
    let g = z * u - f * w;
    let h = f * uu - n;
    assert(uu * g == z * uuu - f * w * uu) by (nonlinear_arith)
        requires
            g == z * u - f * w,
            uu == u * u,
            uuu == u * u * u,
    ;
    assert(w * h == f * w * uu - n * w) by (nonlinear_arith)
        requires
            h == f * uu - n,
    ;
    let whole = z * uuu - n * w;
    let (ge, he) = (g * 2 * e, h * e);
    assert(whole * (2 * e) == uu * ge + w * (2 * he)) by (nonlinear_arith)
        requires
            whole == uu * g + w * h,
            ge == g * 2 * e,
            he == h * e,
    ;
    assert(within(uu * ge, uu * (5 * uw))) by (nonlinear_arith)
        requires
            within(ge, 5 * uw),
            uu > 0,
    ;
    assert(within(w * (2 * he), w * (128 * uuu))) by (nonlinear_arith)
        requires
            within(he, 64 * uuu),
            w > 0,
    ;
    assert(uu * (5 * uw) + w * (128 * uuu) == 133 * uuu * w) by (nonlinear_arith)
        requires
            uw == u * w,
            uu == u * u,
            uuu == u * u * u,
    {
        assert(uu * uw == uuu * w);
        assert(uu * (5 * uw) == 5 * (uu * uw));
        assert(w * (128 * uuu) == 128 * (uuu * w));
    }
    assert(within(f * w, 2 * uw)) by (nonlinear_arith)
        requires
            within(f, 2 * u),
            w > 0,
            uw == u * w,
    ;
    assert(within(z, 3 * w)) by (nonlinear_arith)
        requires
            within((z * u - f * w) * 2 * e, 5 * uw),
            within(f * w, 2 * uw),
            uw == u * w,
            uw > 0,
            u > 0,
            e == 0x10_0000_0000_0000,
    {
        let d = z * u - f * w;
        assert(d <= uw);
        assert(d >= -uw);
        assert(u * z <= u * (3 * w));
        assert(u * z >= u * (-3 * w));
    }
}

proof fn lemma_tangent_parts(p: int, z: int, l: int, t: int, w: int, n: int, c: int, s: int, u: int)
    requires
        within((p * u - z * l) * 2 * FULL, 2 * c + FULL * u),
        0 <= c <= 3 * (w * t),
        within((z * (u * u * u) - n * w) * (2 * FULL), 133 * (u * u * u) * w),
        within(z, 3 * w),
        l == t || l == -t,
        t >= 0,
        w > 0,
        w * t <= 4 * s * u,
        s >= 0,
        u > 0,
    ensures
        ({
            let all = u * u * u * u;
            within((p * all - n * (w * l)) * (2 * FULL), all * (556 * s + FULL))
        }),
        within(p, 16 * s + 1),
{
    let e = FULL as int;
    let uuu = u * u * u;
    let all = u * u * u * u;
    let wt = w * t;
    assert(uuu > 0 && wt >= 0) by (nonlinear_arith)
        requires
            uuu == u * u * u,
            u > 0,
            wt == w * t,
            w > 0,
            t >= 0,
    ;
    let g = p * u - z * l;
    let h = z * uuu - n * w;
    assert(uuu * g == p * all - z * l * uuu) by (nonlinear_arith)
        requires
            g == p * u - z * l,
            uuu == u * u * u,
            all == u * u * u * u,
    ;
    assert(l * h == z * l * uuu - n * (w * l)) by (nonlinear_arith)
        requires
            h == z * uuu - n * w,
    ;
    let whole = p * all - n * (w * l);
    let (ge, he) = (g * 2 * e, h * (2 * e));
    assert(whole * (2 * e) == uuu * ge + l * he) by (nonlinear_arith)
        requires
            whole == uuu * g + l * h,
            ge == g * 2 * e,
            he == h * (2 * e),
    ;
    assert(within(uuu * ge, uuu * (6 * wt + e * u))) by (nonlinear_arith)
        requires
            within(ge, 2 * c + e * u),
            c <= 3 * wt,
            uuu > 0,
    ;
    let k = 133 * uuu * w;
    assert(k >= 0) by (nonlinear_arith)
        requires
            k == 133 * uuu * w,
            uuu > 0,
            w > 0,
    ;
    assert(within(l * he, t * k)) by (nonlinear_arith)
        requires
            within(he, k),
            l == t || l == -t,
            t >= 0,
            k >= 0,
    ;
    assert(t * k == 133 * (uuu * wt)) by (nonlinear_arith)
        requires
            k == 133 * uuu * w,
            wt == w * t,
    ;
    assert(uuu * (6 * wt + e * u) == 6 * (uuu * wt) + all * e) by (nonlinear_arith)
        requires
            all == uuu * u,
    ;
    let su = s * u;
    assert(4 * s * u == 4 * su) by (nonlinear_arith)
        requires
            su == s * u,
    ;
    assert(uuu * wt <= 4 * (all * s)) by (nonlinear_arith)
        requires
            wt <= 4 * su,
            su == s * u,
            all == uuu * u,
            uuu > 0,
    {
        assert(uuu * wt <= uuu * (4 * su));
        assert(uuu * (4 * su) == 4 * (all * s));
    }
    assert(all * (556 * s + e) == 556 * (all * s) + all * e) by (nonlinear_arith);
    // Its size.
    assert(within(z * l, 3 * wt)) by (nonlinear_arith)
        requires
            within(z, 3 * w),
            l == t || l == -t,
            t >= 0,
            wt == w * t,
    ;
    assert(within(p, 16 * s + 1)) by (nonlinear_arith)
        requires
            within((p * u - z * l) * 2 * e, 6 * wt + e * u),
            within(z * l, 3 * wt),
            0 <= wt <= 4 * su,
            su == s * u,
            u > 0,
            s >= 0,
            e == 0x10_0000_0000_0000,
    {
        let d = p * u - z * l;
        assert(2 * d <= 2 * wt + u);
        assert(2 * d >= -(2 * wt + u));
        assert(2 * (p * u) <= 8 * wt + u);
        assert(2 * (p * u) >= -(8 * wt + u));
        assert(u * (2 * p) <= u * (32 * s + 1));
        assert(u * (2 * p) >= u * (-(32 * s + 1)));
    }
}

/// A sum of what is bounded by the values of two knots.
proof fn lemma_bounded_sum(a: F64Bits, b: F64Bits, k: int, j: int, s: int)
    requires
        float_bits::finite(a),
        float_bits::finite(b),
        within(float_math::value(a) + float_math::value(b), k * s + j),
        0 <= k <= 64,
        0 <= j <= 64,
        0 <= s <= float_math::unit() * (2 * large()),
    ensures
        float_bits::finite(float_math::sum(a, b)),
        within(
            (float_math::value(float_math::sum(a, b)) - (float_math::value(a) + float_math::value(b))) * FULL,
            k * s + j,
        ),
        within(float_math::value(float_math::sum(a, b)), (k + 1) * s + j + 1),
{
    lemma_unit();
    lemma_large();
    let u = float_math::unit();
    let ks = k * s;
    assert(0 <= ks <= 64 * s && (k + 1) * s == ks + s) by (nonlinear_arith)
        requires
            ks == k * s,
            0 <= k <= 64,
            s >= 0,
    ;
    assert(64 * s + 64 <= u * float_error::cap()) by (nonlinear_arith)
        requires
            s <= u * (2 * large()),
            0x1000 * large() <= float_error::cap(),
            large() >= 1,
            u >= 64,
    {
        assert(u * (0x1000 * large()) <= u * float_error::cap());
        assert(u * large() >= u);
        assert(64 * s <= 128 * (u * large()));
    }
    float_error::law_sum_error(a, b);
    let total = float_math::value(a) + float_math::value(b);
    let v = float_math::value(float_math::sum(a, b));
    assert(within((v - total) * FULL, ks + j));
    assert(within(v - total, s + 1)) by (nonlinear_arith)
        requires
            within((v - total) * FULL, ks + j),
            ks <= 64 * s,
            j <= 64,
            s >= 0,
            FULL == 0x10_0000_0000_0000,
    ;
}

/// The sum of the four terms of a cubic.
proof fn lemma_four_terms(a: F64Bits, b: F64Bits, c: F64Bits, d: F64Bits, s: int)
    requires
        float_bits::finite(a),
        float_bits::finite(b),
        float_bits::finite(c),
        float_bits::finite(d),
        within(float_math::value(a), 3 * s + 1),
        within(float_math::value(b), 16 * s + 1),
        within(float_math::value(c), 3 * s + 1),
        within(float_math::value(d), 16 * s + 1),
        0 <= s <= float_math::unit() * (2 * large()),
    ensures
        ({
            let y = float_math::sum(float_math::sum(float_math::sum(a, b), c), d);
            let exact = float_math::value(a) + float_math::value(b) + float_math::value(c) + float_math::value(d);
            &&& float_bits::finite(y)
            &&& within((float_math::value(y) - exact) * (2 * FULL), 164 * s + 24)
        }),
{
    let x1 = float_math::sum(a, b);
    let x2 = float_math::sum(x1, c);
    let y = float_math::sum(x2, d);
    lemma_bounded_sum(a, b, 19, 2, s);
    lemma_bounded_sum(x1, c, 23, 4, s);
    lemma_bounded_sum(x2, d, 40, 6, s);
    let (va, vb, vc, vd) = (
        float_math::value(a),
        float_math::value(b),
        float_math::value(c),
        float_math::value(d),
    );
    let (v1, v2, v) = (float_math::value(x1), float_math::value(x2), float_math::value(y));
    let (e1, e2, e3) = (v1 - (va + vb), v2 - (v1 + vc), v - (v2 + vd));
    assert((v - (va + vb + vc + vd)) * (2 * FULL) == 2 * (e1 * FULL) + 2 * (e2 * FULL) + 2 * (e3 * FULL))
        by (nonlinear_arith)
        requires
            e1 == v1 - (va + vb),
            e2 == v2 - (v1 + vc),
            e3 == v - (v2 + vd),
    ;
}

/// Whether the numbers of a segment neither overflow nor lose precision near
/// zero: its width, its secant and the values at its ends.
pub open spec fn plain_segment(knots: Seq<Knot>, k: int) -> bool {
    let h = float_math::difference(knots[k + 1].x, knots[k].x);
    let d = spline::secant(knots, k);
    &&& float_bits::finite(h)
    &&& FULL <= float_bits::mag(h)
    &&& float_math::size(h) <= float_math::unit() * large()
    &&& float_math::zero(d) || FULL <= float_bits::mag(d)
    &&& float_math::size(knots[k].y) <= float_math::unit() * large()
    &&& float_math::size(knots[k + 1].y) <= float_math::unit() * large()
}

/// The width of a segment and how far a query is through it.
proof fn lemma_fraction(a: F64Bits, b: F64Bits, x: F64Bits)
    requires
        float_bits::finite(a),
        float_bits::finite(b),
        float_bits::less(a, x),
        float_bits::less(x, b),
        float_bits::finite(float_math::difference(b, a)),
    ensures
        ({
            let h = float_math::difference(b, a);
            let t = float_math::quotient(float_math::difference(x, a), h);
            &&& !float_bits::signed(h)
            &&& !float_math::zero(h)
            &&& float_bits::finite(t)
            &&& 0 <= float_math::value(t) <= float_math::unit()
        }),
{
    lemma_unit();
    let u = float_math::unit();
    let h = float_math::difference(b, a);
    let g = float_math::difference(x, a);
    lemma_positive_difference(b, a);
    lemma_positive_difference(x, a);
    float_order::law_sum_keeps_order(x, b, float_math::negated(a));
    let t = float_math::quotient(g, h);
    float_error::lemma_sizes(g);
    float_error::lemma_sizes(h);
    let (m, n) = (float_math::size(g), float_math::size(h));
    if float_bits::mag(g) < float_bits::mag(h) {
        float_round::lemma_multiple_ascends(float_bits::mag(g), float_bits::mag(h));
    }
    reveal(float_math::quotient);
    float_round::law_nearest_exists(m * u, n);
    assert((m * u) * 1 <= u * n) by (nonlinear_arith)
        requires
            m <= n,
            u > 0,
    ;
    float_round::law_rounding_keeps_order(m * u, n, u, 1);
    float_math::lemma_one();
    let q = float_round::rounded(m * u, n);
    if q < ONE {
        float_round::lemma_multiple_ascends(q, ONE as int);
    }
    float_error::lemma_sizes(t);
}

/// The difference to a smaller number is above zero.
proof fn lemma_positive_difference(b: F64Bits, a: F64Bits)
    requires
        float_bits::finite(a),
        float_bits::finite(b),
        float_bits::less(a, b),
    ensures
        !float_bits::signed(float_math::difference(b, a)),
        !float_math::zero(float_math::difference(b, a)),
        !float_bits::nan(float_math::difference(b, a)),
{
    reveal(float_math::sum);
    float_order::lemma_value_steps(a, b);
    let total = float_math::value(b) - float_math::value(a);
    float_round::law_nearest_exists(total, 1);
    float_math::lemma_small_multiples();
    float_math::lemma_rounded_exact(1);
    float_round::law_rounding_keeps_order(1, 1, total, 1);
}

/// A quotient by a width has the sign of what is divided, and multiplied back it
/// is larger by one part in `2^52` at most.
proof fn lemma_secant_parts(dy: F64Bits, h: F64Bits)
    requires
        float_bits::finite(dy),
        float_bits::finite(h),
        !float_bits::signed(h),
        !float_math::zero(h),
        FULL <= float_bits::mag(float_math::quotient(dy, h)),
    ensures
        !float_math::zero(dy),
        float_bits::signed(float_math::quotient(dy, h)) == float_bits::signed(dy),
        float_math::size(float_math::quotient(dy, h)) * float_math::size(h) * FULL <= float_math::size(dy)
            * float_math::unit() * (FULL + 1),
{
    reveal(float_math::quotient);
    lemma_unit();
    let u = float_math::unit();
    let (w, s) = (float_math::size(h), float_math::size(dy));
    float_error::lemma_sizes(h);
    float_error::lemma_sizes(dy);
    float_round::law_nearest_exists(s * u, w);
    if float_math::zero(dy) {
        assert(0 * u == 0);
        float_math::lemma_rounded_nothing(w);
    }
    float_error::law_rounding_adds_little(s * u, w);
}

/// The width of a segment times one of its tangents is at most three times the
/// rise between its ends, as far as rounding goes.
proof fn lemma_steepness(knots: Seq<Knot>, k: int, l: F64Bits)
    requires
        0 <= k < knots.len() - 1,
        spline::strictly_right(knots),
        plain_segment(knots, k),
        shape::follows(l, spline::secant(knots, k), shape::SHARE as int),
    ensures
        ({
            let u = float_math::unit();
            let h = float_math::difference(knots[k + 1].x, knots[k].x);
            let rise = float_math::value(knots[k + 1].y) - float_math::value(knots[k].y);
            let up = if rise < 0 {
                -rise
            } else {
                rise
            };
            let product = float_math::size(h) * float_math::size(l);
            &&& product * STEEP <= (3 * STEEP + 1) * (up * u)
            &&& rise >= 0 ==> float_math::value(l) == float_math::size(l)
            &&& rise < 0 ==> float_math::value(l) == -float_math::size(l)
        }),
{
    lemma_unit();
    lemma_large();
    let u = float_math::unit();
    let (a, b) = (knots[k], knots[k + 1]);
    assert(spline::finite_knot(knots[k]) && spline::finite_knot(knots[k + 1]));
    assert(float_bits::less(knots[k].x, knots[k + 1].x));
    let h = float_math::difference(b.x, a.x);
    let d = spline::secant(knots, k);
    let dy = float_math::difference(b.y, a.y);
    lemma_positive_difference(b.x, a.x);
    float_error::lemma_sizes(h);
    float_error::lemma_sizes(l);
    float_error::lemma_sizes(a.y);
    float_error::lemma_sizes(b.y);
    lemma_negated(a.y);
    let rise = float_math::value(b.y) - float_math::value(a.y);
    let up = if rise < 0 {
        -rise
    } else {
        rise
    };
    assert(up <= u * float_error::cap()) by (nonlinear_arith)
        requires
            up <= float_math::size(a.y) + float_math::size(b.y),
            float_math::size(a.y) <= u * large(),
            float_math::size(b.y) <= u * large(),
            2 * large() <= float_error::cap(),
            u > 0,
    {
        assert(u * (2 * large()) <= u * float_error::cap());
    }
    float_error::law_sum_error(b.y, float_math::negated(a.y));
    float_error::lemma_sizes(dy);
    let (w, t, s) = (float_math::size(h), float_math::size(l), float_math::size(dy));
    let e = FULL as int;
    assert(s * e <= up * (e + 1)) by (nonlinear_arith)
        requires
            s == up + (s - up),
            within((s - up) * e, up),
    ;
    let product = w * t;
    if float_math::zero(d) {
        float_math::lemma_small_multiples();
        assert(t == 0);
        assert(w * 0 == 0);
        assert(0 * STEEP == 0);
        assert((3 * STEEP + 1) * (up * u) >= 0) by (nonlinear_arith)
            requires
                up >= 0,
                u > 0,
        ;
        assert(float_math::value(l) == 0);
    } else {
        lemma_secant_parts(dy, h);
        lemma_steep_parts(w, t, s, float_math::size(d), up, u);
    }
}

/// One part in so many: how much a tangent may exceed three times the rise.
pub const STEEP: u64 = 0x40_0000_0000;

proof fn lemma_steep_parts(w: int, t: int, s: int, d: int, up: int, u: int)
    requires
        d * w * FULL <= s * u * (FULL + 1),
        s * FULL <= up * (FULL + 1),
        t * shape::SHARE <= (3 * shape::SHARE + 1) * d,
        w > 0,
        t >= 0,
        s >= 0,
        up >= 0,
        u > 0,
    ensures
        (w * t) * STEEP <= (3 * STEEP + 1) * (up * u),
{
    let e = FULL as int;
    let (k, j) = (shape::SHARE as int, STEEP as int);
    let dw = d * w;
    let r = up * u;
    assert(r >= 0) by (nonlinear_arith)
        requires
            r == up * u,
            up >= 0,
            u > 0,
    ;
    let su = s * u;
    assert(su * e <= r * (e + 1)) by (nonlinear_arith)
        requires
            s * e <= up * (e + 1),
            su == s * u,
            r == up * u,
            u > 0,
    {
        assert((s * e) * u <= (up * (e + 1)) * u);
    }
    assert(dw * (e * e) <= r * ((e + 1) * (e + 1))) by (nonlinear_arith)
        requires
            dw * e <= su * (e + 1),
            su * e <= r * (e + 1),
            e > 0,
    {
        assert((dw * e) * e <= (su * (e + 1)) * e);
        assert((su * e) * (e + 1) <= (r * (e + 1)) * (e + 1));
    }
    let wt = w * t;
    assert(wt * k <= (3 * k + 1) * dw) by (nonlinear_arith)
        requires
            t * k <= (3 * k + 1) * d,
            wt == w * t,
            dw == d * w,
            w > 0,
    {
        assert((t * k) * w <= ((3 * k + 1) * d) * w);
    }
    assert(wt * j <= (3 * j + 1) * r) by (nonlinear_arith)
        requires
            wt * k <= (3 * k + 1) * dw,
            dw * (e * e) <= r * ((e + 1) * (e + 1)),
            r >= 0,
            e == 0x10_0000_0000_0000,
            k == 0x100_0000_0000,
            j == 0x40_0000_0000,
    ;
}

/// How far through a segment a query is.
pub open spec fn fraction_of(knots: Seq<Knot>, k: int, x: F64Bits) -> F64Bits {
    float_math::quotient(
        float_math::difference(x, knots[k].x),
        float_math::difference(knots[k + 1].x, knots[k].x),
    )
}

/// The value of a segment's cubic at a query.
pub open spec fn segment_value(knots: Seq<Knot>, k: int, x: F64Bits) -> F64Bits {
    let tangents = spline::tangents_of(knots);
    spline::cubic(knots[k], knots[k + 1], tangents[k], tangents[k + 1], x)
}

/// What rises from the left end of a segment to its right end.
pub open spec fn rise_of(knots: Seq<Knot>, k: int) -> int {
    float_math::value(knots[k + 1].y) - float_math::value(knots[k].y)
}

/// The sizes of the two values at the ends of a segment, together.
pub open spec fn end_sizes(knots: Seq<Knot>, k: int) -> int {
    float_math::size(knots[k].y) + float_math::size(knots[k + 1].y)
}

/// The rise of a segment up to a query, without rounding, on the scale of the
/// fourth power of the unit.
spec fn exact_rise(knots: Seq<Knot>, k: int, x: F64Bits) -> int {
    let u = float_math::unit();
    let w = float_math::size(float_math::difference(knots[k + 1].x, knots[k].x));
    let tangents = spline::tangents_of(knots);
    let rise = rise_of(knots, k);
    let up = if rise < 0 {
        -rise
    } else {
        rise
    };
    shape::rise_at(
        float_math::value(fraction_of(knots, k, x)),
        u,
        w * float_math::size(tangents[k]),
        w * float_math::size(tangents[k + 1]),
        up * u,
    )
}

/// Whether a query lies inside a segment whose numbers are plain.
pub open spec fn plain_query(knots: Seq<Knot>, k: int, x: F64Bits) -> bool {
    &&& 0 <= k < knots.len() - 1
    &&& spline::strictly_right(knots)
    &&& shape::plain_slopes(knots)
    &&& plain_segment(knots, k)
    &&& float_bits::less(knots[k].x, x)
    &&& float_bits::less(x, knots[k + 1].x)
}

/// The value of a segment's cubic against the exact rise.
proof fn lemma_value_near(knots: Seq<Knot>, k: int, x: F64Bits)
    requires
        plain_query(knots, k, x),
    ensures
        ({
            let u = float_math::unit();
            let all = u * u * u * u;
            let y = segment_value(knots, k, x);
            let start = float_math::value(knots[k].y) * all;
            let exact = if rise_of(knots, k) < 0 {
                start - exact_rise(knots, k, x)
            } else {
                start + exact_rise(knots, k, x)
            };
            &&& float_bits::finite(y)
            &&& within(
                (float_math::value(y) * all - exact) * (2 * FULL),
                all * (1500 * end_sizes(knots, k) + 5 * FULL),
            )
        }),
{
    lemma_unit();
    lemma_large();
    let u = float_math::unit();
    let all = u * u * u * u;
    let (a, b) = (knots[k], knots[k + 1]);
    let tangents = spline::tangents_of(knots);
    let (l, r) = (tangents[k], tangents[k + 1]);
    assert(spline::finite_knot(knots[k]) && spline::finite_knot(knots[k + 1]));
    let h = float_math::difference(b.x, a.x);
    let t = fraction_of(knots, k, x);
    lemma_fraction(a.x, b.x, x);
    lemma_weights(t);
    shape::law_tangents_follow_the_secants(knots, k);
    lemma_steepness(knots, k, l);
    lemma_steepness(knots, k, r);
    float_error::lemma_sizes(h);
    float_error::lemma_sizes(a.y);
    float_error::lemma_sizes(b.y);
    float_error::lemma_sizes(l);
    float_error::lemma_sizes(r);
    let s = end_sizes(knots, k);
    let rise = rise_of(knots, k);
    let up = if rise < 0 {
        -rise
    } else {
        rise
    };
    let w = float_math::size(h);
    let (p, q) = (w * float_math::size(l), w * float_math::size(r));
    assert(w >= FULL) by {
        float_error::lemma_least(FULL as int);
        if float_bits::mag(h) > FULL {
            float_round::lemma_multiple_ascends(FULL as int, float_bits::mag(h));
        }
    }
    lemma_steep_use(p, up, s, u);
    lemma_steep_use(q, up, s, u);
    assert(s <= u * (2 * large())) by (nonlinear_arith)
        requires
            s == float_math::size(a.y) + float_math::size(b.y),
            float_math::size(a.y) <= u * large(),
            float_math::size(b.y) <= u * large(),
    ;
    let v = float_math::value(t);
    let base = v * v * (3 * u - 2 * v);
    let rest = u - v;
    let (n00, n10, n01, n11) = (u * u * u - base, v * (rest * rest), base, -(v * v * rest));
    lemma_value_term(left_weight(t), n00, a.y);
    lemma_value_term(right_weight(t), n01, b.y);
    lemma_tangent_term(left_slope_weight(t), n10, h, l, s);
    lemma_tangent_term(right_slope_weight(t), n11, h, r, s);
    let first = float_math::product(left_weight(t), a.y);
    let second = float_math::product(float_math::product(left_slope_weight(t), h), l);
    let third = float_math::product(right_weight(t), b.y);
    let fourth = float_math::product(float_math::product(right_slope_weight(t), h), r);
    lemma_four_terms(first, second, third, fourth, s);
    let y = float_math::sum(float_math::sum(float_math::sum(first, second), third), fourth);
    assert(segment_value(knots, k, x) == y);
    let (x1, x2, x3, x4) = (
        n00 * (float_math::value(a.y) * u),
        n10 * (w * float_math::value(l)),
        n01 * (float_math::value(b.y) * u),
        n11 * (w * float_math::value(r)),
    );
    lemma_gathered(
        float_math::value(y),
        float_math::value(first),
        float_math::value(second),
        float_math::value(third),
        float_math::value(fourth),
        x1,
        x2,
        x3,
        x4,
        float_math::size(a.y),
        float_math::size(b.y),
        all,
    );
    lemma_exact_sum(
        v,
        u,
        float_math::value(a.y),
        float_math::value(b.y),
        w,
        float_math::value(l),
        float_math::value(r),
        float_math::size(l),
        float_math::size(r),
    );
}

/// The width times a tangent against the values at the ends.
proof fn lemma_steep_use(p: int, up: int, s: int, u: int)
    requires
        p * STEEP <= (3 * STEEP + 1) * (up * u),
        0 <= up <= s,
        u > 0,
    ensures
        p <= 4 * s * u,
{
    let r = up * u;
    assert(0 <= r <= s * u) by (nonlinear_arith)
        requires
            r == up * u,
            0 <= up <= s,
            u > 0,
    ;
    assert(p <= 4 * r) by (nonlinear_arith)
        requires
            p * STEEP <= (3 * STEEP + 1) * r,
            r >= 0,
            STEEP == 0x40_0000_0000,
    ;
    assert(4 * s * u == 4 * (s * u)) by (nonlinear_arith);
}

/// The errors of the four terms and of their sums, together.
proof fn lemma_gathered(
    y: int,
    a: int,
    b: int,
    c: int,
    d: int,
    x1: int,
    x2: int,
    x3: int,
    x4: int,
    sa: int,
    sb: int,
    all: int,
)
    requires
        within((y - (a + b + c + d)) * (2 * FULL), 164 * (sa + sb) + 24),
        within((a * all - x1) * (2 * FULL), all * (132 * sa + FULL)),
        within((b * all - x2) * (2 * FULL), all * (556 * (sa + sb) + FULL)),
        within((c * all - x3) * (2 * FULL), all * (132 * sb + FULL)),
        within((d * all - x4) * (2 * FULL), all * (556 * (sa + sb) + FULL)),
        sa >= 0,
        sb >= 0,
        all >= 0,
    ensures
        within((y * all - (x1 + x2 + x3 + x4)) * (2 * FULL), all * (1500 * (sa + sb) + 5 * FULL)),
{
    let e = 2 * FULL;
    let s = sa + sb;
    let z = y - (a + b + c + d);
    let (g1, g2, g3, g4) = (a * all - x1, b * all - x2, c * all - x3, d * all - x4);
    let whole = y * all - (x1 + x2 + x3 + x4);
    assert(whole == z * all + g1 + g2 + g3 + g4) by (nonlinear_arith)
        requires
            z == y - (a + b + c + d),
            g1 == a * all - x1,
            g2 == b * all - x2,
            g3 == c * all - x3,
            g4 == d * all - x4,
            whole == y * all - (x1 + x2 + x3 + x4),
    ;
    let ze = z * e;
    assert(whole * e == all * ze + g1 * e + g2 * e + g3 * e + g4 * e) by (nonlinear_arith)
        requires
            whole == z * all + g1 + g2 + g3 + g4,
            ze == z * e,
    ;
    assert(within(all * ze, all * (164 * s + 24))) by (nonlinear_arith)
        requires
            within(ze, 164 * s + 24),
            all >= 0,
    ;
    let f = FULL as int;
    assert(all * (164 * s + 24) + all * (132 * sa + f) + all * (556 * s + f) + all * (132 * sb + f) + all * (556
        * s + f) <= all * (1500 * s + 5 * f)) by (nonlinear_arith)
        requires
            s == sa + sb,
            s >= 0,
            all >= 0,
            f == 0x10_0000_0000_0000,
    {
        let k = 1408 * s + 4 * f + 24;
        assert(all * (164 * s + 24) + all * (132 * sa + f) + all * (556 * s + f) + all * (132 * sb + f) + all * (
        556 * s + f) == all * k);
        assert(k <= 1500 * s + 5 * f);
    }
}

/// The exact weights make up the exact rise.
proof fn lemma_exact_sum(v: int, u: int, a: int, b: int, w: int, l: int, r: int, sl: int, sr: int)
    requires
        b >= a ==> l == sl && r == sr,
        b < a ==> l == -sl && r == -sr,
    ensures
        ({
            let base = v * v * (3 * u - 2 * v);
            let rest = u - v;
            let up = if b < a {
                a - b
            } else {
                b - a
            };
            let all = u * u * u * u;
            let rise = shape::rise_at(v, u, w * sl, w * sr, up * u);
            (u * u * u - base) * (a * u) + (v * (rest * rest)) * (w * l) + base * (b * u) + (-(v * v * rest)) * (
            w * r) == (if b < a {
                a * all - rise
            } else {
                a * all + rise
            })
        }),
{
    let base = v * v * (3 * u - 2 * v);
    let rest = u - v;
    let (x, y) = (v * (rest * rest), v * v * rest);
    let up = if b < a {
        a - b
    } else {
        b - a
    };
    let all = u * u * u * u;
    let rise = shape::rise_at(v, u, w * sl, w * sr, up * u);
    assert(rise == (up * u) * base + (w * sl) * x - (w * sr) * y);
    assert((u * u * u - base) * (a * u) + base * (b * u) == a * all + ((b - a) * u) * base) by (nonlinear_arith)
        requires
            all == u * u * u * u,
    ;
    assert((-y) * (w * r) == -((w * r) * y)) by (nonlinear_arith);
    assert(x * (w * l) == (w * l) * x) by (nonlinear_arith);
    if b < a {
        assert(((b - a) * u) * base == -((up * u) * base)) by (nonlinear_arith)
            requires
                up == a - b,
        ;
        assert((w * l) * x == -((w * sl) * x)) by (nonlinear_arith)
            requires
                l == -sl,
        ;
        assert((w * r) * y == -((w * sr) * y)) by (nonlinear_arith)
            requires
                r == -sr,
        ;
    }
}

/// How finely the values of an interpolant are bounded: one part in `2^36` of the
/// values at the ends.
pub const MARGIN: u64 = 0x10_0000_0000;

/// How much rounding may move a value, on the scale of [`MARGIN`]: one part in
/// `2^36` of the values at the ends of its segment, and eight of the least floats.
pub open spec fn leeway(knots: Seq<Knot>, k: int) -> int {
    end_sizes(knots, k) + 8 * MARGIN
}

/// Between two knots the interpolant is the cubic with the knots' values and tangents,
/// as far as rounding goes: with `p / u` of the way behind it, the value has moved by
/// `3 p^2 - 2 p^3` of the whole rise, by `p (1 - p)^2` widths of the left tangent, and
/// by `p^2 (1 - p)` widths of the right one the other way.
pub proof fn law_a_value_is_that_of_its_cubic(knots: Seq<Knot>, k: usize, x: F64Bits)
    requires
        plain_query(knots, k as int, x),
    ensures
        spline::value_at(knots, spline::tangents_of(knots), x) matches Some(y) && {
            let u = float_math::unit();
            let all = u * u * u * u;
            let p = float_math::value(fraction_of(knots, k as int, x));
            let width = float_math::size(float_math::difference(knots[k + 1].x, knots[k as int].x));
            let tangents = spline::tangents_of(knots);
            let (l, r) = (float_math::size(tangents[k as int]), float_math::size(tangents[k + 1]));
            let (a, b) = (float_math::value(knots[k as int].y), float_math::value(knots[k + 1].y));
            let up = if b < a {
                a - b
            } else {
                b - a
            };
            let moved = (up * u) * (p * p * (3 * u - 2 * p)) + (width * l) * (p * ((u - p) * (u - p))) - (width
                * r) * (p * p * (u - p));
            let exact = if b < a {
                a * all - moved
            } else {
                a * all + moved
            };
            &&& float_bits::finite(y)
            &&& within(
                (float_math::value(y) * all - exact) * (2 * FULL),
                all * (1500 * (float_math::size(knots[k as int].y) + float_math::size(knots[k + 1].y)) + 5 * FULL),
            )
        },
{
    let place = Place::Segment(k);
    assert(spline::falls(knots, x, place));
    spline::law_place_is_unique(knots, x, place, spline::place_of(knots, x));
    lemma_value_near(knots, k as int, x);
}

/// No overshoot: between two neighbouring knots the interpolant gives a value
/// between theirs, as far as rounding goes.
pub proof fn law_values_stay_between_their_knots(knots: Seq<Knot>, k: usize, x: F64Bits)
    requires
        plain_query(knots, k as int, x),
    ensures
        spline::value_at(knots, spline::tangents_of(knots), x) matches Some(y) && {
            let (a, b) = (float_math::value(knots[k as int].y), float_math::value(knots[k + 1].y));
            let (low, high) = if a <= b {
                (a, b)
            } else {
                (b, a)
            };
            &&& float_bits::finite(y)
            &&& low * MARGIN - leeway(knots, k as int) <= float_math::value(y) * MARGIN
            &&& float_math::value(y) * MARGIN <= high * MARGIN + leeway(knots, k as int)
        },
{
    let i = k as int;
    let place = Place::Segment(k);
    assert(spline::falls(knots, x, place));
    spline::law_place_is_unique(knots, x, place, spline::place_of(knots, x));
    lemma_unit();
    lemma_value_near(knots, i, x);
    lemma_rise_bounds(knots, i, x);
    let u = float_math::unit();
    let all = u * u * u * u;
    assert(all > 0) by (nonlinear_arith)
        requires
            all == u * u * u * u,
            u > 0,
    {
        assert(u * u > 0);
        assert(u * u * u > 0);
    }
    let rise = rise_of(knots, i);
    let up = if rise < 0 {
        -rise
    } else {
        rise
    };
    let y = float_math::value(segment_value(knots, i, x));
    let (a, b) = (float_math::value(knots[i].y), float_math::value(knots[i + 1].y));
    let g = exact_rise(knots, i, x);
    float_error::lemma_sizes(knots[i].y);
    float_error::lemma_sizes(knots[i + 1].y);
    assert(spline::finite_knot(knots[i]) && spline::finite_knot(knots[i + 1]));
    if rise < 0 {
        lemma_flipped(y, a, g, all, all * (1500 * end_sizes(knots, i) + 5 * FULL));
        lemma_between(-y, -a, -b, g, up, end_sizes(knots, i), all);
    } else {
        lemma_between(y, a, b, g, up, end_sizes(knots, i), all);
    }
}

/// The exact rise lies between nothing and the whole rise, up to one part in
/// `2^38`.
proof fn lemma_rise_bounds(knots: Seq<Knot>, k: int, x: F64Bits)
    requires
        plain_query(knots, k, x),
    ensures
        ({
            let u = float_math::unit();
            let all = u * u * u * u;
            let rise = rise_of(knots, k);
            let up = if rise < 0 {
                -rise
            } else {
                rise
            };
            -(up * all) <= exact_rise(knots, k, x) * STEEP <= (up * all) * (STEEP + 1)
        }),
{
    lemma_unit();
    let u = float_math::unit();
    let (a, b) = (knots[k], knots[k + 1]);
    let tangents = spline::tangents_of(knots);
    assert(spline::finite_knot(knots[k]) && spline::finite_knot(knots[k + 1]));
    lemma_fraction(a.x, b.x, x);
    shape::law_tangents_follow_the_secants(knots, k);
    lemma_steepness(knots, k, tangents[k]);
    lemma_steepness(knots, k, tangents[k + 1]);
    let h = float_math::difference(b.x, a.x);
    let w = float_math::size(h);
    float_error::lemma_sizes(h);
    float_error::lemma_sizes(tangents[k]);
    float_error::lemma_sizes(tangents[k + 1]);
    let (p, q) = (w * float_math::size(tangents[k]), w * float_math::size(tangents[k + 1]));
    let rise = rise_of(knots, k);
    let up = if rise < 0 {
        -rise
    } else {
        rise
    };
    assert(p >= 0 && q >= 0 && up * u >= 0) by (nonlinear_arith)
        requires
            p == w * float_math::size(tangents[k]),
            q == w * float_math::size(tangents[k + 1]),
            w >= 0,
            float_math::size(tangents[k]) >= 0,
            float_math::size(tangents[k + 1]) >= 0,
            up >= 0,
            u > 0,
    ;
    shape::lemma_rise_within(float_math::value(fraction_of(knots, k, x)), u, p, q, up * u, STEEP as int);
    assert((up * u) * (u * u * u) == up * (u * u * u * u)) by (nonlinear_arith);
}

/// A falling segment, seen upside down.
proof fn lemma_flipped(y: int, a: int, g: int, all: int, bound: int)
    requires
        within((y * all - (a * all - g)) * (2 * FULL), bound),
    ensures
        within(((-y) * all - ((-a) * all + g)) * (2 * FULL), bound),
{
    assert(((-y) * all - ((-a) * all + g)) * (2 * FULL) == -((y * all - (a * all - g)) * (2 * FULL)))
        by (nonlinear_arith);
}

proof fn lemma_spread_out(all: int, d: int, m: int, g: int, e: int, k: int)
    requires
        all * d == m + g,
    ensures
        all * (d * e * k) == (m * e) * k + (g * k) * e,
{
    let n = all * d;
    let ek = e * k;
    assert(all * (d * e * k) == n * ek) by (nonlinear_arith)
        requires
            n == all * d,
            ek == e * k,
    ;
    assert((m + g) * ek == m * ek + g * ek) by (nonlinear_arith);
    assert(m * ek == (m * e) * k) by (nonlinear_arith)
        requires
            ek == e * k,
    ;
    assert(g * ek == (g * k) * e) by (nonlinear_arith)
        requires
            ek == e * k,
    ;
}

/// The value of a rising segment against its ends.
proof fn lemma_between(y: int, a: int, b: int, g: int, up: int, s: int, all: int)
    requires
        within((y * all - (a * all + g)) * (2 * FULL), all * (1500 * s + 5 * FULL)),
        -(up * all) <= g * STEEP <= (up * all) * (STEEP + 1),
        b == a + up,
        0 <= up <= s,
        all > 0,
    ensures
        a * MARGIN - (s + 8 * MARGIN) <= y * MARGIN <= b * MARGIN + (s + 8 * MARGIN),
{
    let (e, k) = (2 * FULL, STEEP as int);
    let c = 1500 * s + 5 * FULL;
    let d = y - a;
    let m = y * all - (a * all + g);
    let z = m * e;
    assert(all * d == m + g) by (nonlinear_arith)
        requires
            m == y * all - (a * all + g),
            d == y - a,
    ;
    lemma_spread_out(all, d, m, g, e, k);
    assert(within(z * k, all * (c * k))) by (nonlinear_arith)
        requires
            within(z, all * c),
            k > 0,
    ;
    let gk = g * k;
    assert(gk * e <= all * (up * (k + 1) * e) && gk * e >= all * (-(up * e))) by (nonlinear_arith)
        requires
            -(up * all) <= gk,
            gk <= (up * all) * (k + 1),
            e > 0,
    {
        assert(gk * e <= ((up * all) * (k + 1)) * e);
        assert(((up * all) * (k + 1)) * e == all * (up * (k + 1) * e));
        assert(gk * e >= (-(up * all)) * e);
        assert((-(up * all)) * e == all * (-(up * e)));
    }
    assert(d * e * k <= c * k + up * (k + 1) * e && d * e * k >= -(c * k) - up * e) by (nonlinear_arith)
        requires
            all * (d * e * k) <= all * (c * k) + all * (up * (k + 1) * e),
            all * (d * e * k) >= -(all * (c * k)) + all * (-(up * e)),
            all > 0,
    {
        assert(all * (d * e * k) <= all * (c * k + up * (k + 1) * e));
        assert(all * (d * e * k) >= all * (-(c * k) - up * e));
    }
    assert(d * MARGIN <= up * MARGIN + (s + 8 * MARGIN) && d * MARGIN >= -(s + 8 * MARGIN)) by (nonlinear_arith)
        requires
            d * e * k <= c * k + up * (k + 1) * e,
            d * e * k >= -(c * k) - up * e,
            c == 1500 * s + 5 * FULL,
            0 <= up <= s,
            e == 2 * FULL,
            FULL == 0x10_0000_0000_0000,
            k == 0x40_0000_0000,
            MARGIN == 0x10_0000_0000,
    ;
    assert(d * MARGIN == y * MARGIN - a * MARGIN && b * MARGIN == a * MARGIN + up * MARGIN) by (nonlinear_arith)
        requires
            d == y - a,
            b == a + up,
    ;
}

/// A later query is further through its segment.
proof fn lemma_fractions_ascend(knots: Seq<Knot>, k: int, x1: F64Bits, x2: F64Bits)
    requires
        plain_query(knots, k, x1),
        plain_query(knots, k, x2),
        float_order::at_most(x1, x2),
    ensures
        float_math::value(fraction_of(knots, k, x1)) <= float_math::value(fraction_of(knots, k, x2)),
{
    let (a, b) = (knots[k].x, knots[k + 1].x);
    assert(spline::finite_knot(knots[k]) && spline::finite_knot(knots[k + 1]));
    lemma_fraction(a, b, x1);
    lemma_fraction(a, b, x2);
    let h = float_math::difference(b, a);
    float_order::law_sum_keeps_order(x1, x2, float_math::negated(a));
    float_order::law_quotient_keeps_order(
        float_math::difference(x1, a),
        float_math::difference(x2, a),
        h,
    );
    let (f, g) = (fraction_of(knots, k, x1), fraction_of(knots, k, x2));
    if float_bits::less(f, g) {
        float_order::lemma_value_steps(f, g);
    } else {
        lemma_same_rank(f, g);
    }
}

proof fn lemma_same_rank(f: F64Bits, g: F64Bits)
    requires
        float_bits::equal(f, g),
    ensures
        float_math::value(f) == float_math::value(g),
{
    float_math::lemma_small_multiples();
}

/// No turning back: between two neighbouring knots a later value is not on the
/// wrong side of an earlier one, as far as rounding goes.
pub proof fn law_values_do_not_turn_back(knots: Seq<Knot>, k: usize, x1: F64Bits, x2: F64Bits)
    requires
        plain_query(knots, k as int, x1),
        plain_query(knots, k as int, x2),
        float_order::at_most(x1, x2),
    ensures
        ({
            let first = spline::value_at(knots, spline::tangents_of(knots), x1);
            let second = spline::value_at(knots, spline::tangents_of(knots), x2);
            &&& first is Some && second is Some
            &&& rise_of(knots, k as int) >= 0 ==> float_math::value(first->0) * MARGIN <= float_math::value(
                second->0,
            ) * MARGIN + 2 * leeway(knots, k as int)
            &&& rise_of(knots, k as int) <= 0 ==> float_math::value(first->0) * MARGIN >= float_math::value(
                second->0,
            ) * MARGIN - 2 * leeway(knots, k as int)
        }),
{
    let i = k as int;
    let place = Place::Segment(k);
    assert(spline::falls(knots, x1, place));
    assert(spline::falls(knots, x2, place));
    spline::law_place_is_unique(knots, x1, place, spline::place_of(knots, x1));
    spline::law_place_is_unique(knots, x2, place, spline::place_of(knots, x2));
    lemma_unit();
    lemma_value_near(knots, i, x1);
    lemma_value_near(knots, i, x2);
    lemma_rises_ascend(knots, i, x1, x2);
    let u = float_math::unit();
    let all = u * u * u * u;
    assert(all > 0) by (nonlinear_arith)
        requires
            all == u * u * u * u,
            u > 0,
    {
        assert(u * u > 0);
        assert(u * u * u > 0);
    }
    let rise = rise_of(knots, i);
    let up = if rise < 0 {
        -rise
    } else {
        rise
    };
    let s = end_sizes(knots, i);
    let (y1, y2) = (
        float_math::value(segment_value(knots, i, x1)),
        float_math::value(segment_value(knots, i, x2)),
    );
    let a = float_math::value(knots[i].y);
    let (g1, g2) = (exact_rise(knots, i, x1), exact_rise(knots, i, x2));
    assert(spline::finite_knot(knots[i]) && spline::finite_knot(knots[i + 1]));
    float_error::lemma_sizes(knots[i].y);
    float_error::lemma_sizes(knots[i + 1].y);
    if rise < 0 {
        let bound = all * (1500 * s + 5 * FULL);
        lemma_flipped(y1, a, g1, all, bound);
        lemma_flipped(y2, a, g2, all, bound);
        lemma_in_order(-y1, -y2, -a, g1, g2, up, s, all);
    } else {
        lemma_in_order(y1, y2, a, g1, g2, up, s, all);
        if rise == 0 {
            law_values_stay_between_their_knots(knots, k, x1);
            law_values_stay_between_their_knots(knots, k, x2);
        }
    }
}

/// The exact rise up to a later query is not smaller, up to two parts in `2^38`.
proof fn lemma_rises_ascend(knots: Seq<Knot>, k: int, x1: F64Bits, x2: F64Bits)
    requires
        plain_query(knots, k, x1),
        plain_query(knots, k, x2),
        float_order::at_most(x1, x2),
    ensures
        ({
            let u = float_math::unit();
            let all = u * u * u * u;
            let rise = rise_of(knots, k);
            let up = if rise < 0 {
                -rise
            } else {
                rise
            };
            exact_rise(knots, k, x1) * STEEP <= exact_rise(knots, k, x2) * STEEP + 2 * (up * all)
        }),
{
    lemma_unit();
    let u = float_math::unit();
    let (a, b) = (knots[k], knots[k + 1]);
    let tangents = spline::tangents_of(knots);
    assert(spline::finite_knot(knots[k]) && spline::finite_knot(knots[k + 1]));
    lemma_fraction(a.x, b.x, x1);
    lemma_fraction(a.x, b.x, x2);
    lemma_fractions_ascend(knots, k, x1, x2);
    shape::law_tangents_follow_the_secants(knots, k);
    lemma_steepness(knots, k, tangents[k]);
    lemma_steepness(knots, k, tangents[k + 1]);
    let h = float_math::difference(b.x, a.x);
    let w = float_math::size(h);
    float_error::lemma_sizes(h);
    float_error::lemma_sizes(tangents[k]);
    float_error::lemma_sizes(tangents[k + 1]);
    let (p, q) = (w * float_math::size(tangents[k]), w * float_math::size(tangents[k + 1]));
    let rise = rise_of(knots, k);
    let up = if rise < 0 {
        -rise
    } else {
        rise
    };
    assert(p >= 0 && q >= 0 && up * u >= 0) by (nonlinear_arith)
        requires
            p == w * float_math::size(tangents[k]),
            q == w * float_math::size(tangents[k + 1]),
            w >= 0,
            float_math::size(tangents[k]) >= 0,
            float_math::size(tangents[k + 1]) >= 0,
            up >= 0,
            u > 0,
    ;
    shape::lemma_rise_ascends(
        float_math::value(fraction_of(knots, k, x1)),
        float_math::value(fraction_of(knots, k, x2)),
        u,
        p,
        q,
        up * u,
        STEEP as int,
    );
    assert((up * u) * (u * u * u) == up * (u * u * u * u)) by (nonlinear_arith);
}

/// Two values of a rising segment against each other.
proof fn lemma_in_order(y1: int, y2: int, a: int, g1: int, g2: int, up: int, s: int, all: int)
    requires
        within((y1 * all - (a * all + g1)) * (2 * FULL), all * (1500 * s + 5 * FULL)),
        within((y2 * all - (a * all + g2)) * (2 * FULL), all * (1500 * s + 5 * FULL)),
        g1 * STEEP <= g2 * STEEP + 2 * (up * all),
        0 <= up <= s,
        all > 0,
    ensures
        y1 * MARGIN <= y2 * MARGIN + 2 * (s + 8 * MARGIN),
{
    let (e, k) = (2 * FULL, STEEP as int);
    let c = 1500 * s + 5 * FULL;
    let d = y1 - y2;
    let (m1, m2) = (y1 * all - (a * all + g1), y2 * all - (a * all + g2));
    let (z1, z2) = (m1 * e, m2 * e);
    let g = (g1 - g2) * k;
    assert(all * d == (m1 - m2) + (g1 - g2)) by (nonlinear_arith)
        requires
            m1 == y1 * all - (a * all + g1),
            m2 == y2 * all - (a * all + g2),
            d == y1 - y2,
    ;
    lemma_spread_out(all, d, m1 - m2, g1 - g2, e, k);
    assert((m1 - m2) * e == z1 - z2) by (nonlinear_arith)
        requires
            z1 == m1 * e,
            z2 == m2 * e,
    ;
    assert((g1 - g2) * k == g1 * k - g2 * k) by (nonlinear_arith);
    assert((z1 - z2) * k <= all * (2 * c * k)) by (nonlinear_arith)
        requires
            z1 <= all * c,
            z2 >= -(all * c),
            k > 0,
    {
        assert(z1 - z2 <= 2 * (all * c));
        assert((z1 - z2) * k <= (2 * (all * c)) * k);
    }
    assert(g * e <= all * (2 * up * e)) by (nonlinear_arith)
        requires
            g <= 2 * (up * all),
            e > 0,
    {
        assert(g * e <= (2 * (up * all)) * e);
    }
    assert(d * e * k <= 2 * c * k + 2 * up * e) by (nonlinear_arith)
        requires
            all * (d * e * k) <= all * (2 * c * k) + all * (2 * up * e),
            all > 0,
    {
        assert(all * (d * e * k) <= all * (2 * c * k + 2 * up * e));
    }
    assert(d * MARGIN <= 2 * (s + 8 * MARGIN)) by (nonlinear_arith)
        requires
            d * e * k <= 2 * c * k + 2 * up * e,
            c == 1500 * s + 5 * FULL,
            0 <= up <= s,
            e == 2 * FULL,
            FULL == 0x10_0000_0000_0000,
            k == 0x40_0000_0000,
            MARGIN == 0x10_0000_0000,
    ;
    assert(d * MARGIN == y1 * MARGIN - y2 * MARGIN) by (nonlinear_arith)
        requires
            d == y1 - y2,
    ;
}

/// Whether the numbers of every segment are plain.
pub open spec fn plain_curve(knots: Seq<Knot>) -> bool {
    &&& 2 <= knots.len() <= usize::MAX
    &&& spline::strictly_right(knots)
    &&& shape::plain_slopes(knots)
    &&& forall|k: int| 0 <= k < knots.len() - 1 ==> #[trigger] plain_segment(knots, k)
}

/// No knot is below an earlier one.
pub open spec fn rising(knots: Seq<Knot>) -> bool {
    forall|i: int, j: int|
        0 <= i <= j < knots.len() ==> float_math::value((#[trigger] knots[i]).y) <= float_math::value(
            (#[trigger] knots[j]).y,
        )
}

/// No knot is above an earlier one.
pub open spec fn falling(knots: Seq<Knot>) -> bool {
    forall|i: int, j: int|
        0 <= i <= j < knots.len() ==> float_math::value((#[trigger] knots[i]).y) >= float_math::value(
            (#[trigger] knots[j]).y,
        )
}

/// How much rounding may move the value at a query: not at all on a knot.
pub open spec fn slack(knots: Seq<Knot>, x: F64Bits) -> int {
    match spline::place_of(knots, x) {
        Place::Segment(k) => leeway(knots, k as int),
        _ => 0,
    }
}

/// Whether the knots `i` and `j` are the ones round a query: the same one where
/// it meets a knot, neighbours where it falls between two.
spec fn brackets(knots: Seq<Knot>, x: F64Bits, i: int, j: int) -> bool {
    &&& 0 <= i <= j < knots.len()
    &&& if i == j {
        float_bits::equal(knots[i].x, x)
    } else {
        j == i + 1 && float_bits::less(knots[i].x, x) && float_bits::less(x, knots[j].x)
    }
}

/// The knots round a query that is not before the knot `k`.
proof fn lemma_brackets(knots: Seq<Knot>, x: F64Bits, k: int) -> (r: (int, int))
    requires
        plain_curve(knots),
        !spline::falls(knots, x, Place::Outside),
        0 <= k < knots.len(),
        !float_bits::less(x, knots[k].x),
    ensures
        brackets(knots, x, r.0, r.1),
    decreases knots.len() - k,
{
    assert(spline::finite_knot(knots[k]));
    if float_bits::equal(knots[k].x, x) {
        (k, k)
    } else {
        assert(k + 1 < knots.len());
        assert(spline::finite_knot(knots[k + 1]));
        if float_bits::less(x, knots[k + 1].x) {
            (k, k + 1)
        } else {
            lemma_brackets(knots, x, k + 1)
        }
    }
}

/// The value at a query against the values of the knots round it.
proof fn lemma_value_between(knots: Seq<Knot>, x: F64Bits, i: int, j: int)
    requires
        plain_curve(knots),
        brackets(knots, x, i, j),
    ensures
        slack(knots, x) >= 0,
        i < j ==> plain_query(knots, i, x) && slack(knots, x) == leeway(knots, i),
        spline::value_at(knots, spline::tangents_of(knots), x) matches Some(y) && {
            let v = float_math::value(y) * MARGIN;
            let a = float_math::value(knots[i].y);
            let b = float_math::value(knots[j].y);
            let s = slack(knots, x);
            &&& a <= b ==> a * MARGIN - s <= v <= b * MARGIN + s
            &&& a >= b ==> b * MARGIN - s <= v <= a * MARGIN + s
        },
{
    if i == j {
        let place = Place::Knot(knots[i].y);
        assert(spline::falls(knots, x, place));
        spline::law_place_is_unique(knots, x, place, spline::place_of(knots, x));
    } else {
        let place = Place::Segment(i as usize);
        assert(spline::falls(knots, x, place));
        spline::law_place_is_unique(knots, x, place, spline::place_of(knots, x));
        assert(plain_segment(knots, i));
        law_values_stay_between_their_knots(knots, i as usize, x);
        assert(spline::finite_knot(knots[i]) && spline::finite_knot(knots[j]));
        float_error::lemma_sizes(knots[i].y);
        float_error::lemma_sizes(knots[j].y);
    }
}

/// Over the whole range, an interpolant of rising knots does not fall and one of
/// falling knots does not rise, as far as rounding goes.
pub proof fn law_monotone_knots_give_monotone_values(knots: Seq<Knot>, x1: F64Bits, x2: F64Bits)
    requires
        plain_curve(knots),
        !spline::falls(knots, x1, Place::Outside),
        !spline::falls(knots, x2, Place::Outside),
        float_order::at_most(x1, x2),
    ensures
        ({
            let first = spline::value_at(knots, spline::tangents_of(knots), x1);
            let second = spline::value_at(knots, spline::tangents_of(knots), x2);
            let s = slack(knots, x1) + slack(knots, x2);
            &&& first is Some && second is Some
            &&& rising(knots) ==> float_math::value(first->0) * MARGIN <= float_math::value(second->0)
                * MARGIN + s
            &&& falling(knots) ==> float_math::value(first->0) * MARGIN >= float_math::value(second->0)
                * MARGIN - s
        }),
{
    assert(spline::finite_knot(knots[0]));
    let (i1, j1) = lemma_brackets(knots, x1, 0);
    let (i2, j2) = lemma_brackets(knots, x2, 0);
    lemma_value_between(knots, x1, i1, j1);
    lemma_value_between(knots, x2, i2, j2);
    if j1 <= i2 {
        let (a, b) = (float_math::value(knots[j1].y), float_math::value(knots[i2].y));
        assert(a <= b ==> a * MARGIN <= b * MARGIN) by (nonlinear_arith);
        assert(a >= b ==> a * MARGIN >= b * MARGIN) by (nonlinear_arith);
        assert(rising(knots) ==> float_math::value(knots[i1].y) <= a && a <= b && b <= float_math::value(
            knots[j2].y,
        ));
        assert(falling(knots) ==> float_math::value(knots[i1].y) >= a && a >= b && b >= float_math::value(
            knots[j2].y,
        ));
    } else {
        if i1 < j1 && i2 < j2 && i1 == i2 {
            law_values_do_not_turn_back(knots, i1 as usize, x1, x2);
            assert(rising(knots) ==> rise_of(knots, i1) >= 0);
            assert(falling(knots) ==> rise_of(knots, i1) <= 0);
        } else {
            assert(j2 < i1 ==> float_bits::less(knots[j2].x, knots[i1].x));
            assert(i2 < i1 ==> float_bits::less(knots[i2].x, knots[i1].x));
            assert(i2 < j1 ==> float_bits::less(knots[i2].x, knots[j1].x));
            assert(j2 < j1 ==> float_bits::less(knots[j2].x, knots[j1].x));
            assert(false);
        }
    }
}

} // verus!
