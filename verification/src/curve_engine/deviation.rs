//! How far a middle maturity lies off the line between its neighbours, against the
//! exact distance.

use vstd::arithmetic::power2::{lemma_pow2_adds, lemma_pow2_pos, lemma_pow2_strictly_increases};
use vstd::prelude::*;

use crate::curve_engine::curve;
use crate::curve_engine::types::CurvePoint;
use crate::float_bits;
use crate::float_bits::F64Bits;
use crate::float_error;
use crate::float_error::FULL;
use crate::float_math;
use crate::float_near;
use crate::float_near::{distance, near};
use crate::float_order;
use crate::float_round;
use crate::tick_math::fixed;
use crate::tick_math::FixedX18;

verus! {

/// The deviation of a middle is its rate less the rate that its neighbours have at
/// its maturity, on the line between them: off by at most some parts in `2^52` of the
/// three rates, and two of the least floats.
pub proof fn law_deviation_is_measured_off_the_line(left: CurvePoint, mid: CurvePoint, right: CurvePoint)
    requires
        left.time_to_maturity_secs < mid.time_to_maturity_secs < right.time_to_maturity_secs,
    ensures
        ({
            let deviation = curve::deviation_of(left, mid, right);
            let l = float_math::value(fixed::to_float(left.rate));
            let m = float_math::value(fixed::to_float(mid.rate));
            let r = float_math::value(fixed::to_float(right.rate));
            let part = mid.time_to_maturity_secs - left.time_to_maturity_secs;
            let span = right.time_to_maturity_secs - left.time_to_maturity_secs;
            &&& float_bits::finite(deviation)
            &&& distance(float_math::value(deviation) * span - ((m - l) * span - part * (r - l))) * FULL <= span * (80
                * (distance(l) + distance(m) + distance(r)) + 2 * FULL)
        }),
{
    let (ly, my, ry) = (fixed::to_float(left.rate), fixed::to_float(mid.rate), fixed::to_float(right.rate));
    let part = mid.time_to_maturity_secs - left.time_to_maturity_secs;
    let span = right.time_to_maturity_secs - left.time_to_maturity_secs;
    lemma_weight(left.time_to_maturity_secs, mid.time_to_maturity_secs, right.time_to_maturity_secs);
    let weight = weight_of(left.time_to_maturity_secs, mid.time_to_maturity_secs, right.time_to_maturity_secs);
    lemma_rate_bound(left.rate);
    lemma_rate_bound(mid.rate);
    lemma_rate_bound(right.rate);
    lemma_line(weight, ly, ry, part, span);
    let share = float_math::product(weight, float_math::difference(ry, ly));
    let line = float_math::sum(ly, share);
    let (l, m, r) = (float_math::value(ly), float_math::value(my), float_math::value(ry));
    let e = float_math::value(line);
    lemma_within(e, l + float_math::value(share));
    assert(float_math::value(float_math::negated(line)) == -e);
    lemma_room();
    float_error::law_sum_error(my, float_math::negated(line));
    let out = float_math::value(curve::deviation_of(left, mid, right));
    lemma_within(out, m - e);
    lemma_total(out, m, l, r, float_math::value(share), e, part, span, distance(r - l));
}

/// Where a maturity lies between two others.
spec fn weight_of(left: u32, mid: u32, right: u32) -> F64Bits {
    float_math::quotient(
        float_math::difference(float_math::of_integer(mid as int), float_math::of_integer(left as int)),
        float_math::difference(float_math::of_integer(right as int), float_math::of_integer(left as int)),
    )
}

proof fn lemma_weight(left: u32, mid: u32, right: u32)
    requires
        left < mid < right,
    ensures
        ({
            let weight = weight_of(left, mid, right);
            let w = float_math::size(weight);
            let u = float_math::unit();
            &&& float_bits::finite(weight)
            &&& float_math::value(weight) == w
            &&& 0 <= w <= 2 * u
            &&& distance(w * (right - left) - (mid - left) * u) * FULL <= 2 * (5 * ((mid - left) * u))
        }),
{
    let u = float_math::unit();
    lemma_pow2_pos(1074);
    let (part, span) = (mid - left, right - left);
    lemma_seconds_apart(left, mid);
    lemma_seconds_apart(left, right);
    let a = float_math::difference(float_math::of_integer(mid as int), float_math::of_integer(left as int));
    let b = float_math::difference(float_math::of_integer(right as int), float_math::of_integer(left as int));
    float_near::law_moderate_quotient_is_near(a, b, part, span);
    let weight = weight_of(left, mid, right);
    let w = float_math::size(weight);
    float_error::lemma_sizes(weight);
    assert(w * span >= 0 && part * u >= 0) by (nonlinear_arith)
        requires
            w >= 0,
            span > 0,
            part > 0,
            u > 0,
    ;
    float_near::law_near_is_off_by_little(w * span, part * u, 5);
    assert(w <= 2 * u) by (nonlinear_arith)
        requires
            w * span <= 2 * (part * u),
            0 < part < span,
            u > 0,
    {
        assert(part * u <= span * u);
        assert(w * span <= (2 * u) * span);
    }
}

/// Rates leave room below the greatest float.
proof fn lemma_room()
    ensures
        float_math::unit() * float_error::cap() >= (0x1_0000_0000_0000_0000_0000_0000_0000_0000int
            * float_math::unit()) * 0x1_0000_0000_0000_0000,
        float_math::unit() > 0,
{
    float_round::lemma_powers();
    lemma_pow2_adds(128, 64);
    lemma_pow2_strictly_increases(192, 1023);
    lemma_pow2_pos(1074);
    let (u, c) = (float_math::unit(), float_error::cap());
    let big = 0x1_0000_0000_0000_0000_0000_0000_0000_0000int;
    assert(u * c >= (big * u) * 0x1_0000_0000_0000_0000) by (nonlinear_arith)
        requires
            c >= big * 0x1_0000_0000_0000_0000,
            u > 0,
            big > 0,
    {
        assert(u * c >= u * (big * 0x1_0000_0000_0000_0000));
    }
}

/// The rate on the line between two others.
proof fn lemma_line(weight: F64Bits, ly: F64Bits, ry: F64Bits, part: int, span: int)
    requires
        float_bits::finite(weight),
        float_math::value(weight) == float_math::size(weight),
        0 <= float_math::size(weight) <= 2 * float_math::unit(),
        distance(float_math::size(weight) * span - part * float_math::unit()) * FULL <= 2 * (5 * (part
            * float_math::unit())),
        0 < part < span,
        float_bits::finite(ly),
        float_bits::finite(ry),
        distance(float_math::value(ly)) <= 0x1_0000_0000_0000_0000_0000_0000_0000_0000 * float_math::unit(),
        distance(float_math::value(ry)) <= 0x1_0000_0000_0000_0000_0000_0000_0000_0000 * float_math::unit(),
    ensures
        ({
            let share = float_math::product(weight, float_math::difference(ry, ly));
            let line = float_math::sum(ly, share);
            let (l, r) = (float_math::value(ly), float_math::value(ry));
            let (p, e) = (float_math::value(share), float_math::value(line));
            &&& distance(p * span - part * (r - l)) * FULL <= span * (26 * distance(r - l) + FULL)
            &&& distance(p) <= 8 * distance(r - l) + 1
            &&& float_bits::finite(line)
            &&& float_error::within((e - (l + p)) * FULL, l + p) || float_error::within(
                (e - (l + p)) * FULL,
                -(l + p),
            )
        }),
{
    lemma_room();
    let (u, c) = (float_math::unit(), float_error::cap());
    let bu = 0x1_0000_0000_0000_0000_0000_0000_0000_0000int * u;
    let (l, r) = (float_math::value(ly), float_math::value(ry));
    assert(float_math::value(float_math::negated(ly)) == -l);
    float_error::law_sum_error(ry, float_math::negated(ly));
    let diff = float_math::difference(ry, ly);
    let share = float_math::product(weight, diff);
    let d = float_math::value(diff);
    lemma_within(d, r - l);
    let (w, s) = (float_math::size(weight), float_math::size(diff));
    float_error::lemma_sizes(diff);
    assert(w * s <= u * (u * c)) by (nonlinear_arith)
        requires
            0 <= w <= 2 * u,
            0 <= s <= 4 * bu,
            u * c >= bu * 0x1_0000_0000_0000_0000,
            u > 0,
    {
        assert(w * s <= (2 * u) * s);
        assert((2 * u) * s <= (2 * u) * (4 * bu));
        assert(bu >= 0);
        assert((2 * u) * (4 * bu) == u * (8 * bu));
        assert(u * (8 * bu) <= u * (u * c));
    }
    float_error::law_product_error(weight, diff);
    lemma_share(float_math::value(share), w, d, s, part, span, r - l, distance(r - l), u);
    float_error::law_sum_error(ly, share);
}

/// Within one part of a number.
proof fn lemma_within(x: int, total: int)
    requires
        float_error::within((x - total) * FULL, total) || float_error::within((x - total) * FULL, -total),
    ensures
        distance(x - total) * FULL <= distance(total),
        distance(x) <= 2 * distance(total),
{
    let z = x - total;
    assert(distance(z) * FULL == distance(z * FULL)) by (nonlinear_arith)
        requires
            distance(z) == (if z < 0 { -z } else { z }),
            distance(z * FULL) == (if z * FULL < 0 { -(z * FULL) } else { z * FULL }),
            FULL > 0,
    ;
}

/// The difference of two whole numbers of seconds, as floats.
proof fn lemma_seconds_apart(s: u32, t: u32)
    requires
        s < t,
    ensures
        ({
            let apart = float_math::difference(float_math::of_integer(t as int), float_math::of_integer(s as int));
            &&& float_bits::finite(apart)
            &&& !float_bits::signed(apart)
            &&& near(float_math::size(apart), (t - s) * float_math::unit(), 1)
        }),
{
    let u = float_math::unit();
    lemma_pow2_pos(1074);
    let (a, b) = (float_math::of_integer(t as int), float_math::of_integer(s as int));
    float_math::lemma_of_integer(t as int);
    float_math::lemma_of_integer(s as int);
    float_math::law_small_integers_are_exact(t as int);
    float_math::law_small_integers_are_exact(s as int);
    float_round::lemma_powers();
    lemma_pow2_strictly_increases(128, 1023);
    let n = (t - s) * u;
    assert(t * u - s * u == n && 0 < n && n <= u * float_error::cap()) by (nonlinear_arith)
        requires
            n == (t - s) * u,
            s < t,
            t - s <= float_error::cap(),
            u > 0,
    ;
    assert(float_math::value(float_math::negated(b)) == -float_math::value(b));
    float_error::law_sum_error(a, float_math::negated(b));
    float_near::law_difference_is_near(a, b);
    let apart = float_math::difference(a, b);
    float_error::lemma_sizes(apart);
}

/// A rate is at most `2^128`.
proof fn lemma_rate_bound(rate: FixedX18)
    ensures
        float_bits::finite(fixed::to_float(rate)),
        distance(float_math::value(fixed::to_float(rate))) <= 0x1_0000_0000_0000_0000_0000_0000_0000_0000
            * float_math::unit(),
        float_math::size(fixed::to_float(rate)) == distance(float_math::value(fixed::to_float(rate))),
{
    let f = fixed::to_float(rate);
    fixed::law_to_float_is_finite(rate);
    fixed::law_to_float_is_bounded(rate);
    float_order::lemma_size_under(f, 128);
    float_error::lemma_sizes(f);
    float_round::lemma_powers();
    lemma_pow2_adds(128, 1074);
}

/// The rise of the line up to the middle.
proof fn lemma_share(p: int, w: int, d: int, s: int, part: int, span: int, rise: int, g: int, u: int)
    requires
        float_error::within((p * u - w * d) * 2 * FULL, 2 * (w * s) + FULL * u),
        distance(w * span - part * u) * FULL <= 2 * (5 * (part * u)),
        distance(d - rise) * FULL <= distance(rise),
        distance(d) <= 2 * g,
        s == distance(d),
        g == distance(rise),
        0 <= w <= 2 * u,
        0 < part < span,
        u > 0,
    ensures
        distance(p * span - part * rise) * FULL <= span * (26 * g + FULL),
        distance(p) <= 8 * g + 1,
{
    let e = FULL as int;
    let x = p * u - w * d;
    let y = w * span - part * u;
    let z = d - rise;
    assert(0 <= w * s <= 4 * (u * g)) by (nonlinear_arith)
        requires
            0 <= w <= 2 * u,
            0 <= s <= 2 * g,
            u > 0,
            g >= 0,
    {
        assert(w * s <= (2 * u) * s);
        assert((2 * u) * s <= (2 * u) * (2 * g));
    }
    let ug = u * g;
    assert(ug >= 0) by (nonlinear_arith)
        requires
            ug == u * g,
            u > 0,
            g >= 0,
    ;
    // How large the rise is.
    assert(-(8 * ug + e * u) <= x * 2 * e <= 8 * ug + e * u);
    assert(-(8 * ug + u) <= 2 * x <= 8 * ug + u) by (nonlinear_arith)
        requires
            -(8 * ug + e * u) <= x * 2 * e <= 8 * ug + e * u,
            e >= 1,
            ug >= 0,
            u > 0,
    {
        assert(8 * ug <= (8 * ug) * e);
        assert((8 * ug + u) * e == (8 * ug) * e + e * u);
        assert(x * 2 * e == (2 * x) * e);
    }
    assert(-(w * s) <= w * d <= w * s) by (nonlinear_arith)
        requires
            d == s || d == -s,
            w >= 0,
            s >= 0,
    ;
    assert(-(8 * g + 1) * u <= p * u <= (8 * g + 1) * u) by (nonlinear_arith)
        requires
            x == p * u - w * d,
            -(8 * ug + u) <= 2 * x <= 8 * ug + u,
            -(4 * ug) <= w * d <= 4 * ug,
            ug == u * g,
            u > 0,
            g >= 0,
    ;
    assert(-(8 * g + 1) <= p <= 8 * g + 1) by (nonlinear_arith)
        requires
            -(8 * g + 1) * u <= p * u <= (8 * g + 1) * u,
            u > 0,
    ;
    // How far it is off.
    let off = p * span - part * rise;
    assert(off * u == span * (p * u) - (part * u) * rise) by (nonlinear_arith)
        requires
            off == p * span - part * rise,
    ;
    assert(span * x == span * (p * u) - span * (w * d)) by (nonlinear_arith)
        requires
            x == p * u - w * d,
    ;
    assert(y * d == span * (w * d) - (part * u) * d) by (nonlinear_arith)
        requires
            y == w * span - part * u,
    ;
    assert((part * u) * z == (part * u) * d - (part * u) * rise) by (nonlinear_arith)
        requires
            z == d - rise,
    ;
    let su = span * ug;
    assert(-(8 * su + (span * u) * e) <= 2 * ((span * x) * e) <= 8 * su + (span * u) * e) by (nonlinear_arith)
        requires
            -(8 * ug + e * u) <= x * 2 * e <= 8 * ug + e * u,
            su == span * ug,
            span > 0,
    {
        assert(2 * ((span * x) * e) == span * (x * 2 * e));
        assert(span * (8 * ug + e * u) == 8 * su + (span * u) * e);
        assert(span * (x * 2 * e) <= span * (8 * ug + e * u));
        assert(span * (-(8 * ug + e * u)) <= span * (x * 2 * e));
        assert(span * (-(8 * ug + e * u)) == -(span * (8 * ug + e * u)));
    }
    lemma_weighed(y, d, part, span, g, u, e);
    lemma_shifted(z, rise, part, span, g, u, e);
    assert(2 * ((off * u) * e) == 2 * ((span * x) * e) + 2 * ((y * d) * e) + 2 * (((part * u) * z) * e))
        by (nonlinear_arith)
        requires
            off * u == span * x + y * d + (part * u) * z,
    ;
    assert(span * (u * g) == su);
    let bound = 50 * su + (span * u) * e;
    assert(-bound <= 2 * ((off * u) * e) <= bound);
    let most = span * (26 * g + e);
    assert(-most <= off * e <= most) by (nonlinear_arith)
        requires
            -bound <= 2 * ((off * u) * e) <= bound,
            bound == 50 * su + (span * u) * e,
            most == span * (26 * g + e),
            su == span * (u * g),
            su >= 0,
            span > 0,
            u > 0,
            e > 0,
    {
        assert((off * u) * e == (off * e) * u);
        assert(most * u == 26 * su + (span * u) * e);
        assert(span * u > 0);
        assert((span * u) * e > 0);
    }
    assert(distance(off) * e == distance(off * e)) by (nonlinear_arith)
        requires
            e > 0,
            distance(off) == (if off < 0 { -off } else { off }),
            distance(off * e) == (if off * e < 0 { -(off * e) } else { off * e }),
    ;
}

proof fn lemma_weighed(y: int, d: int, part: int, span: int, g: int, u: int, e: int)
    requires
        distance(y) * e <= 2 * (5 * (part * u)),
        distance(d) <= 2 * g,
        0 < part < span,
        u > 0,
        g >= 0,
        e > 0,
    ensures
        -(20 * (span * (u * g))) <= (y * d) * e <= 20 * (span * (u * g)),
        span * (u * g) >= 0,
{
    let (a, b) = (distance(y), distance(d));
    assert(a * b * e <= 20 * (span * (u * g)) && span * (u * g) >= 0) by (nonlinear_arith)
        requires
            a * e <= 10 * (part * u),
            0 <= b <= 2 * g,
            0 < part < span,
            a >= 0,
            u > 0,
            g >= 0,
    {
        let pu = part * u;
        assert(pu > 0);
        assert((a * e) * b <= (10 * pu) * b);
        assert((10 * pu) * b <= (10 * pu) * (2 * g));
        assert((10 * pu) * (2 * g) == 20 * (part * (u * g)));
        assert(u * g >= 0);
        assert(part * (u * g) <= span * (u * g));
        assert((a * e) * b == a * b * e);
    }
    assert((y * d) * e == a * b * e || (y * d) * e == -(a * b * e)) by (nonlinear_arith)
        requires
            y == a || y == -a,
            d == b || d == -b,
    ;
    assert(a * b * e >= 0) by (nonlinear_arith)
        requires
            a >= 0,
            b >= 0,
            e > 0,
    {
        assert(a * b >= 0);
    }
}

proof fn lemma_shifted(z: int, rise: int, part: int, span: int, g: int, u: int, e: int)
    requires
        distance(z) * e <= distance(rise),
        g == distance(rise),
        0 < part < span,
        u > 0,
        e > 0,
    ensures
        -(span * (u * g)) <= ((part * u) * z) * e <= span * (u * g),
{
    let a = distance(z);
    let pu = part * u;
    assert((pu * a) * e <= span * (u * g)) by (nonlinear_arith)
        requires
            a * e <= g,
            pu == part * u,
            0 < part < span,
            u > 0,
            g >= 0,
    {
        assert(pu > 0);
        assert(pu * (a * e) <= pu * g);
        assert(pu * g == part * (u * g));
        assert(u * g >= 0);
        assert((pu * a) * e == pu * (a * e));
    }
    assert((pu * z) * e == (pu * a) * e || (pu * z) * e == -((pu * a) * e)) by (nonlinear_arith)
        requires
            z == a || z == -a,
    ;
    assert((pu * a) * e >= 0) by (nonlinear_arith)
        requires
            pu == part * u,
            part > 0,
            u > 0,
            a >= 0,
            e > 0,
    {
        assert(pu > 0);
        assert(pu * a >= 0);
    }
}

proof fn lemma_total(out: int, m: int, l: int, r: int, p: int, e: int, part: int, span: int, g: int)
    requires
        distance(p * span - part * (r - l)) * FULL <= span * (26 * g + FULL),
        distance(p) <= 8 * g + 1,
        distance(e - (l + p)) * FULL <= distance(l + p),
        distance(e) <= 2 * distance(l + p),
        distance(out - (m - e)) * FULL <= distance(m - e),
        g == distance(r - l),
        0 < part < span,
    ensures
        distance(out * span - ((m - l) * span - part * (r - l))) * FULL <= span * (80 * (distance(l) + distance(m)
            + distance(r)) + 2 * FULL),
{
    let f = FULL as int;
    let (x, y, z) = (out - (m - e), e - (l + p), p * span - part * (r - l));
    let w = out * span - ((m - l) * span - part * (r - l));
    assert(w == span * x - span * y - z) by (nonlinear_arith)
        requires
            w == out * span - ((m - l) * span - part * (r - l)),
            x == out - (m - e),
            y == e - (l + p),
            z == p * span - part * (r - l),
    ;
    let (a, b, c) = (distance(x), distance(y), distance(z));
    assert(distance(w) <= span * a + span * b + c) by (nonlinear_arith)
        requires
            w == span * x - span * y - z,
            x == a || x == -a,
            y == b || y == -b,
            z == c || z == -c,
            a >= 0,
            b >= 0,
            c >= 0,
            span > 0,
            distance(w) == w || distance(w) == -w,
    {
        assert(span * a >= 0);
        assert(span * b >= 0);
        assert(span * x == span * a || span * x == -(span * a));
        assert(span * y == span * b || span * y == -(span * b));
    }
    let sum = distance(l) + distance(m) + distance(r);
    assert(g <= sum);
    // Each part in its own bound.
    let first = distance(m - e);
    let second = distance(l + p);
    assert(second <= sum + 8 * g + 1);
    assert(first <= sum + 2 * second);
    assert(first + second <= 31 * sum + 4);
    assert(distance(w) * f <= span * (first + second) + span * (26 * g + f)) by (nonlinear_arith)
        requires
            distance(w) <= span * a + span * b + c,
            a * f <= first,
            b * f <= second,
            c * f <= span * (26 * g + f),
            span > 0,
            f > 0,
    {
        assert(distance(w) * f <= (span * a + span * b + c) * f);
        assert((span * a + span * b + c) * f == span * (a * f) + span * (b * f) + c * f);
        assert(span * (a * f) <= span * first);
        assert(span * (b * f) <= span * second);
        assert(span * (first + second) == span * first + span * second);
    }
    assert(span * (first + second) + span * (26 * g + f) <= span * (80 * sum + 2 * f)) by (nonlinear_arith)
        requires
            first + second <= 31 * sum + 4,
            g <= sum,
            f >= 4,
            sum >= 0,
            span > 0,
    {
        assert(first + second + 26 * g + f <= 80 * sum + 2 * f);
        assert(span * (first + second) + span * (26 * g + f) == span * (first + second + 26 * g + f));
    }
}

} // verus!
