//! How much inventory, carry and arrivals move a quote, against the exact amounts.

use vstd::arithmetic::power2::{lemma_pow2_pos, lemma_pow2_strictly_increases};
use vstd::prelude::*;

use crate::float_bits;
use crate::float_bits::{F64Bits, TWO};
use crate::float_error;
use crate::float_error::FULL;
use crate::float_math;
use crate::float_near;
use crate::float_near::{distance, full, near};
use crate::float_order;
use crate::float_round;
use crate::oms_core::Side;
use crate::quoting_engine::bounds;
use crate::quoting_engine::engine;
use crate::quoting_engine::engine::QuoteRates;
use crate::quoting_engine::error::QuoteError;
use crate::quoting_engine::reservation;
use crate::quoting_engine::types;
use crate::quoting_engine::types::{AvellanedaStoikovParams, InventoryState, MakerRateBounds};
use crate::tick_math::fixed;
use crate::tick_math::FixedX18;

verus! {

/// With an exposure and a locked rate, the carry adjustment is the weight times
/// the distance of reference and locked rate, as far as rounding goes. It is
/// positive for a long whose locked rate is below the reference and for a short
/// whose locked rate is above it, and negative the other way round.
pub proof fn law_carry_is_the_weighted_distance(
    reference_rate: F64Bits,
    net_dv01: F64Bits,
    locked: F64Bits,
    params: AvellanedaStoikovParams,
)
    requires
        float_bits::finite(params.carry_weight),
        !float_bits::nan(net_dv01),
        !float_math::zero(net_dv01),
        float_bits::finite(reference_rate),
        float_bits::finite(locked),
        float_bits::finite(float_math::difference(reference_rate, locked)),
        float_math::zero(params.carry_weight) || float_bits::equal(reference_rate, locked) || full(
            float_math::product(params.carry_weight, float_math::difference(reference_rate, locked)),
        ),
    ensures
        ({
            let carry = reservation::carry_of(
                reference_rate,
                InventoryState { net_dv01, avg_locked_fixed_rate: Some(locked) },
                params,
            );
            let gap = float_math::value(reference_rate) - float_math::value(locked);
            &&& float_bits::finite(carry)
            &&& near(
                float_math::size(carry) * float_math::unit(),
                float_math::size(params.carry_weight) * distance(gap),
                3,
            )
            &&& types::above_zero(params.carry_weight) && gap != 0 ==> (float_bits::signed(carry) <==> (
            float_bits::signed(net_dv01) != (gap < 0)))
        }),
{
    let w = params.carry_weight;
    let diff = float_math::difference(reference_rate, locked);
    let gap = float_math::value(reference_rate) - float_math::value(locked);
    let one = reservation::sign_of(net_dv01);
    float_near::law_difference_is_near(reference_rate, locked);
    float_math::lemma_signed_one(one, diff);
    let advantage = float_math::product(one, diff);
    let carry = reservation::carry_of(
        reference_rate,
        InventoryState { net_dv01, avg_locked_fixed_rate: Some(locked) },
        params,
    );
    let u = float_math::unit();
    float_math::lemma_small_multiples();
    float_error::lemma_sizes(w);
    float_error::lemma_sizes(diff);
    let (x, g) = (float_math::size(w), distance(gap));
    if float_math::zero(w) {
        assert(0 * u == 0 && 0 * g == 0);
    } else if float_math::zero(diff) {
        float_order::lemma_product_with_zero(w, advantage);
        assert(x * 0 == 0 && 0 * u == 0);
    } else {
        lemma_equal_rates(reference_rate, locked);
        lemma_opposite_product(w, diff);
        assert(full(float_math::product(w, advantage)));
        float_near::law_product_is_near(w, advantage);
        let d = float_math::size(diff);
        assert(float_math::size(advantage) == d);
        float_near::law_near_scales(d, g, x, 1);
        assert(d * x == x * d && g * x == x * g) by (nonlinear_arith);
        lemma_pow2_pos(1074);
        float_error::lemma_sizes(carry);
        assert(float_math::size(carry) * u >= 0 && x * g >= 0) by (nonlinear_arith)
            requires
                float_math::size(carry) >= 0,
                u > 0,
                x >= 0,
                g >= 0,
        ;
        float_near::law_near_chains(float_math::size(carry) * u, x * d, x * g, 1, 1);
    }
}

/// Equal numbers stand for the same.
proof fn lemma_equal_rates(a: F64Bits, b: F64Bits)
    requires
        float_bits::finite(a),
        float_bits::finite(b),
    ensures
        float_bits::equal(a, b) ==> float_math::value(a) == float_math::value(b),
{
    float_math::lemma_small_multiples();
}

/// A product with the opposite has the same magnitude.
proof fn lemma_opposite_product(a: F64Bits, b: F64Bits)
    requires
        float_bits::finite(a),
        float_bits::finite(b),
    ensures
        float_bits::mag(float_math::product(a, float_math::negated(b))) == float_bits::mag(
            float_math::product(a, b),
        ),
{
    reveal(float_math::product);
    float_round::law_nearest_exists(float_math::size(a) * float_math::size(b), float_math::unit());
}

/// Whether a skew is computed without overflow and without losing precision near
/// zero.
pub open spec fn plain_skew(net_dv01: F64Bits, params: AvellanedaStoikovParams) -> bool {
    let variance = float_math::product(params.sigma, params.sigma);
    let weighed = float_math::product(net_dv01, params.gamma);
    &&& float_bits::finite(net_dv01)
    &&& float_bits::finite(params.gamma)
    &&& float_bits::finite(params.sigma)
    &&& full(variance)
    &&& full(weighed)
    &&& full(float_math::product(weighed, variance))
    &&& full(reservation::skew_of(net_dv01, params))
}

/// The horizon in years is near its seconds over those of a year.
proof fn lemma_years_are_near(params: AvellanedaStoikovParams)
    requires
        params.horizon_secs > 0,
    ensures
        full(reservation::years(params)),
        !float_bits::signed(reservation::years(params)),
        near(
            float_math::size(reservation::years(params)) * 31_536_000,
            params.horizon_secs * float_math::unit(),
            1,
        ),
{
    let u = float_math::unit();
    let h = params.horizon_secs as int;
    let a = float_math::of_integer(h);
    let b = float_math::of_integer(31_536_000);
    lemma_pow2_pos(1074);
    float_math::lemma_of_integer(h);
    float_math::lemma_of_integer(31_536_000);
    float_math::law_small_integers_are_exact(h);
    float_math::law_small_integers_are_exact(31_536_000);
    let y = reservation::years(params);
    let (n, d) = (h * u * u, 31_536_000 * u);
    assert(float_math::size(a) == h * u);
    assert(float_math::size(b) == 31_536_000 * u);
    assert(full(y) && !float_bits::signed(y)) by {
        reveal(float_math::quotient);
        float_round::lemma_powers();
        lemma_pow2_strictly_increases(128, 1074);
        lemma_pow2_strictly_increases(128, 1023);
        assert(n <= d * (u * float_error::cap())) by (nonlinear_arith)
            requires
                n == h * u * u,
                d == 31_536_000 * u,
                0 < h <= 0xffff_ffff,
                float_error::cap() >= 0x1_0000_0000,
                u > 0,
        {
            let q = u * u;
            let c = float_error::cap();
            assert(q > 0);
            assert(n == h * q);
            assert(h * q <= c * q);
            assert(c * q <= 31_536_000 * (c * q)) by {
                assert(c * q > 0);
            }
            assert(d * (u * c) == 31_536_000 * (c * q));
        }
        float_error::lemma_rounds_to_finite(n, d);
        float_error::lemma_least(FULL as int);
        float_math::lemma_rounded_exact(FULL as int);
        assert((FULL as int) * d <= n * 1) by (nonlinear_arith)
            requires
                n == h * u * u,
                d == 31_536_000 * u,
                h > 0,
                u >= 0x1_0000_0000_0000_0000_0000_0000_0000_0000,
                FULL == 0x10_0000_0000_0000,
        {
            let q = u * u;
            assert(q >= 0x1_0000_0000_0000_0000_0000_0000_0000_0000 * u);
            assert(n == h * q);
            assert(h * q >= q);
        }
        float_round::law_rounding_keeps_order(FULL as int, 1, n, d);
        float_round::law_nearest_exists(n, d);
    }
    float_near::law_quotient_is_near(a, b);
    let s = float_math::size(y);
    assert(s * d == (s * 31_536_000) * u) by (nonlinear_arith)
        requires
            d == 31_536_000 * u,
    ;
    float_near::law_near_cancels(s * 31_536_000, h * u, u, 1);
}

/// What inventory takes off the reference is the exposure times the risk aversion
/// times the variance times the horizon in years, as far as rounding goes, with
/// the sign of the exposure.
pub proof fn law_skew_is_exposure_times_risk(net_dv01: F64Bits, params: AvellanedaStoikovParams)
    requires
        types::param_fault(params) is None,
        plain_skew(net_dv01, params),
    ensures
        ({
            let u = float_math::unit();
            let skew = reservation::skew_of(net_dv01, params);
            let sigma = float_math::size(params.sigma);
            &&& near(
                float_math::size(skew) * u * (u * u * 31_536_000),
                (float_math::size(net_dv01) * float_math::size(params.gamma)) * (sigma * sigma)
                    * params.horizon_secs,
                9,
            )
            &&& float_bits::signed(skew) == float_bits::signed(net_dv01)
        }),
{
    let u = float_math::unit();
    lemma_pow2_pos(1074);
    lemma_years_are_near(params);
    let variance = float_math::product(params.sigma, params.sigma);
    let weighed = float_math::product(net_dv01, params.gamma);
    let risk = float_math::product(weighed, variance);
    let years = reservation::years(params);
    let skew = reservation::skew_of(net_dv01, params);
    float_near::law_product_is_near(params.sigma, params.sigma);
    float_near::law_product_is_near(net_dv01, params.gamma);
    float_near::law_product_is_near(weighed, variance);
    float_near::law_product_is_near(risk, years);
    float_error::lemma_sizes(net_dv01);
    float_error::lemma_sizes(params.gamma);
    float_error::lemma_sizes(params.sigma);
    float_error::lemma_sizes(variance);
    float_error::lemma_sizes(weighed);
    float_error::lemma_sizes(risk);
    float_error::lemma_sizes(years);
    float_error::lemma_sizes(skew);
    lemma_four_products(
        float_math::size(net_dv01),
        float_math::size(params.gamma),
        float_math::size(params.sigma),
        float_math::size(variance),
        float_math::size(weighed),
        float_math::size(risk),
        float_math::size(years),
        float_math::size(skew),
        params.horizon_secs as int,
        31_536_000,
        u,
    );
}

proof fn lemma_four_products(
    a: int,
    g: int,
    s: int,
    v: int,
    p: int,
    q: int,
    y: int,
    k: int,
    h: int,
    year: int,
    u: int,
)
    requires
        near(v * u, s * s, 1),
        near(p * u, a * g, 1),
        near(q * u, p * v, 1),
        near(k * u, q * y, 1),
        near(y * year, h * u, 1),
        a >= 0,
        g >= 0,
        s >= 0,
        v >= 0,
        p >= 0,
        q >= 0,
        y >= 0,
        k >= 0,
        h >= 0,
        year > 0,
        u > 0,
    ensures
        near(k * u * (u * u * year), (a * g) * (s * s) * h, 9),
{
    lemma_signs(a, g);
    lemma_signs(s, s);
    lemma_signs(v, u);
    lemma_signs(p, u);
    lemma_signs(q, u);
    lemma_signs(p, v);
    lemma_signs(k, u);
    lemma_signs(q, y);
    lemma_signs(y, year);
    lemma_signs(h, u);
    lemma_signs(u, u);
    lemma_signs(u * u, year);
    // The last product.
    let c = u * u * year;
    float_near::law_near_scales(k * u, q * y, c, 1);
    assert((q * y) * c == ((q * u) * (y * year)) * u) by (nonlinear_arith)
        requires
            c == u * u * year,
    ;
    // The years and the risk.
    float_near::law_near_multiplies(q * u, p * v, y * year, h * u, 1, 1);
    float_near::law_near_scales((q * u) * (y * year), (p * v) * (h * u), u, 3);
    assert(((p * v) * (h * u)) * u == ((p * u) * (v * u)) * h) by (nonlinear_arith);
    // The exposure and the variance.
    float_near::law_near_multiplies(p * u, a * g, v * u, s * s, 1, 1);
    float_near::law_near_scales((p * u) * (v * u), (a * g) * (s * s), h, 3);
    lemma_signs(k * u, c);
    lemma_signs((q * u) * (y * year), u);
    lemma_signs(q * u, y * year);
    lemma_signs(p * u, v * u);
    lemma_signs((p * u) * (v * u), h);
    lemma_signs(a * g, s * s);
    lemma_signs((a * g) * (s * s), h);
    float_near::law_near_chains(
        (k * u) * c,
        ((q * u) * (y * year)) * u,
        ((p * u) * (v * u)) * h,
        1,
        3,
    );
    float_near::law_near_chains(
        (k * u) * c,
        ((p * u) * (v * u)) * h,
        ((a * g) * (s * s)) * h,
        5,
        3,
    );
}

proof fn lemma_signs(x: int, y: int)
    requires
        x >= 0,
        y >= 0,
    ensures
        x * y >= 0,
{
    assert(x * y >= 0) by (nonlinear_arith)
        requires
            x >= 0,
            y >= 0,
    ;
}

/// Whether the inventory part of a spread is computed without overflow and without
/// losing precision near zero.
pub open spec fn plain_risk(params: AvellanedaStoikovParams) -> bool {
    let variance = float_math::product(params.sigma, params.sigma);
    &&& float_bits::finite(params.gamma)
    &&& float_bits::finite(params.sigma)
    &&& full(variance)
    &&& full(float_math::product(params.gamma, variance))
    &&& full(reservation::inventory_term(params))
}

/// The inventory part of the spread is the risk aversion times the variance times
/// the horizon in years, as far as rounding goes.
pub proof fn law_inventory_term_is_risk_over_the_horizon(params: AvellanedaStoikovParams)
    requires
        types::param_fault(params) is None,
        plain_risk(params),
    ensures
        ({
            let u = float_math::unit();
            let sigma = float_math::size(params.sigma);
            near(
                float_math::size(reservation::inventory_term(params)) * u * (u * 31_536_000),
                float_math::size(params.gamma) * (sigma * sigma) * params.horizon_secs,
                7,
            )
        }),
{
    let u = float_math::unit();
    lemma_pow2_pos(1074);
    lemma_years_are_near(params);
    let variance = float_math::product(params.sigma, params.sigma);
    let risk = float_math::product(params.gamma, variance);
    let years = reservation::years(params);
    let term = reservation::inventory_term(params);
    float_near::law_product_is_near(params.sigma, params.sigma);
    float_near::law_product_is_near(params.gamma, variance);
    float_near::law_product_is_near(risk, years);
    float_error::lemma_sizes(params.gamma);
    float_error::lemma_sizes(params.sigma);
    float_error::lemma_sizes(variance);
    float_error::lemma_sizes(risk);
    float_error::lemma_sizes(years);
    float_error::lemma_sizes(term);
    lemma_three_products(
        float_math::size(params.gamma),
        float_math::size(params.sigma),
        float_math::size(variance),
        float_math::size(risk),
        float_math::size(years),
        float_math::size(term),
        params.horizon_secs as int,
        31_536_000,
        u,
    );
}

proof fn lemma_three_products(g: int, s: int, v: int, q: int, y: int, k: int, h: int, year: int, u: int)
    requires
        near(v * u, s * s, 1),
        near(q * u, g * v, 1),
        near(k * u, q * y, 1),
        near(y * year, h * u, 1),
        g >= 0,
        s >= 0,
        v >= 0,
        q >= 0,
        y >= 0,
        k >= 0,
        h >= 0,
        year > 0,
        u > 0,
    ensures
        near(k * u * (u * year), g * (s * s) * h, 7),
{
    lemma_signs(s, s);
    lemma_signs(v, u);
    lemma_signs(q, u);
    lemma_signs(g, v);
    lemma_signs(k, u);
    lemma_signs(q, y);
    lemma_signs(y, year);
    lemma_signs(h, u);
    lemma_signs(u, year);
    let c = u * year;
    float_near::law_near_scales(k * u, q * y, c, 1);
    assert((q * y) * c == (q * u) * (y * year)) by (nonlinear_arith)
        requires
            c == u * year,
    ;
    float_near::law_near_multiplies(q * u, g * v, y * year, h * u, 1, 1);
    assert((g * v) * (h * u) == (v * u) * (g * h)) by (nonlinear_arith);
    lemma_signs(g, h);
    float_near::law_near_scales(v * u, s * s, g * h, 1);
    assert((s * s) * (g * h) == g * (s * s) * h) by (nonlinear_arith);
    lemma_signs(k * u, c);
    lemma_signs(v * u, g * h);
    lemma_signs(g, s * s);
    lemma_signs(g * (s * s), h);
    float_near::law_near_chains((k * u) * c, (q * u) * (y * year), (v * u) * (g * h), 1, 3);
    float_near::law_near_chains((k * u) * c, (v * u) * (g * h), g * (s * s) * h, 5, 1);
}

/// The arrival part of the spread is twice the logarithm over the risk aversion, as
/// far as rounding goes, with the sign of the logarithm.
pub proof fn law_liquidity_term_is_twice_the_logarithm_over_risk(params: AvellanedaStoikovParams, log: F64Bits)
    requires
        types::param_fault(params) is None,
        float_bits::finite(params.gamma),
        float_bits::finite(log),
        full(float_math::quotient(F64Bits(TWO), params.gamma)),
        full(reservation::liquidity_term(params, log)),
    ensures
        ({
            let term = reservation::liquidity_term(params, log);
            &&& near(
                float_math::size(term) * float_math::size(params.gamma),
                2 * float_math::unit() * float_math::size(log),
                3,
            )
            &&& float_bits::signed(term) == float_bits::signed(log)
        }),
{
    let u = float_math::unit();
    lemma_pow2_pos(1074);
    float_math::lemma_two();
    let rate = float_math::quotient(F64Bits(TWO), params.gamma);
    let term = reservation::liquidity_term(params, log);
    float_near::law_quotient_is_near(F64Bits(TWO), params.gamma);
    float_near::law_product_is_near(rate, log);
    float_error::lemma_sizes(params.gamma);
    float_error::lemma_sizes(log);
    float_error::lemma_sizes(rate);
    float_error::lemma_sizes(term);
    let (r, g, l, k) = (
        float_math::size(rate),
        float_math::size(params.gamma),
        float_math::size(log),
        float_math::size(term),
    );
    // k * u is near r * l, and r * g is near 2 * u * u.
    float_near::law_near_scales(k * u, r * l, g, 1);
    assert((r * l) * g == (r * g) * l) by (nonlinear_arith);
    float_near::law_near_scales(r * g, float_math::size(F64Bits(TWO)) * u, l, 1);
    lemma_signs(k, u);
    lemma_signs(k * u, g);
    lemma_signs(u, u);
    lemma_signs(2 * u, u);
    lemma_signs(2 * u * u, l);
    float_near::law_near_chains((k * u) * g, (r * g) * l, (2 * u * u) * l, 1, 1);
    assert((k * u) * g == (k * g) * u) by (nonlinear_arith);
    assert((2 * u * u) * l == (2 * u * l) * u) by (nonlinear_arith);
    float_near::law_near_cancels(k * g, 2 * u * l, u, 3);
}

/// The spread is its two parts together, as far as rounding goes.
pub proof fn law_spread_is_both_terms(params: AvellanedaStoikovParams, log: F64Bits)
    requires
        float_bits::finite(reservation::inventory_term(params)),
        float_bits::finite(reservation::liquidity_term(params, log)),
        float_bits::finite(reservation::spread_of(params, log)),
    ensures
        ({
            let total = float_math::value(reservation::inventory_term(params)) + float_math::value(
                reservation::liquidity_term(params, log),
            );
            let spread = reservation::spread_of(params, log);
            &&& near(float_math::size(spread), distance(total), 1)
            &&& total > 0 ==> float_math::value(spread) == float_math::size(spread)
            &&& total < 0 ==> float_math::value(spread) == -float_math::size(spread)
        }),
{
    float_near::law_sum_is_near(reservation::inventory_term(params), reservation::liquidity_term(params, log));
}

/// What is near is off by at most as many parts of the larger.
proof fn lemma_off(x: int, y: int)
    requires
        near(x, y, 1),
        x >= 0,
        y >= 0,
    ensures
        (x - y) * FULL <= y,
        (y - x) * FULL <= x,
        x <= 2 * y,
        y <= 2 * x,
{
    let e = FULL as int;
    assert(y * (e + 1) == y * e + y && x * (e + 1) == x * e + x) by (nonlinear_arith);
    assert((x - y) * e == x * e - y * e) by (nonlinear_arith);
    assert((y - x) * e == y * e - x * e) by (nonlinear_arith);
    assert(x <= 2 * y) by (nonlinear_arith)
        requires
            x * e <= y * e + y,
            y >= 0,
            e == 0x10_0000_0000_0000,
    ;
    assert(y <= 2 * x) by (nonlinear_arith)
        requires
            y * e <= x * e + x,
            x >= 0,
            e == 0x10_0000_0000_0000,
    ;
}

/// A computed number against an exact one of the same sign.
proof fn lemma_off_signed(f: F64Bits, total: int)
    requires
        near(float_math::size(f), distance(total), 1),
        float_bits::finite(f),
        total == 0 <==> float_math::zero(f),
        total > 0 ==> float_math::value(f) == float_math::size(f),
        total < 0 ==> float_math::value(f) == -float_math::size(f),
    ensures
        distance(float_math::value(f) - total) * FULL <= 2 * distance(total),
        distance(float_math::value(f)) <= 2 * distance(total),
{
    float_error::lemma_sizes(f);
    let (x, y) = (float_math::size(f), distance(total));
    lemma_off(x, y);
    let off = distance(float_math::value(f) - total);
    assert(off == x - y || off == y - x);
}

/// The reservation rate is the reference without the skew and with the carry, as
/// far as rounding goes.
pub proof fn law_reservation_is_reference_without_skew_with_carry(
    reference_rate: F64Bits,
    inventory: InventoryState,
    params: AvellanedaStoikovParams,
)
    requires
        float_bits::finite(reference_rate),
        float_bits::finite(reservation::skew_of(inventory.net_dv01, params)),
        float_bits::finite(reservation::carry_of(reference_rate, inventory, params)),
        float_bits::finite(
            float_math::difference(reference_rate, reservation::skew_of(inventory.net_dv01, params)),
        ),
        float_bits::finite(reservation::reservation_of(reference_rate, inventory, params)),
    ensures
        ({
            let r = float_math::value(reference_rate);
            let s = float_math::value(reservation::skew_of(inventory.net_dv01, params));
            let c = float_math::value(reservation::carry_of(reference_rate, inventory, params));
            let result = float_math::value(reservation::reservation_of(reference_rate, inventory, params));
            distance(result - (r - s + c)) * FULL <= 6 * (distance(r) + distance(s) + distance(c))
        }),
{
    let skew = reservation::skew_of(inventory.net_dv01, params);
    let carry = reservation::carry_of(reference_rate, inventory, params);
    let base = float_math::difference(reference_rate, skew);
    let out = reservation::reservation_of(reference_rate, inventory, params);
    float_near::law_difference_is_near(reference_rate, skew);
    float_near::law_sum_is_near(base, carry);
    let (r, s, c) = (float_math::value(reference_rate), float_math::value(skew), float_math::value(carry));
    lemma_off_signed(base, r - s);
    lemma_off_signed(out, float_math::value(base) + c);
    lemma_two_sums(r - s, float_math::value(base), c, float_math::value(out));
}

proof fn lemma_two_sums(exact: int, base: int, more: int, out: int)
    requires
        distance(base - exact) * FULL <= 2 * distance(exact),
        distance(base) <= 2 * distance(exact),
        distance(out - (base + more)) * FULL <= 2 * distance(base + more),
    ensures
        distance(out - (exact + more)) * FULL <= 6 * distance(exact) + 2 * distance(more),
{
    let e = FULL as int;
    let (p, q) = (distance(base - exact), distance(out - (base + more)));
    let w = distance(out - (exact + more));
    assert(w * e <= p * e + q * e) by (nonlinear_arith)
        requires
            w <= p + q,
            e > 0,
    ;
}

/// Whether the two rates before the clamps are computed without overflow.
pub open spec fn plain_quote(
    params: AvellanedaStoikovParams,
    reference_rate: FixedX18,
    inventory: InventoryState,
    log: F64Bits,
) -> bool {
    &&& float_bits::finite(reservation::reservation_of(fixed::to_float(reference_rate), inventory, params))
    &&& float_bits::finite(reservation::spread_of(params, log))
    &&& full(float_math::quotient(reservation::spread_of(params, log), F64Bits(TWO)))
    &&& float_bits::finite(engine::raw_bid(params, reference_rate, inventory, log))
    &&& float_bits::finite(engine::raw_ask(params, reference_rate, inventory, log))
}

/// Before the clamps the bid lies half a spread below the reservation rate and the
/// ask half a spread above it, as far as rounding goes.
pub proof fn law_a_quote_lies_half_a_spread_to_each_side(
    params: AvellanedaStoikovParams,
    reference_rate: FixedX18,
    inventory: InventoryState,
    log: F64Bits,
)
    requires
        plain_quote(params, reference_rate, inventory, log),
    ensures
        ({
            let middle = float_math::value(
                reservation::reservation_of(fixed::to_float(reference_rate), inventory, params),
            );
            let spread = float_math::value(reservation::spread_of(params, log));
            let bid = float_math::value(engine::raw_bid(params, reference_rate, inventory, log));
            let ask = float_math::value(engine::raw_ask(params, reference_rate, inventory, log));
            &&& distance(2 * bid - (2 * middle - spread)) * FULL <= 12 * (distance(middle) + distance(spread))
            &&& distance(2 * ask - (2 * middle + spread)) * FULL <= 12 * (distance(middle) + distance(spread))
        }),
{
    let middle = reservation::reservation_of(fixed::to_float(reference_rate), inventory, params);
    let spread = reservation::spread_of(params, log);
    let half = float_math::quotient(spread, F64Bits(TWO));
    let bid = engine::raw_bid(params, reference_rate, inventory, log);
    let ask = engine::raw_ask(params, reference_rate, inventory, log);
    lemma_half_value(spread);
    let (m, s, h) = (float_math::value(middle), float_math::value(spread), float_math::value(half));
    float_near::law_difference_is_near(middle, half);
    lemma_off_signed(bid, m - h);
    lemma_half_off(m, -h, -s, float_math::value(bid));
    float_near::law_sum_is_near(middle, half);
    lemma_off_signed(ask, m + h);
    lemma_half_off(m, h, s, float_math::value(ask));
}

/// Half of a spread.
proof fn lemma_half_value(spread: F64Bits)
    requires
        float_bits::finite(spread),
        full(float_math::quotient(spread, F64Bits(TWO))),
    ensures
        ({
            let s = float_math::value(spread);
            let h = float_math::value(float_math::quotient(spread, F64Bits(TWO)));
            distance(2 * h - s) * FULL <= 2 * distance(s)
        }),
{
    let u = float_math::unit();
    lemma_pow2_pos(1074);
    float_math::lemma_two();
    let half = float_math::quotient(spread, F64Bits(TWO));
    float_near::law_quotient_is_near(spread, F64Bits(TWO));
    float_error::lemma_sizes(spread);
    float_error::lemma_sizes(half);
    let (x, y) = (float_math::size(half), float_math::size(spread));
    assert(x * (2 * u) == (2 * x) * u) by (nonlinear_arith);
    float_near::law_near_cancels(2 * x, y, u, 1);
    lemma_off(2 * x, y);
}

proof fn lemma_half_off(m: int, h: int, s: int, out: int)
    requires
        distance(2 * h - s) * FULL <= 2 * distance(s),
        distance(2 * h) <= 2 * distance(s),
        distance(out - (m + h)) * FULL <= 2 * distance(m + h),
    ensures
        distance(2 * out - (2 * m + s)) * FULL <= 12 * (distance(m) + distance(s)),
{
    let e = FULL as int;
    let (p, q) = (distance(2 * h - s), distance(out - (m + h)));
    let w = distance(2 * out - (2 * m + s));
    assert(w * e <= p * e + 2 * (q * e)) by (nonlinear_arith)
        requires
            w <= p + 2 * q,
            e > 0,
    ;
}

/// A bid within its bound stays as it is, and one above it comes down to it; an
/// ask within its bound stays as it is, and one below it comes up to it.
pub proof fn law_a_clamp_moves_a_rate_to_its_bound_only(
    raw_bid: F64Bits,
    raw_ask: F64Bits,
    bounds: MakerRateBounds,
    mark_rate: F64Bits,
    k_i_thresh: F64Bits,
)
    requires
        !float_bits::nan(raw_bid),
        !float_bits::nan(raw_ask),
        !float_bits::nan(types::bound_of(bounds, Side::Long, mark_rate, k_i_thresh)),
        !float_bits::nan(types::bound_of(bounds, Side::Short, mark_rate, k_i_thresh)),
    ensures
        ({
            let upper = types::bound_of(bounds, Side::Long, mark_rate, k_i_thresh);
            let lower = types::bound_of(bounds, Side::Short, mark_rate, k_i_thresh);
            let bid = bounds::bid_of(raw_bid, bounds, mark_rate, k_i_thresh);
            let ask = bounds::ask_of(raw_ask, bounds, mark_rate, k_i_thresh);
            &&& float_order::at_most(raw_bid, upper) ==> bid == raw_bid
            &&& float_bits::less(upper, raw_bid) ==> bid == upper
            &&& float_order::at_most(lower, raw_ask) ==> ask == raw_ask
            &&& float_bits::less(raw_ask, lower) ==> ask == lower
        }),
{
}

/// A quote is made from the reference rate and kept within the bounds of the mark rate:
/// a bid that its bound admits is half a spread below the reservation rate, and an ask
/// half a spread above it. The reservation rate goes out as it is.
pub proof fn law_a_quote_keeps_to_the_bounds_of_the_mark(
    params: AvellanedaStoikovParams,
    reference_rate: FixedX18,
    mark_rate: FixedX18,
    k_i_thresh: FixedX18,
    inventory: InventoryState,
    bounds: MakerRateBounds,
    log: F64Bits,
)
    ensures
        ({
            let rates = engine::rates_of(
                params,
                reference_rate,
                mark_rate,
                k_i_thresh,
                inventory,
                bounds,
                log,
            );
            let (mark, thresh) = (fixed::to_float(mark_rate), fixed::to_float(k_i_thresh));
            let upper = types::bound_of(bounds, Side::Long, mark, thresh);
            let lower = types::bound_of(bounds, Side::Short, mark, thresh);
            let bid = engine::raw_bid(params, reference_rate, inventory, log);
            let ask = engine::raw_ask(params, reference_rate, inventory, log);
            &&& rates.reservation == reservation::reservation_of(fixed::to_float(reference_rate), inventory, params)
            &&& float_order::at_most(bid, upper) ==> rates.bid == bid
            &&& float_bits::less(upper, bid) ==> rates.bid == upper
            &&& float_order::at_most(lower, ask) ==> rates.ask == ask
            &&& float_bits::less(ask, lower) ==> rates.ask == lower
        }),
{
}

/// The slope of a bound: the upper one bounds longs, the lower one shorts.
pub open spec fn slope_for(b: MakerRateBounds, side: Side) -> int {
    match side {
        Side::Long => b.lo_upper_slope_base1e4 as int,
        Side::Short => b.lo_lower_slope_base1e4 as int,
    }
}

/// The constant of a bound: the upper one bounds longs, the lower one shorts.
pub open spec fn constant_for(b: MakerRateBounds, side: Side) -> int {
    match side {
        Side::Long => b.lo_upper_const_base1e4 as int,
        Side::Short => b.lo_lower_const_base1e4 as int,
    }
}

/// At or above the threshold the bound of a side is the mark rate times the slope,
/// in hundredths of a percent, as far as rounding goes.
pub proof fn law_a_bound_past_the_threshold_follows_the_slope(
    b: MakerRateBounds,
    side: Side,
    mark_rate: F64Bits,
    k_i_thresh: F64Bits,
)
    requires
        float_bits::finite(mark_rate),
        types::at_least_zero(mark_rate),
        float_order::at_most(k_i_thresh, mark_rate),
        slope_for(b, side) != 0,
        full(types::bound_of(b, side, mark_rate, k_i_thresh)),
    ensures
        ({
            let bound = types::bound_of(b, side, mark_rate, k_i_thresh);
            let slope = slope_for(b, side);
            &&& near(float_math::size(bound) * 10_000, float_math::size(mark_rate) * distance(slope), 5)
            &&& float_bits::signed(bound) == (float_bits::signed(mark_rate) != (slope < 0))
        }),
{
    let u = float_math::unit();
    lemma_pow2_pos(1074);
    let slope = slope_for(b, side);
    lemma_base_points(slope);
    let share = float_math::quotient(float_math::of_integer(slope), float_math::of_integer(10_000));
    let bound = types::bound_of(b, side, mark_rate, k_i_thresh);
    float_near::law_product_is_near(mark_rate, share);
    float_error::lemma_sizes(mark_rate);
    float_error::lemma_sizes(share);
    float_error::lemma_sizes(bound);
    let (k, m, s) = (float_math::size(bound), float_math::size(mark_rate), float_math::size(share));
    let d = distance(slope);
    // k * u is near m * s, and s * 10_000 is near d * u.
    float_near::law_near_scales(k * u, m * s, 10_000, 1);
    assert((m * s) * 10_000 == (s * 10_000) * m) by (nonlinear_arith);
    float_near::law_near_scales(s * 10_000, d * u, m, 1);
    lemma_signs(k, u);
    lemma_signs(d, u);
    lemma_signs(d * u, m);
    float_near::law_near_chains((k * u) * 10_000, (s * 10_000) * m, (d * u) * m, 1, 1);
    assert((k * u) * 10_000 == (k * 10_000) * u) by (nonlinear_arith);
    assert((d * u) * m == (m * d) * u) by (nonlinear_arith);
    float_near::law_near_cancels(k * 10_000, m * d, u, 3);
    lemma_signs(m, d);
    float_near::law_near_widens(k * 10_000, m * d, 3, 5);
}

/// A number of hundredths of a percent as a float.
proof fn lemma_base_points(v: int)
    requires
        -0x8000 <= v <= 0x7fff,
    ensures
        ({
            let share = float_math::quotient(float_math::of_integer(v), float_math::of_integer(10_000));
            &&& float_bits::finite(share)
            &&& v != 0 ==> float_bits::signed(share) == (v < 0)
            &&& v == 0 ==> float_math::zero(share)
            &&& near(float_math::size(share) * 10_000, distance(v) * float_math::unit(), 1)
        }),
{
    let u = float_math::unit();
    lemma_pow2_pos(1074);
    let a = float_math::of_integer(v);
    let b = float_math::of_integer(10_000);
    float_math::lemma_of_integer(v);
    float_math::lemma_of_integer(10_000);
    let d = distance(v);
    float_math::law_small_integers_are_exact(d);
    if d > 0 {
        float_math::law_opposite_integers(d);
    }
    float_math::law_small_integers_are_exact(10_000);
    float_math::lemma_small_multiples();
    let share = float_math::quotient(a, b);
    assert(float_math::size(a) == d * u) by {
        assert(v * u == -(distance(v) * u) || v * u == distance(v) * u) by (nonlinear_arith)
            requires
                distance(v) == v || distance(v) == -v,
        ;
        float_error::lemma_sizes(a);
        lemma_signs(d, u);
    }
    if v == 0 {
        float_math::lemma_quotient_sign(a, b);
        assert(0 * 10_000 == 0);
        assert(0 * u == 0);
    } else {
        let (n, q) = (d * u * u, 10_000 * u);
        assert(full(share)) by {
            reveal(float_math::quotient);
            float_round::lemma_powers();
            lemma_pow2_strictly_increases(128, 1074);
        lemma_pow2_strictly_increases(128, 1023);
            assert(n <= q * (u * float_error::cap())) by (nonlinear_arith)
                requires
                    n == d * u * u,
                    q == 10_000 * u,
                    0 < d <= 0x8000,
                    float_error::cap() >= 0x1_0000_0000,
                    u > 0,
            {
                let uu = u * u;
                let c = float_error::cap();
                assert(uu > 0);
                assert(n == d * uu);
                assert(d * uu <= c * uu);
                assert(q * (u * c) == 10_000 * (c * uu));
                assert(c * uu > 0);
            }
            float_error::lemma_rounds_to_finite(n, q);
            float_error::lemma_least(FULL as int);
            float_math::lemma_rounded_exact(FULL as int);
            assert((FULL as int) * q <= n * 1) by (nonlinear_arith)
                requires
                    n == d * u * u,
                    q == 10_000 * u,
                    d > 0,
                    u >= 0x1_0000_0000_0000_0000_0000_0000_0000_0000,
                    FULL == 0x10_0000_0000_0000,
            {
                let uu = u * u;
                assert(uu >= 0x1_0000_0000_0000_0000_0000_0000_0000_0000 * u);
                assert(n == d * uu);
                assert(d * uu >= uu);
            }
            float_round::law_rounding_keeps_order(FULL as int, 1, n, q);
            float_round::law_nearest_exists(n, q);
        }
        float_near::law_quotient_is_near(a, b);
        let s = float_math::size(share);
        assert(s * (10_000 * u) == (s * 10_000) * u) by (nonlinear_arith);
        float_near::law_near_cancels(s * 10_000, d * u, u, 1);
    }
}

/// Below the threshold the bound of a side is the mark rate and the constant, in
/// hundredths of a percent, together, as far as rounding goes.
pub proof fn law_a_bound_below_the_threshold_adds_the_constant(
    b: MakerRateBounds,
    side: Side,
    mark_rate: F64Bits,
    k_i_thresh: F64Bits,
)
    requires
        float_bits::finite(mark_rate),
        types::at_least_zero(mark_rate),
        float_bits::less(mark_rate, k_i_thresh),
        float_bits::finite(types::bound_of(b, side, mark_rate, k_i_thresh)),
    ensures
        ({
            let bound = float_math::value(types::bound_of(b, side, mark_rate, k_i_thresh));
            let mark = float_math::value(mark_rate);
            let constant = constant_for(b, side) * float_math::unit();
            distance(10_000 * bound - (10_000 * mark + constant)) * FULL <= 6 * (10_000 * distance(mark)
                + distance(constant))
        }),
{
    let u = float_math::unit();
    lemma_pow2_pos(1074);
    let konst = constant_for(b, side);
    lemma_base_points(konst);
    let share = float_math::quotient(float_math::of_integer(konst), float_math::of_integer(10_000));
    let bound = types::bound_of(b, side, mark_rate, k_i_thresh);
    float_near::law_sum_is_near(mark_rate, share);
    float_error::lemma_sizes(share);
    float_math::lemma_small_multiples();
    let (s, m) = (float_math::value(share), float_math::value(mark_rate));
    let total = konst * u;
    assert(distance(total) == distance(konst) * u) by (nonlinear_arith)
        requires
            total == konst * u,
            u > 0,
            distance(total) == (if total < 0 { -total } else { total }),
            distance(konst) == (if konst < 0 { -konst } else { konst }),
    ;
    lemma_signs(distance(konst), u);
    lemma_off(float_math::size(share) * 10_000, distance(konst) * u);
    lemma_off_signed(bound, m + s);
    assert(konst > 0 ==> total > 0) by (nonlinear_arith)
        requires
            total == konst * u,
            u > 0,
    ;
    assert(konst < 0 ==> total < 0) by (nonlinear_arith)
        requires
            total == konst * u,
            u > 0,
    ;
    assert(konst == 0 ==> total == 0);
    assert(distance(10_000 * s - total) * FULL <= 2 * distance(total));
    assert(distance(10_000 * s) <= 2 * distance(total));
    lemma_shifted_off(m, s, total, float_math::value(bound));
}

proof fn lemma_shifted_off(m: int, s: int, total: int, out: int)
    requires
        distance(10_000 * s - total) * FULL <= 2 * distance(total),
        distance(10_000 * s) <= 2 * distance(total),
        distance(out - (m + s)) * FULL <= 2 * distance(m + s),
    ensures
        distance(10_000 * out - (10_000 * m + total)) * FULL <= 6 * (10_000 * distance(m) + distance(total)),
{
    let e = FULL as int;
    let (p, q) = (distance(10_000 * s - total), distance(out - (m + s)));
    let w = distance(10_000 * out - (10_000 * m + total));
    assert(w * e <= p * e + 10_000 * (q * e)) by (nonlinear_arith)
        requires
            w <= p + 10_000 * q,
            e > 0,
    ;
}

/// A quote is refused exactly when the bid is not below the ask, with both rates;
/// otherwise it holds the fixed-point values of the three rates.
pub proof fn law_a_quote_is_refused_when_it_crosses(rates: QuoteRates)
    requires
        !float_bits::nan(rates.bid),
        !float_bits::nan(rates.ask),
    ensures
        float_bits::less(rates.bid, rates.ask) <==> engine::quote_of(rates) is Ok,
        engine::quote_of(rates) matches Err(e) ==> e == (QuoteError::CrossedAfterClamp {
            bid: rates.bid,
            ask: rates.ask,
        }),
        engine::quote_of(rates) matches Ok(quote) ==> quote.bid_rate == fixed::from_float(rates.bid)
            && quote.ask_rate == fixed::from_float(rates.ask) && quote.reservation_rate == fixed::from_float(
            rates.reservation,
        ),
{
}

} // verus!
