//! What sensitivities, exposures and divergences amount to, against the exact
//! amounts.

use vstd::arithmetic::power2::{lemma_pow2_adds, lemma_pow2_pos};
use vstd::prelude::*;

use crate::float_bits;
use crate::float_bits::F64Bits;
use crate::float_error;
use crate::float_math;
use crate::float_near;
use crate::float_near::{distance, full, near};
use crate::float_order;
use crate::float_round;
use crate::margin_sim::{AccountMarginState, MarginError, MarketState, Position};
use crate::risk_engine::dv01;
use crate::risk_engine::dv01::BASIS_POINT;
use crate::risk_engine::monitor;
use crate::risk_engine::monitor::EPSILON;
use crate::risk_engine::pre_trade;
use crate::risk_engine::pre_trade::Exposure;
use crate::risk_engine::types::PreTradeLimits;
use crate::tick_math::accuracy;
use crate::tick_math::fixed;
use crate::tick_math::FixedX18;

verus! {

/// One basis point is a ten-thousandth, as far as rounding goes.
proof fn lemma_basis_point()
    ensures
        near(float_math::size(F64Bits(BASIS_POINT)) * 10_000, float_math::unit(), 1),
        float_bits::finite(F64Bits(BASIS_POINT)),
        !float_bits::signed(F64Bits(BASIS_POINT)),
        float_math::size(F64Bits(BASIS_POINT)) > 0,
{
    float_round::lemma_powers();
    float_round::lemma_multiple(1008, 0x1a_36e2_eb1c_432d);
    lemma_pow2_adds(64, 2);
    lemma_pow2_adds(66, 1008);
    lemma_pow2_pos(1008);
    vstd::arithmetic::power2::lemma2_to64();
    let p = vstd::arithmetic::power2::pow2(1008) as int;
    float_near::law_near_scales(0x1a_36e2_eb1c_432dint * 10_000, 0x4_0000_0000_0000_0000int, p, 1);
    assert((0x1a_36e2_eb1c_432dint * 10_000) * p == (0x1a_36e2_eb1c_432dint * p) * 10_000) by (nonlinear_arith);
    assert(0x1a_36e2_eb1c_432dint * p > 0) by (nonlinear_arith)
        requires
            p > 0,
    ;
}

/// The sensitivity of a position is its size times its years to maturity times one
/// basis point, as far as rounding goes, with the sign of the size.
pub proof fn law_sensitivity_is_size_times_years(size: FixedX18, time_to_maturity_secs: u32)
    requires
        full(
            float_math::product(
                fixed::to_float(size),
                float_math::quotient(
                    float_math::of_integer(time_to_maturity_secs as int),
                    float_math::of_integer(31_536_000),
                ),
            ),
        ),
        full(dv01::dv01(size, time_to_maturity_secs)),
    ensures
        ({
            let d = dv01::dv01(size, time_to_maturity_secs);
            &&& near(
                float_math::size(d) * (1_000_000_000_000_000_000 * 31_536_000 * 10_000),
                (distance(size.0 as int) * time_to_maturity_secs) * float_math::unit(),
                17,
            )
            &&& float_bits::signed(d) == (size.0 < 0)
        }),
{
    let u = float_math::unit();
    lemma_pow2_pos(1074);
    let point = F64Bits(BASIS_POINT);
    lemma_basis_point();
    let x = fixed::to_float(size);
    let secs = time_to_maturity_secs as int;
    let y = float_math::quotient(float_math::of_integer(secs), float_math::of_integer(31_536_000));
    accuracy::law_a_float_is_near_its_fixed_value(size);
    float_near::law_integer_quotient_is_near(secs, 31_536_000);
    let xy = float_math::product(x, y);
    let d = dv01::dv01(size, time_to_maturity_secs);
    if secs == 0 {
        float_order::lemma_product_with_zero(x, y);
    } else if size.0 == 0 {
        float_order::lemma_product_with_zero(y, x);
        float_math::lemma_product_commutes(x, y);
    }
    float_near::law_product_is_near(x, y);
    float_near::law_product_is_near(xy, point);
    float_error::lemma_sizes(x);
    float_error::lemma_sizes(y);
    float_error::lemma_sizes(xy);
    float_error::lemma_sizes(d);
    lemma_sensitivity(
        float_math::size(x),
        float_math::size(y),
        float_math::size(xy),
        float_math::size(point),
        float_math::size(d),
        distance(size.0 as int),
        secs,
        1_000_000_000_000_000_000,
        31_536_000,
        10_000,
        u,
    );
}

proof fn lemma_product_sign(x: int, y: int)
    requires
        x >= 0,
        y >= 0,
    ensures
        x * y >= 0,
{
    assert(x * y >= 0) by (nonlinear_arith)
        requires
            x >= 0,
            y >= 0,
    ;
}

proof fn lemma_sensitivity(
    x: int,
    y: int,
    xy: int,
    b: int,
    d: int,
    size: int,
    secs: int,
    scale: int,
    year: int,
    points: int,
    u: int,
)
    requires
        near(d * u, xy * b, 1),
        near(xy * u, x * y, 1),
        near(b * points, u, 1),
        near(x * scale, size * u, 5),
        near(y * year, secs * u, 5),
        x >= 0,
        y >= 0,
        xy >= 0,
        b >= 0,
        d >= 0,
        size >= 0,
        secs >= 0,
        scale > 0,
        year > 0,
        points > 0,
        u > 0,
    ensures
        near(d * (scale * year * points), (size * secs) * u, 17),
{
    lemma_product_sign(d, u);
    lemma_product_sign(xy, u);
    lemma_product_sign(x, y);
    lemma_product_sign(b, points);
    lemma_product_sign(x, scale);
    lemma_product_sign(y, year);
    lemma_product_sign(size, u);
    lemma_product_sign(secs, u);
    lemma_product_sign(scale, year);
    lemma_product_sign(scale * year, points);
    lemma_product_sign(u, scale * year * points);
    let c = u * (scale * year * points);
    // The basis point.
    float_near::law_near_scales(d * u, xy * b, c, 1);
    let k = scale * year;
    assert((xy * b) * c == ((xy * u) * (b * points)) * k) by (nonlinear_arith)
        requires
            c == u * (scale * year * points),
            k == scale * year,
    ;
    // Size times years.
    float_near::law_near_multiplies(xy * u, x * y, b * points, u, 1, 1);
    float_near::law_near_scales((xy * u) * (b * points), (x * y) * u, k, 3);
    assert(((x * y) * u) * k == ((x * scale) * (y * year)) * u) by (nonlinear_arith)
        requires
            k == scale * year,
    ;
    // Size and years.
    float_near::law_near_multiplies(x * scale, size * u, y * year, secs * u, 5, 5);
    float_near::law_near_scales((x * scale) * (y * year), (size * u) * (secs * u), u, 11);
    lemma_product_sign(d * u, c);
    lemma_product_sign(x * scale, y * year);
    lemma_product_sign((x * scale) * (y * year), u);
    lemma_product_sign(size * u, secs * u);
    lemma_product_sign((size * u) * (secs * u), u);
    float_near::law_near_chains(
        (d * u) * c,
        ((xy * u) * (b * points)) * k,
        ((x * scale) * (y * year)) * u,
        1,
        3,
    );
    float_near::law_near_chains(
        (d * u) * c,
        ((x * scale) * (y * year)) * u,
        ((size * u) * (secs * u)) * u,
        5,
        11,
    );
    let all = scale * year * points;
    let uu = u * u;
    assert(uu > 0) by (nonlinear_arith)
        requires
            uu == u * u,
            u > 0,
    ;
    assert((d * u) * c == (d * all) * uu) by (nonlinear_arith)
        requires
            c == u * all,
            uu == u * u,
    ;
    assert(((size * u) * (secs * u)) * u == ((size * secs) * u) * uu) by (nonlinear_arith)
        requires
            uu == u * u,
    ;
    float_near::law_near_cancels(d * all, (size * secs) * u, uu, 17);
}

/// Each position in a known market adds its sensitivity to the net, its magnitude to
/// the gross, and the magnitude of its size to the notional, as far as rounding
/// goes. A position in an unknown market adds nothing, and neither does an empty
/// account.
pub proof fn law_each_known_position_adds_to_the_exposure(
    positions: Seq<Position>,
    markets: Map<u32, MarketState>,
    n: nat,
)
    requires
        n < positions.len(),
        float_bits::finite(pre_trade::summed(positions, markets, n).net_dv01),
        float_bits::finite(pre_trade::summed(positions, markets, n).gross_dv01),
        float_bits::finite(pre_trade::summed(positions, markets, n).notional),
        float_bits::finite(pre_trade::summed(positions, markets, n + 1).net_dv01),
        float_bits::finite(pre_trade::summed(positions, markets, n + 1).gross_dv01),
        float_bits::finite(pre_trade::summed(positions, markets, n + 1).notional),
    ensures
        ({
            let before = pre_trade::summed(positions, markets, n);
            let after = pre_trade::summed(positions, markets, n + 1);
            let p = positions[n as int];
            let secs = markets[p.market_id.0].time_to_maturity_secs;
            let d = dv01::dv01(p.size, secs);
            let none = pre_trade::summed(positions, markets, 0);
            &&& float_math::zero(none.net_dv01) && float_math::zero(none.gross_dv01) && float_math::zero(
                none.notional,
            )
            &&& !markets.contains_key(p.market_id.0) ==> after == before
            &&& markets.contains_key(p.market_id.0) ==> {
                &&& near(
                    float_math::size(after.net_dv01),
                    distance(float_math::value(before.net_dv01) + float_math::value(d)),
                    1,
                )
                &&& float_math::value(before.net_dv01) + float_math::value(d) > 0 ==> !float_bits::signed(
                    after.net_dv01,
                )
                &&& float_math::value(before.net_dv01) + float_math::value(d) < 0 ==> float_bits::signed(
                    after.net_dv01,
                )
                &&& near(
                    float_math::size(after.gross_dv01),
                    distance(float_math::value(before.gross_dv01) + float_math::size(d)),
                    1,
                )
                &&& near(
                    float_math::size(after.notional),
                    distance(float_math::value(before.notional) + float_math::size(fixed::to_float(p.size))),
                    1,
                )
            }
        }),
{
    let before = pre_trade::summed(positions, markets, n);
    let p = positions[n as int];
    if markets.contains_key(p.market_id.0) {
        let secs = markets[p.market_id.0].time_to_maturity_secs;
        let d = dv01::dv01(p.size, secs);
        dv01::law_sensitivity_follows_the_position(p.size, secs);
        fixed::law_to_float_is_finite(p.size);
        lemma_added(before.net_dv01, d);
        lemma_magnitude_added(before.gross_dv01, d);
        lemma_magnitude_added(before.notional, fixed::to_float(p.size));
    }
}

proof fn lemma_added(a: F64Bits, d: F64Bits)
    requires
        float_bits::finite(a),
        float_bits::finite(d),
        float_bits::finite(float_math::sum(a, d)),
    ensures
        ({
            let total = float_math::value(a) + float_math::value(d);
            let s = float_math::sum(a, d);
            &&& near(float_math::size(s), distance(total), 1)
            &&& total > 0 ==> !float_bits::signed(s)
            &&& total < 0 ==> float_bits::signed(s)
        }),
{
    float_near::law_sum_is_near(a, d);
    float_error::lemma_sizes(float_math::sum(a, d));
}

proof fn lemma_magnitude_added(a: F64Bits, d: F64Bits)
    requires
        float_bits::finite(a),
        float_bits::finite(d),
        float_bits::finite(float_math::sum(a, float_bits::unsigned(d))),
    ensures
        near(
            float_math::size(float_math::sum(a, float_bits::unsigned(d))),
            distance(float_math::value(a) + float_math::size(d)),
            1,
        ),
{
    assert(float_math::value(float_bits::unsigned(d)) == float_math::size(d));
    float_near::law_sum_is_near(a, float_bits::unsigned(d));
}

/// One for a breach, none otherwise.
pub open spec fn tally(breached: bool) -> int {
    if breached {
        1
    } else {
        0
    }
}

/// An order passes exactly when no limit is breached: there are as many violations
/// as breaches, each limit counted once.
pub proof fn law_as_many_violations_as_breaches(
    limits: PreTradeLimits,
    exposure: Exposure,
    count: u32,
    projected: Option<F64Bits>,
)
    ensures
        pre_trade::violations(limits, exposure, count, projected).len() == tally(
            float_bits::less(limits.max_net_dv01, float_bits::unsigned(exposure.net_dv01)),
        ) + tally(float_bits::less(limits.max_gross_dv01, exposure.gross_dv01)) + tally(
            float_bits::less(limits.max_notional, exposure.notional),
        ) + tally(count >= limits.max_orders_per_window) + tally(
            projected is None || float_bits::less(projected->0, limits.min_projected_health_ratio),
        ),
{
}

/// The divergence of two health ratios is their distance over the real one, or the
/// distance itself where the real one is within the machine epsilon of zero, as far
/// as rounding goes.
pub proof fn law_divergence_is_relative_to_the_real_ratio(shadow: F64Bits, actual: F64Bits)
    requires
        float_bits::finite(shadow),
        float_bits::finite(actual),
        float_bits::finite(float_math::difference(shadow, actual)),
        !float_bits::equal(shadow, actual),
        float_bits::less(F64Bits(EPSILON), float_bits::unsigned(actual)) ==> full(
            float_math::quotient(float_math::difference(shadow, actual), actual),
        ),
    ensures
        ({
            let apart = distance(float_math::value(shadow) - float_math::value(actual));
            let relative = monitor::relative_difference(shadow, actual);
            &&& !float_bits::signed(relative)
            &&& float_bits::less(F64Bits(EPSILON), float_bits::unsigned(actual)) ==> near(
                float_math::size(relative) * float_math::size(actual),
                apart * float_math::unit(),
                3,
            )
            &&& !float_bits::less(F64Bits(EPSILON), float_bits::unsigned(actual)) ==> near(
                float_math::size(relative),
                apart,
                1,
            )
        }),
{
    let u = float_math::unit();
    lemma_pow2_pos(1074);
    let diff = float_math::difference(shadow, actual);
    float_near::law_difference_is_near(shadow, actual);
    let apart = distance(float_math::value(shadow) - float_math::value(actual));
    if float_bits::less(F64Bits(EPSILON), float_bits::unsigned(actual)) {
        let q = float_math::quotient(diff, actual);
        float_near::law_quotient_is_near(diff, actual);
        float_error::lemma_sizes(diff);
        float_error::lemma_sizes(actual);
        float_error::lemma_sizes(q);
        let (s, a) = (float_math::size(q), float_math::size(actual));
        float_near::law_near_scales(float_math::size(diff), apart, u, 1);
        lemma_product_sign(s, a);
        lemma_product_sign(apart, u);
        float_near::law_near_chains(s * a, float_math::size(diff) * u, apart * u, 1, 1);
    }
}

/// Every margin state has its own health ratio as the projected one, a liquidatable
/// state too; without a margin state there is none.
pub proof fn law_a_known_state_projects_its_ratio(state: Result<AccountMarginState, MarginError>)
    ensures
        state matches Ok(s) ==> pre_trade::projected_ratio(state) == Some(s.health_ratio),
        state is Err ==> pre_trade::projected_ratio(state) is None,
{
}

} // verus!
