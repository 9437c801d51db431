use vstd::arithmetic::power2::lemma_pow2_pos;
use vstd::prelude::*;

use crate::arb_engine::types::CalendarSpreadTrade;
use crate::curve_engine::ButterflySignal;
use crate::float_bits;
use crate::float_bits::{F64Bits, ONE, TWO};
use crate::float_error;
use crate::float_error::FULL;
use crate::float_math;
use crate::float_order;
use crate::float_round;
use crate::float_round::INFINITE;
use crate::oms_core::Side;

verus! {

/// The side to take in the middle: long where it is cheap, short otherwise.
pub open spec fn mid_side_of(deviation: F64Bits) -> Side {
    if float_bits::less(deviation, F64Bits(0)) {
        Side::Long
    } else {
        Side::Short
    }
}

/// The size at a wing's maturity whose rate sensitivity is half that of the
/// middle leg: `mid_size * mid_maturity / (2 * wing_maturity)`. Sensitivity is
/// size times time, so nothing but the maturities enters.
pub open spec fn wing_size(mid_size: F64Bits, mid_maturity_secs: u32, wing_maturity_secs: u32) -> F64Bits {
    float_math::quotient(
        float_math::product(mid_size, float_math::of_integer(mid_maturity_secs as int)),
        float_math::product(
            F64Bits(TWO),
            float_math::of_integer(wing_maturity_secs as int),
        ),
    )
}

/// Turns a butterfly into a trade. The caller picks the size of the middle leg;
/// the wings follow from it.
pub fn to_calendar_spread_trade(signal: ButterflySignal, mid_size: F64Bits) -> (r: CalendarSpreadTrade)
    ensures
        r == (CalendarSpreadTrade {
            signal,
            mid_side: mid_side_of(signal.deviation),
            wing_side: mid_side_of(signal.deviation).other(),
            mid_size,
            left_size: wing_size(mid_size, signal.mid_maturity_secs, signal.left_maturity_secs),
            right_size: wing_size(mid_size, signal.mid_maturity_secs, signal.right_maturity_secs),
        }),
{
    let mid_side: Side = if signal.deviation.is_less(F64Bits(0)) {
        Side::Long
    } else {
        Side::Short
    };
    CalendarSpreadTrade {
        signal,
        mid_side,
        wing_side: mid_side.opposite(),
        mid_size,
        left_size: dv01_neutral_wing_size(
            mid_size,
            signal.mid_maturity_secs,
            signal.left_maturity_secs,
        ),
        right_size: dv01_neutral_wing_size(
            mid_size,
            signal.mid_maturity_secs,
            signal.right_maturity_secs,
        ),
    }
}

fn dv01_neutral_wing_size(mid_size: F64Bits, mid_maturity_secs: u32, wing_maturity_secs: u32) -> (r: F64Bits)
    ensures
        r == wing_size(mid_size, mid_maturity_secs, wing_maturity_secs),
{
    mid_size.times(F64Bits::of(mid_maturity_secs as i128)).over(
        F64Bits(TWO).times(F64Bits::of(wing_maturity_secs as i128)),
    )
}

/// Middle and wings always stand on opposite sides.
pub proof fn law_wings_oppose_the_middle(deviation: F64Bits)
    ensures
        mid_side_of(deviation) != mid_side_of(deviation).other(),
{
}

/// A middle below the line is bought against its wings, one above it is sold
/// against them.
pub proof fn law_a_cheap_middle_is_bought(deviation: F64Bits)
    ensures
        float_bits::less(deviation, F64Bits(0)) ==> mid_side_of(deviation) == Side::Long && mid_side_of(
            deviation,
        ).other() == Side::Short,
        float_bits::less(F64Bits(0), deviation) ==> mid_side_of(deviation) == Side::Short && mid_side_of(
            deviation,
        ).other() == Side::Long,
{
}

/// Of two wings the nearer one needs at least as much size: less time takes more
/// size for the same sensitivity.
pub proof fn law_nearer_wings_are_larger(mid_size: F64Bits, mid_secs: u32, nearer_secs: u32, further_secs: u32)
    requires
        !float_bits::nan(mid_size),
        !float_bits::less(mid_size, F64Bits(0)),
        0 < nearer_secs <= further_secs,
        mid_secs > 0,
    ensures
        float_order::at_most(
            wing_size(mid_size, mid_secs, further_secs),
            wing_size(mid_size, mid_secs, nearer_secs),
        ),
{
    let two = F64Bits(TWO);
    let a = float_math::of_integer(nearer_secs as int);
    let b = float_math::of_integer(further_secs as int);
    let m = float_math::of_integer(mid_secs as int);
    lemma_doubled_seconds(nearer_secs);
    lemma_doubled_seconds(further_secs);
    float_order::law_of_integer_keeps_order(nearer_secs as int, further_secs as int);
    float_order::law_product_keeps_order(a, b, two);
    float_math::lemma_product_commutes(a, two);
    float_math::lemma_product_commutes(b, two);
    float_math::lemma_of_integer(mid_secs as int);
    float_math::lemma_product_sign(mid_size, m);
    float_order::law_product_of_unsigned(mid_size, m);
    float_order::law_larger_divisors_give_smaller_quotients(
        float_math::product(mid_size, m),
        float_math::product(two, a),
        float_math::product(two, b),
    );
}

/// Twice some seconds are a positive number.
proof fn lemma_doubled_seconds(secs: u32)
    requires
        secs > 0,
    ensures
        float_order::positive(
            float_math::product(
                F64Bits(TWO),
                float_math::of_integer(secs as int),
            ),
        ),
{
    let one = F64Bits(ONE);
    let two = F64Bits(TWO);
    let s = float_math::of_integer(secs as int);
    float_order::lemma_integer_is_moderate(secs as int);
    float_order::law_product_keeps_order(one, s, two);
    float_math::lemma_signed_one(one, two);
    float_math::lemma_product_commutes(s, two);
    float_order::lemma_size_under(two, 1);
    float_order::lemma_size_under(s, 128);
    float_order::lemma_product_under(two, s, 1, 128);
}

/// Whether a wing is computed without overflow and without losing precision near
/// zero.
pub open spec fn plain_wing(mid_size: F64Bits, mid_maturity_secs: u32, wing_maturity_secs: u32) -> bool {
    let product = float_math::product(mid_size, float_math::of_integer(mid_maturity_secs as int));
    let wing = wing_size(mid_size, mid_maturity_secs, wing_maturity_secs);
    &&& float_bits::finite(mid_size)
    &&& FULL <= float_bits::mag(product) < INFINITE
    &&& FULL <= float_bits::mag(wing) < INFINITE
}

/// Size times seconds, without a sign: what a leg's rate sensitivity is
/// proportional to.
pub open spec fn exposure(size: F64Bits, maturity_secs: u32) -> int {
    float_math::size(size) * maturity_secs
}

/// Whether `a` and `b` agree up to three parts in `2^52` of the other.
pub open spec fn agree(a: int, b: int) -> bool {
    a * FULL <= b * (FULL + 3) && b * FULL <= a * (FULL + 3)
}

/// A wing carries half of the middle's sensitivity, as far as rounding goes, and
/// its size has the sign of the middle's.
pub proof fn law_wings_carry_half_of_the_middle(mid_size: F64Bits, mid_secs: u32, wing_secs: u32)
    requires
        wing_secs > 0,
        plain_wing(mid_size, mid_secs, wing_secs),
    ensures
        float_bits::signed(wing_size(mid_size, mid_secs, wing_secs)) == float_bits::signed(mid_size),
        agree(
            2 * exposure(wing_size(mid_size, mid_secs, wing_secs), wing_secs),
            exposure(mid_size, mid_secs),
        ),
{
    reveal(float_math::product);
    reveal(float_math::quotient);
    let u = float_math::unit();
    let m = float_math::of_integer(mid_secs as int);
    let b = float_math::of_integer(2 * wing_secs);
    let p = float_math::product(mid_size, m);
    let w = wing_size(mid_size, mid_secs, wing_secs);
    lemma_pow2_pos(1074);
    float_math::lemma_two();
    float_math::lemma_of_integer(mid_secs as int);
    float_math::lemma_of_integer(wing_secs as int);
    float_math::lemma_of_integer(2 * wing_secs);
    float_math::law_small_integers_are_exact(mid_secs as int);
    float_math::law_small_integers_are_exact(2 * wing_secs);
    float_math::law_small_products_are_exact(2, wing_secs as int);
    let (s, t) = (float_math::size(mid_size), mid_secs as int);
    let n = s * float_math::size(m);
    float_round::law_nearest_exists(n, u);
    float_error::law_rounding_adds_little(n, u);
    float_error::law_rounding_takes_little(n, u);
    let pp = float_math::size(p);
    let d = float_math::size(b);
    let k = 2 * wing_secs;
    float_math::lemma_small_multiples();
    assert(d > 0) by (nonlinear_arith)
        requires
            d == k * u,
            k > 0,
            u > 0,
    ;
    float_round::law_nearest_exists(pp * u, d);
    float_error::law_rounding_adds_little(pp * u, d);
    float_error::law_rounding_takes_little(pp * u, d);
    let ww = float_math::size(w);
    float_round::lemma_multiple_ascends(0, float_bits::mag(w));
    lemma_half_exposure(s, t, pp, ww, k as int, u);
    assert(2 * (ww * wing_secs) == ww * k) by (nonlinear_arith)
        requires
            k == 2 * wing_secs,
    ;
}

/// The two roundings of a wing, taken together.
proof fn lemma_half_exposure(s: int, t: int, p: int, w: int, k: int, u: int)
    requires
        p * u * FULL <= s * (t * u) * (FULL + 1),
        s * (t * u) * FULL <= p * u * (FULL + 1),
        w * (k * u) * FULL <= p * u * (FULL + 1),
        p * u * FULL <= w * (k * u) * (FULL + 1),
        u > 0,
        w > 0,
        k > 0,
    ensures
        agree(w * k, s * t),
{
    let e = FULL as int;
    let (a, b) = (w * k, s * t);
    lemma_unit_apart(p * e, b * (e + 1), u);
    lemma_unit_apart(b * e, p * (e + 1), u);
    lemma_unit_apart(a * e, p * (e + 1), u);
    lemma_unit_apart(p * e, a * (e + 1), u);
    assert(p * u * e == u * (p * e) && s * (t * u) * (e + 1) == u * (b * (e + 1)) && s * (t * u) * e == u * (
    b * e) && p * u * (e + 1) == u * (p * (e + 1)) && w * (k * u) * e == u * (a * e) && w * (k * u) * (e + 1)
        == u * (a * (e + 1))) by (nonlinear_arith)
        requires
            a == w * k,
            b == s * t,
    ;
    assert(a > 0) by (nonlinear_arith)
        requires
            a == w * k,
            w > 0,
            k > 0,
    ;
    assert(a * e <= b * (e + 3)) by (nonlinear_arith)
        requires
            a * e <= p * (e + 1),
            p * e <= b * (e + 1),
            a > 0,
            e == 0x10_0000_0000_0000,
    {
        assert((a * e) * e <= (p * (e + 1)) * e);
        assert((p * e) * (e + 1) <= (b * (e + 1)) * (e + 1));
        assert(b > 0);
        assert((e + 1) * (e + 1) <= e * (e + 3));
        assert(b * ((e + 1) * (e + 1)) <= b * (e * (e + 3)));
        assert(e * (a * e) <= e * (b * (e + 3)));
    }
    assert(b * e <= a * (e + 3)) by (nonlinear_arith)
        requires
            b * e <= p * (e + 1),
            p * e <= a * (e + 1),
            a > 0,
            e == 0x10_0000_0000_0000,
    {
        assert((b * e) * e <= (p * (e + 1)) * e);
        assert((p * e) * (e + 1) <= (a * (e + 1)) * (e + 1));
        assert((e + 1) * (e + 1) <= e * (e + 3));
        assert(a * ((e + 1) * (e + 1)) <= a * (e * (e + 3)));
        assert(e * (b * e) <= e * (a * (e + 3)));
    }
}

proof fn lemma_unit_apart(x: int, y: int, u: int)
    requires
        u > 0,
    ensures
        u * x <= u * y ==> x <= y,
{
    assert(u * x <= u * y ==> x <= y) by (nonlinear_arith)
        requires
            u > 0,
    ;
}

/// The two wings together carry the middle's sensitivity, as far as rounding
/// goes: the trade is neutral.
pub proof fn law_wings_balance_the_middle(mid_size: F64Bits, mid_secs: u32, left_secs: u32, right_secs: u32)
    requires
        left_secs > 0,
        right_secs > 0,
        plain_wing(mid_size, mid_secs, left_secs),
        plain_wing(mid_size, mid_secs, right_secs),
    ensures
        agree(
            exposure(wing_size(mid_size, mid_secs, left_secs), left_secs) + exposure(
                wing_size(mid_size, mid_secs, right_secs),
                right_secs,
            ),
            exposure(mid_size, mid_secs),
        ),
{
    law_wings_carry_half_of_the_middle(mid_size, mid_secs, left_secs);
    law_wings_carry_half_of_the_middle(mid_size, mid_secs, right_secs);
}

} // verus!
