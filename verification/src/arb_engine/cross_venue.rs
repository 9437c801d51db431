use vstd::prelude::*;

use crate::arb_engine::types::{CrossVenueObservation, CrossVenueSignal};
use crate::float_bits;
use crate::float_bits::F64Bits;
use crate::float_math;
use crate::float_order;
use crate::float_round;
use crate::oms_core::Side;

verus! {

/// The signal of a basis: none for no basis or one below the threshold. A rich
/// fixed rate is received by going short, a cheap one paid by going long.
pub open spec fn signal_of(boros_market_id: u32, basis: F64Bits, min_abs_basis: F64Bits) -> Option<
    CrossVenueSignal,
> {
    if float_bits::equal(basis, F64Bits(0)) || float_bits::less(
        float_bits::unsigned(basis),
        min_abs_basis,
    ) {
        None
    } else {
        Some(
            CrossVenueSignal {
                boros_market_id,
                basis,
                boros_side: if float_bits::less(F64Bits(0), basis) {
                    Side::Short
                } else {
                    Side::Long
                },
            },
        )
    }
}

/// Reports a basis worth trading: the observation's fixed rate minus its
/// expected funding.
pub fn detect_cross_venue_signal(obs: &CrossVenueObservation, min_abs_basis: F64Bits) -> (r: Option<
    CrossVenueSignal,
>)
    ensures
        r == signal_of(
            obs.boros_market_id,
            float_math::difference(obs.boros_implied_apr, obs.cex_expected_funding_apr),
            min_abs_basis,
        ),
{
    let basis: F64Bits = obs.boros_implied_apr.minus(obs.cex_expected_funding_apr);
    if basis.is_equal(F64Bits(0)) || basis.abs().is_less(min_abs_basis) {
        return None;
    }
    let boros_side: Side = if F64Bits(0).is_less(basis) {
        Side::Short
    } else {
        Side::Long
    };
    Some(CrossVenueSignal { boros_market_id: obs.boros_market_id, basis, boros_side })
}

/// A basis is reported exactly when it is not zero and reaches the threshold on
/// its own side: at least the threshold where the fixed rate is rich, at most its
/// opposite where it is cheap. The signal names the market and the basis, and
/// receives the dearer rate: short where the fixed rate is the higher of the two,
/// long where it is the lower.
pub proof fn law_a_basis_past_the_threshold_is_reported(obs: CrossVenueObservation, min_abs_basis: F64Bits)
    requires
        float_bits::finite(obs.boros_implied_apr),
        float_bits::finite(obs.cex_expected_funding_apr),
        !float_bits::nan(min_abs_basis),
    ensures
        ({
            let (fixed, floating) = (obs.boros_implied_apr, obs.cex_expected_funding_apr);
            let basis = float_math::difference(fixed, floating);
            let signal = signal_of(obs.boros_market_id, basis, min_abs_basis);
            &&& signal is Some <==> !float_bits::equal(fixed, floating) && (float_order::at_most(
                min_abs_basis,
                basis,
            ) || float_order::at_most(basis, float_math::negated(min_abs_basis)))
            &&& signal matches Some(s) ==> {
                &&& s.boros_market_id == obs.boros_market_id
                &&& s.basis == basis
                &&& s.boros_side == Side::Short <==> float_bits::less(floating, fixed)
                &&& s.boros_side == Side::Long <==> float_bits::less(fixed, floating)
            }
        }),
{
    lemma_basis_sign(obs.boros_implied_apr, obs.cex_expected_funding_apr);
}

/// The basis of two finite rates has the sign of their order.
proof fn lemma_basis_sign(a: F64Bits, b: F64Bits)
    requires
        float_bits::finite(a),
        float_bits::finite(b),
    ensures
        ({
            let basis = float_math::difference(a, b);
            &&& !float_bits::nan(basis)
            &&& float_bits::less(b, a) <==> float_bits::less(F64Bits(0), basis)
            &&& float_bits::less(a, b) <==> float_bits::less(basis, F64Bits(0))
            &&& float_bits::equal(a, b) <==> float_bits::equal(basis, F64Bits(0))
        }),
{
    reveal(float_math::sum);
    let c = float_math::negated(b);
    let total = float_math::value(a) + float_math::value(c);
    assert(float_math::value(c) == -float_math::value(b));
    if float_bits::less(b, a) {
        float_order::lemma_value_steps(b, a);
    }
    if float_bits::less(a, b) {
        float_order::lemma_value_steps(a, b);
    }
    if float_bits::equal(a, b) {
        assert(float_bits::mag(a) == float_bits::mag(b));
        float_math::lemma_small_multiples();
    }
    let n = if total < 0 {
        -total
    } else {
        total
    };
    if n > 0 {
        float_math::lemma_rounded_exact(1);
        float_math::lemma_small_multiples();
        float_round::law_rounding_keeps_order(1, 1, n, 1);
        float_round::law_nearest_exists(n, 1);
    }
}

/// Swapping the two rates keeps whether there is a signal and turns it round: the
/// opposite basis, traded on the opposite side.
pub proof fn law_swapped_rates_reverse_the_signal(
    boros_market_id: u32,
    a: F64Bits,
    b: F64Bits,
    min_abs_basis: F64Bits,
)
    requires
        float_bits::finite(a),
        float_bits::finite(b),
        !float_bits::nan(min_abs_basis),
    ensures
        ({
            let one = signal_of(boros_market_id, float_math::difference(a, b), min_abs_basis);
            let other = signal_of(boros_market_id, float_math::difference(b, a), min_abs_basis);
            &&& one is Some <==> other is Some
            &&& one is Some ==> {
                &&& other->0.boros_side != one->0.boros_side
                &&& other->0.basis == float_math::negated(one->0.basis)
            }
        }),
{
    lemma_basis_sign(a, b);
    lemma_basis_sign(b, a);
    if !float_bits::equal(a, b) {
        lemma_opposite_difference(a, b);
    }
}

/// Differences the two ways round are opposite.
proof fn lemma_opposite_difference(a: F64Bits, b: F64Bits)
    requires
        float_bits::finite(a),
        float_bits::finite(b),
        !float_bits::equal(a, b),
    ensures
        float_math::difference(b, a) == float_math::negated(float_math::difference(a, b)),
{
    reveal(float_math::sum);
    let (na, nb) = (float_math::negated(a), float_math::negated(b));
    assert(float_math::value(na) == -float_math::value(a));
    assert(float_math::value(nb) == -float_math::value(b));
    if float_bits::less(a, b) {
        float_order::lemma_value_steps(a, b);
    } else {
        float_order::lemma_value_steps(b, a);
    }
    let x = float_math::value(a) - float_math::value(b);
    let n = if x < 0 {
        -x
    } else {
        x
    };
    float_round::law_nearest_exists(n, 1);
    let m = float_round::rounded(n, 1);
    assert(float_math::difference(a, b) == float_math::with_sign(x < 0, m));
    assert(float_math::difference(b, a) == float_math::with_sign(x >= 0, m));
}

} // verus!
