//! Sensitivity of a position's value to one basis point of rate. Value is size
//! times rate times years, so the sensitivity is size times years times `1bp`.

use vstd::prelude::*;

use crate::float_bits;
use crate::float_bits::F64Bits;
use crate::float_math;
use crate::float_order;
use crate::tick_math::fixed;
use crate::tick_math::{FixedX18, SECONDS_PER_YEAR};

verus! {

/// One basis point, `0.0001`, as the bits of a float.
pub const BASIS_POINT: u64 = 0x3f1a_36e2_eb1c_432d;

/// Seconds as years.
pub open spec fn years(secs: u32) -> F64Bits {
    float_math::quotient(
        float_math::of_integer(secs as int),
        float_math::of_integer(SECONDS_PER_YEAR as int),
    )
}

/// Size times years to maturity times one basis point.
pub open spec fn dv01(size: FixedX18, time_to_maturity_secs: u32) -> F64Bits {
    float_math::product(
        float_math::product(fixed::to_float(size), years(time_to_maturity_secs)),
        F64Bits(BASIS_POINT),
    )
}

/// The signed sensitivity of one position: positive for a long, negative for a
/// short.
pub fn position_dv01(size: FixedX18, time_to_maturity_secs: u32) -> (r: F64Bits)
    ensures
        r == dv01(size, time_to_maturity_secs),
{
    let years: F64Bits = F64Bits::of(time_to_maturity_secs as i128).over(
        F64Bits::of(SECONDS_PER_YEAR as i128),
    );
    size.to_f64().times(years).times(F64Bits(BASIS_POINT))
}

/// A sensitivity is a finite number with the sign of its position.
pub proof fn law_sensitivity_follows_the_position(size: FixedX18, time_to_maturity_secs: u32)
    ensures
        float_bits::finite(dv01(size, time_to_maturity_secs)),
        size.0 >= 0 ==> !float_bits::less(dv01(size, time_to_maturity_secs), F64Bits(0)),
        size.0 <= 0 ==> !float_bits::less(F64Bits(0), dv01(size, time_to_maturity_secs)),
        time_to_maturity_secs == 0 ==> float_math::zero(dv01(size, time_to_maturity_secs)),
{
    let point = F64Bits(BASIS_POINT);
    let s = fixed::to_float(size);
    let y = years(time_to_maturity_secs);
    let sy = float_math::product(s, y);
    fixed::law_to_float_is_bounded(size);
    lemma_years(time_to_maturity_secs);
    float_order::lemma_size_under(s, 128);
    float_order::lemma_size_under(y, 128);
    float_order::lemma_size_under(point, 0);
    float_order::lemma_product_under(s, y, 128, 128);
    float_order::lemma_product_under(sy, point, 256, 0);
    if time_to_maturity_secs == 0 {
        float_order::lemma_product_with_zero(s, y);
        float_math::lemma_product_sign(sy, point);
    } else {
        float_math::lemma_product_sign(s, y);
        float_math::lemma_product_sign(sy, point);
    }
}

/// Years to maturity are a moderate number.
proof fn lemma_years(time_to_maturity_secs: u32)
    ensures
        float_bits::mag(years(time_to_maturity_secs)) <= float_math::TWO_TO_128,
        time_to_maturity_secs == 0 ==> float_math::zero(years(time_to_maturity_secs)),
        time_to_maturity_secs > 0 ==> float_order::positive(years(time_to_maturity_secs)),
{
    let a = float_math::of_integer(time_to_maturity_secs as int);
    let k = float_math::of_integer(SECONDS_PER_YEAR as int);
    float_order::lemma_integer_is_moderate(SECONDS_PER_YEAR as int);
    if time_to_maturity_secs == 0 {
        float_math::lemma_of_integer(0);
        float_math::lemma_of_integer(SECONDS_PER_YEAR as int);
        float_math::lemma_quotient_sign(a, k);
    } else {
        float_order::lemma_integer_is_moderate(time_to_maturity_secs as int);
        float_order::law_moderate_quotient_is_positive(a, k);
    }
}

} // verus!
