use vstd::prelude::*;
use std::ops::{Add, AddAssign, Neg, Sub, SubAssign};

use crate::float_bits;
use crate::float_bits::F64Bits;
use crate::float_math;
use crate::float_order;
use crate::tick_math::error::MathError;
use crate::tick_math::math;
use crate::tick_math::math::{
    mul_div_approx, mul_div_ceil, mul_div_floor, mul_div_trunc, u128_wide_mul, unsigned_magnitude,
};

verus! {

/// Signed fixed-point number with 18 decimals: `1.0` is stored as `1e18`.
/// Rates can be negative, so the raw value is signed.
#[derive(Debug, Clone, Copy, PartialEq, Eq, Structural, PartialOrd, Ord, Hash)]
pub struct FixedX18(pub i128);

/// Two's-complement sum of raw values.
pub open spec fn wrapped_add(a: i128, b: i128) -> i128 {
    vstd::wrapping::i128_specs::wrapping_add(a, b)
}

/// Two's-complement difference of raw values.
pub open spec fn wrapped_sub(a: i128, b: i128) -> i128 {
    vstd::wrapping::i128_specs::wrapping_sub(a, b)
}

/// The sum of two raw values where it is representable.
pub open spec fn checked_sum(a: FixedX18, b: FixedX18) -> Option<FixedX18> {
    if i128::MIN <= a.0 + b.0 <= i128::MAX {
        Some(FixedX18((a.0 + b.0) as i128))
    } else {
        None
    }
}

/// The magnitude of a fixed-point value as a fixed-point value.
pub open spec fn abs_of(x: FixedX18) -> FixedX18 {
    FixedX18(math::magnitude(x.0 as int) as i128)
}

/// Carries an outcome on raw values over to fixed-point values.
pub open spec fn as_fixed(r: Result<i128, MathError>) -> Result<FixedX18, MathError> {
    match r {
        Ok(v) => Ok(FixedX18(v)),
        Err(e) => Err(e),
    }
}

/// The fixed-point value nearest to a float, within range.
pub open spec fn from_float(v: F64Bits) -> FixedX18 {
    let scaled = float_math::product(v, float_math::of_integer(FixedX18::SCALE as int));
    FixedX18(
        float_math::saturated(
            scaled,
            float_math::nearest_integer(scaled),
            i128::MIN as int,
            i128::MAX as int,
        ) as i128,
    )
}

/// A fixed-point value as a float.
pub open spec fn to_float(x: FixedX18) -> F64Bits {
    float_math::quotient(
        float_math::of_integer(x.0 as int),
        float_math::of_integer(FixedX18::SCALE as int),
    )
}

impl FixedX18 {
    /// The raw value of `1.0`.
    pub const SCALE: i128 = 1_000_000_000_000_000_000;

    /// The value `0.0`.
    pub fn zero() -> (r: Self)
        ensures
            r == FixedX18(0),
    {
        FixedX18(0)
    }

    /// The value `1.0`.
    pub fn one() -> (r: Self)
        ensures
            r == FixedX18(Self::SCALE),
    {
        FixedX18(Self::SCALE)
    }

    /// The value `-1.0`.
    pub fn neg_one() -> (r: Self)
        ensures
            r.0 == -Self::SCALE,
    {
        FixedX18(-Self::SCALE)
    }

    /// Wraps a value that is already scaled by `1e18`.
    pub fn raw(v: i128) -> (r: Self)
        ensures
            r == FixedX18(v),
    {
        FixedX18(v)
    }

    /// Scales an integer up; the scaled value must be representable.
    pub fn from_integer(v: i128) -> (r: Self)
        requires
            i128::MIN <= v * Self::SCALE <= i128::MAX,
        ensures
            r.0 == v * Self::SCALE,
    {
        FixedX18(v * Self::SCALE)
    }

    /// The raw scaled value.
    pub fn inner(self) -> (r: i128)
        ensures
            r == self.0,
    {
        self.0
    }

    pub fn is_zero(self) -> (r: bool)
        ensures
            r == (self.0 == 0),
    {
        self.0 == 0
    }

    pub fn is_positive(self) -> (r: bool)
        ensures
            r == (self.0 > 0),
    {
        self.0 > 0
    }

    pub fn is_negative(self) -> (r: bool)
        ensures
            r == (self.0 < 0),
    {
        self.0 < 0
    }

    /// The magnitude; the least raw value has none.
    pub fn abs(self) -> (r: Self)
        requires
            self.0 != i128::MIN,
        ensures
            r == abs_of(self),
    {
        if self.0 < 0 {
            FixedX18(-self.0)
        } else {
            self
        }
    }

    /// `-1`, `0` or `1`, the unscaled sign.
    pub fn signum(self) -> (r: i128)
        ensures
            self.0 < 0 ==> r == -1,
            self.0 == 0 ==> r == 0,
            self.0 > 0 ==> r == 1,
    {
        if self.0 < 0 {
            -1
        } else if self.0 == 0 {
            0
        } else {
            1
        }
    }

    /// The larger of two values.
    pub fn max(self, other: Self) -> (r: Self)
        ensures
            r == (if self.0 >= other.0 { self } else { other }),
    {
        if self.0 >= other.0 {
            self
        } else {
            other
        }
    }

    /// The smaller of two values.
    pub fn min(self, other: Self) -> (r: Self)
        ensures
            r == (if self.0 <= other.0 { self } else { other }),
    {
        if self.0 <= other.0 {
            self
        } else {
            other
        }
    }

    /// The exact sum, or `None` where it is not representable.
    pub fn checked_add(self, rhs: Self) -> (r: Option<Self>)
        ensures
            r == checked_sum(self, rhs),
    {
        match self.0.checked_add(rhs.0) {
            Some(v) => Some(FixedX18(v)),
            None => None,
        }
    }

    /// The exact difference, or `None` where it is not representable.
    pub fn checked_sub(self, rhs: Self) -> (r: Option<Self>)
        ensures
            r == (if i128::MIN <= self.0 - rhs.0 <= i128::MAX {
                Some(FixedX18((self.0 - rhs.0) as i128))
            } else {
                None
            }),
    {
        match self.0.checked_sub(rhs.0) {
            Some(v) => Some(FixedX18(v)),
            None => None,
        }
    }

    /// The product, exact, rounded toward minus infinity. This is the rounding
    /// of money that has to reconcile to the last unit.
    pub fn mul_floor(self, rhs: Self) -> (r: Result<Self, MathError>)
        ensures
            r == as_fixed(math::floor_outcome(self.0 * rhs.0, Self::SCALE as int)),
    {
        match mul_div_floor(self.0, rhs.0, Self::SCALE) {
            Ok(v) => Ok(FixedX18(v)),
            Err(e) => Err(e),
        }
    }

    /// The product, exact, rounded toward plus infinity.
    pub fn mul_ceil(self, rhs: Self) -> (r: Result<Self, MathError>)
        ensures
            r == as_fixed(math::ceil_outcome(self.0 * rhs.0, Self::SCALE as int)),
    {
        match mul_div_ceil(self.0, rhs.0, Self::SCALE) {
            Ok(v) => Ok(FixedX18(v)),
            Err(e) => Err(e),
        }
    }

    /// The product, exact, rounded toward zero.
    pub fn mul_down(self, rhs: Self) -> (r: Result<Self, MathError>)
        ensures
            r == as_fixed(math::trunc_outcome(self.0 * rhs.0, Self::SCALE as int)),
    {
        match mul_div_trunc(self.0, rhs.0, Self::SCALE) {
            Ok(v) => Ok(FixedX18(v)),
            Err(e) => Err(e),
        }
    }

    /// The nearest value to a finite float, within range.
    pub fn from_f64(v: F64Bits) -> (r: Self)
        requires
            float_bits::finite(v),
        ensures
            r == from_float(v),
    {
        Self::nearest_to(v)
    }

    /// As [`FixedX18::from_f64`], for any float: what is not a number gives
    /// zero, and infinity the end of the range.
    pub(crate) fn nearest_to(v: F64Bits) -> (r: Self)
        ensures
            r == from_float(v),
    {
        FixedX18(v.times(F64Bits::of(Self::SCALE)).rounded_integer())
    }

    /// The value as a float.
    pub fn to_f64(self) -> (r: F64Bits)
        ensures
            r == to_float(self),
    {
        F64Bits::of(self.0).over(F64Bits::of(Self::SCALE))
    }

    /// The product to the precision of a float: for rates and ratios, not for
    /// money.
    pub fn mul_fixed(self, rhs: Self) -> (r: Result<Self, MathError>)
        ensures
            r == as_fixed(math::approx_outcome(self.0, rhs.0, Self::SCALE)),
    {
        self.mul_raw(rhs.0)
    }

    /// As [`FixedX18::mul_fixed`], for operands whose product is in range.
    pub fn mul_fixed_unchecked(self, rhs: Self) -> (r: Self)
        requires
            math::approx_outcome(self.0, rhs.0, Self::SCALE) is Ok,
        ensures
            r.0 == math::approx_outcome(self.0, rhs.0, Self::SCALE)->Ok_0,
    {
        match mul_div_approx(self.0, rhs.0, Self::SCALE) {
            Ok(v) => FixedX18(v),
            Err(_) => FixedX18(0),
        }
    }

    /// The product with a raw scaled value, to the precision of a float.
    pub fn mul_raw(self, raw_rhs: i128) -> (r: Result<Self, MathError>)
        ensures
            r == as_fixed(math::approx_outcome(self.0, raw_rhs, Self::SCALE)),
    {
        match mul_div_approx(self.0, raw_rhs, Self::SCALE) {
            Ok(v) => Ok(FixedX18(v)),
            Err(e) => Err(e),
        }
    }

    /// The quotient to the precision of a float.
    pub fn div_fixed(self, rhs: Self) -> (r: Result<Self, MathError>)
        ensures
            r == as_fixed(math::approx_outcome(self.0, Self::SCALE, rhs.0)),
    {
        match mul_div_approx(self.0, Self::SCALE, rhs.0) {
            Ok(v) => Ok(FixedX18(v)),
            Err(e) => Err(e),
        }
    }

    /// The magnitude of the raw product as two limbs, high limb first.
    pub fn widening_inner(self, rhs: Self) -> (r: (u128, u128))
        ensures
            r.0 * math::limb_radix() + r.1 == math::magnitude(self.0 as int) * math::magnitude(
                rhs.0 as int,
            ),
    {
        u128_wide_mul(unsigned_magnitude(self.0), unsigned_magnitude(rhs.0))
    }
}

impl Default for FixedX18 {
    fn default() -> (r: Self)
        ensures
            r == FixedX18(0),
    {
        FixedX18(0)
    }
}

/// Sums wrap around; [`FixedX18::checked_add`] reports instead.
impl Add for FixedX18 {
    type Output = FixedX18;

    fn add(self, rhs: FixedX18) -> (r: FixedX18) {
        FixedX18(self.0.wrapping_add(rhs.0))
    }
}

impl vstd::std_specs::ops::AddSpecImpl for FixedX18 {
    open spec fn obeys_add_spec() -> bool {
        true
    }

    open spec fn add_req(self, rhs: FixedX18) -> bool {
        true
    }

    open spec fn add_spec(self, rhs: FixedX18) -> FixedX18 {
        FixedX18(wrapped_add(self.0, rhs.0))
    }
}

/// Differences wrap around; [`FixedX18::checked_sub`] reports instead.
impl Sub for FixedX18 {
    type Output = FixedX18;

    fn sub(self, rhs: FixedX18) -> (r: FixedX18) {
        FixedX18(self.0.wrapping_sub(rhs.0))
    }
}

impl vstd::std_specs::ops::SubSpecImpl for FixedX18 {
    open spec fn obeys_sub_spec() -> bool {
        true
    }

    open spec fn sub_req(self, rhs: FixedX18) -> bool {
        true
    }

    open spec fn sub_spec(self, rhs: FixedX18) -> FixedX18 {
        FixedX18(wrapped_sub(self.0, rhs.0))
    }
}

impl Neg for FixedX18 {
    type Output = FixedX18;

    fn neg(self) -> (r: FixedX18) {
        FixedX18(-self.0)
    }
}

impl vstd::std_specs::ops::NegSpecImpl for FixedX18 {
    open spec fn obeys_neg_spec() -> bool {
        true
    }

    open spec fn neg_req(self) -> bool {
        self.0 != i128::MIN
    }

    open spec fn neg_spec(self) -> FixedX18 {
        FixedX18((-self.0) as i128)
    }
}

impl AddAssign for FixedX18 {
    fn add_assign(&mut self, rhs: FixedX18)
        ensures
            *final(self) == FixedX18(wrapped_add(old(self).0, rhs.0)),
    {
        self.0 = self.0.wrapping_add(rhs.0);
    }
}

impl SubAssign for FixedX18 {
    fn sub_assign(&mut self, rhs: FixedX18)
        ensures
            *final(self) == FixedX18(wrapped_sub(old(self).0, rhs.0)),
    {
        self.0 = self.0.wrapping_sub(rhs.0);
    }
}

impl From<i64> for FixedX18 {
    fn from(v: i64) -> (r: FixedX18) {
        FixedX18::from_integer(v as i128)
    }
}

impl vstd::std_specs::convert::FromSpecImpl<i64> for FixedX18 {
    open spec fn obeys_from_spec() -> bool {
        true
    }

    open spec fn from_spec(v: i64) -> FixedX18 {
        FixedX18((v * FixedX18::SCALE) as i128)
    }
}

impl From<i32> for FixedX18 {
    fn from(v: i32) -> (r: FixedX18) {
        FixedX18::from_integer(v as i128)
    }
}

impl vstd::std_specs::convert::FromSpecImpl<i32> for FixedX18 {
    open spec fn obeys_from_spec() -> bool {
        true
    }

    open spec fn from_spec(v: i32) -> FixedX18 {
        FixedX18((v * FixedX18::SCALE) as i128)
    }
}

/// Subtracting what was added gives the first operand back, even where the sum
/// wrapped around.
pub proof fn law_sub_undoes_add(a: FixedX18, b: FixedX18)
    ensures
        wrapped_sub(wrapped_add(a.0, b.0), b.0) == a.0,
{
}

/// Floor and ceiling of a product, where both exist, bracket it: they agree
/// exactly when the product has no digits beyond the scale, and otherwise are
/// one raw unit apart.
pub proof fn law_mul_floor_and_mul_ceil_bracket(x: FixedX18, y: FixedX18)
    requires
        math::floor_outcome(x.0 * y.0, FixedX18::SCALE as int) is Ok,
        math::ceil_outcome(x.0 * y.0, FixedX18::SCALE as int) is Ok,
    ensures
        ({
            let lower = math::floor_outcome(x.0 * y.0, FixedX18::SCALE as int)->Ok_0;
            let upper = math::ceil_outcome(x.0 * y.0, FixedX18::SCALE as int)->Ok_0;
            &&& lower * FixedX18::SCALE <= x.0 * y.0 <= upper * FixedX18::SCALE
            &&& upper - lower == (if (x.0 * y.0) % (FixedX18::SCALE as int) == 0 { 0int } else { 1 })
        }),
{
    math::law_rounding_directions(x.0 * y.0, FixedX18::SCALE as int);
}

/// Fixed-point values keep their order as floats.
pub proof fn law_to_float_keeps_order(x: FixedX18, y: FixedX18)
    requires
        x.0 <= y.0,
    ensures
        float_order::at_most(to_float(x), to_float(y)),
{
    float_math::lemma_of_integer(FixedX18::SCALE as int);
    float_order::law_of_integer_keeps_order(x.0 as int, y.0 as int);
    float_order::law_quotient_keeps_order(
        float_math::of_integer(x.0 as int),
        float_math::of_integer(y.0 as int),
        float_math::of_integer(FixedX18::SCALE as int),
    );
}

/// Nothing stays nothing as a float.
pub proof fn lemma_to_float_zero()
    ensures
        float_math::zero(to_float(FixedX18(0))),
{
    float_math::lemma_of_integer(FixedX18::SCALE as int);
    float_math::lemma_of_integer(0);
    float_math::lemma_quotient_sign(
        float_math::of_integer(0),
        float_math::of_integer(FixedX18::SCALE as int),
    );
}

/// What is positive stays positive as a float, and finite.
pub proof fn law_to_float_is_positive(x: FixedX18)
    requires
        x.0 > 0,
    ensures
        float_order::positive(to_float(x)),
{
    float_order::lemma_integer_is_moderate(x.0 as int);
    float_order::lemma_integer_is_moderate(FixedX18::SCALE as int);
    float_order::law_moderate_quotient_is_positive(
        float_math::of_integer(x.0 as int),
        float_math::of_integer(FixedX18::SCALE as int),
    );
}

/// Floats keep their order as fixed-point values.
pub proof fn law_from_float_keeps_order(v: F64Bits, w: F64Bits)
    requires
        float_order::at_most(v, w),
    ensures
        from_float(v).0 <= from_float(w).0,
{
    let scale = float_math::of_integer(FixedX18::SCALE as int);
    let a = float_math::product(v, scale);
    let b = float_math::product(w, scale);
    float_math::lemma_of_integer(FixedX18::SCALE as int);
    float_order::law_product_keeps_order(v, w, scale);
    if float_bits::finite(a) && float_bits::finite(b) {
        float_order::law_nearest_integer_keeps_order(a, b);
    }
}

/// Every fixed-point value is at most `2^128` in magnitude as a float, and has
/// its sign.
pub proof fn law_to_float_is_bounded(x: FixedX18)
    ensures
        float_bits::mag(to_float(x)) <= float_math::TWO_TO_128,
        x.0 >= 0 ==> !float_bits::less(to_float(x), F64Bits(0)),
        x.0 <= 0 ==> !float_bits::less(F64Bits(0), to_float(x)),
{
    let scale = float_math::of_integer(FixedX18::SCALE as int);
    if x.0 == 0 {
        lemma_to_float_zero();
    } else {
        let w = if x.0 > 0 {
            x.0 as int
        } else {
            -x.0
        };
        let a = float_math::of_integer(w);
        float_order::lemma_integer_is_moderate(w);
        float_order::lemma_integer_is_moderate(FixedX18::SCALE as int);
        float_order::law_moderate_quotient_is_positive(a, scale);
        float_math::law_opposite_integers(w);
        float_math::law_opposite_quotients(a, scale);
    }
}

/// Every fixed-point value is finite as a float.
pub proof fn law_to_float_is_finite(x: FixedX18)
    ensures
        float_bits::finite(to_float(x)),
{
    law_to_float_is_bounded(x);
}

} // verus!
