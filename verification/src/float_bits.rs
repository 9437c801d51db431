//! Floating-point values by their bit pattern.
//!
//! A 64-bit float is a sign bit over 63 magnitude bits, and magnitudes are
//! ordered like the numbers that they stand for. That is enough to compare
//! floats and to take magnitudes.

use vstd::prelude::*;

verus! {

/// A 64-bit float.
#[derive(Debug, Clone, Copy, PartialEq, Eq, Structural, Hash)]
pub struct F64Bits(pub u64);

/// The bits of `1.0`.
pub const ONE: u64 = 0x3ff0_0000_0000_0000;

/// The bits of `-1.0`.
pub const MINUS_ONE: u64 = 0xbff0_0000_0000_0000;

/// The bits of `2.0`.
pub const TWO: u64 = 0x4000_0000_0000_0000;

/// The bits of `-2.0`.
pub const MINUS_TWO: u64 = 0xc000_0000_0000_0000;

/// The bits of `3.0`.
pub const THREE: u64 = 0x4008_0000_0000_0000;

/// The bits of `9.0`.
pub const NINE: u64 = 0x4022_0000_0000_0000;

/// The bits of infinity.
pub const INFINITY: u64 = 0x7ff0_0000_0000_0000;

/// The bits of negative infinity.
pub const MINUS_INFINITY: u64 = 0xfff0_0000_0000_0000;

/// The bits of something that is not a number.
pub const NOT_A_NUMBER: u64 = 0x7ff8_0000_0000_0000;

/// The magnitude bits: everything but the sign.
pub open spec fn mag(f: F64Bits) -> int {
    f.0 as int % 0x8000_0000_0000_0000
}

/// Whether the sign bit is set.
pub open spec fn signed(f: F64Bits) -> bool {
    f.0 >= 0x8000_0000_0000_0000
}

/// Not a number.
pub open spec fn nan(f: F64Bits) -> bool {
    mag(f) > INFINITY
}

/// Neither infinite nor not a number.
pub open spec fn finite(f: F64Bits) -> bool {
    mag(f) < INFINITY
}

/// Where a number stands among the numbers: both zeros at zero, and negative
/// numbers below it by magnitude.
pub open spec fn number_rank(f: F64Bits) -> int {
    if signed(f) {
        -mag(f)
    } else {
        mag(f)
    }
}

/// Numeric `a < b`: false when either is not a number.
pub open spec fn less(a: F64Bits, b: F64Bits) -> bool {
    !nan(a) && !nan(b) && number_rank(a) < number_rank(b)
}

/// Numeric `a == b`: false when either is not a number, true of the two zeros.
pub open spec fn equal(a: F64Bits, b: F64Bits) -> bool {
    !nan(a) && !nan(b) && number_rank(a) == number_rank(b)
}

/// The same magnitude without a sign.
pub open spec fn unsigned(f: F64Bits) -> F64Bits {
    F64Bits(mag(f) as u64)
}

/// The place of a float in the total order of IEEE 754: negative values below
/// positive ones, and among negative values the larger magnitude first.
pub open spec fn total_rank(f: F64Bits) -> int {
    if signed(f) {
        0x7fff_ffff_ffff_ffff - f.0
    } else {
        f.0 as int
    }
}

/// The smaller of two, or the one that is a number.
pub open spec fn lesser_of(a: F64Bits, b: F64Bits) -> F64Bits {
    if nan(a) {
        b
    } else if less(b, a) {
        b
    } else {
        a
    }
}

/// The larger of two, or the one that is a number.
pub open spec fn greater_of(a: F64Bits, b: F64Bits) -> F64Bits {
    if nan(a) {
        b
    } else if less(a, b) {
        b
    } else {
        a
    }
}

impl F64Bits {
    /// The bits without the sign.
    fn magnitude(self) -> (r: u64)
        ensures
            r == mag(self),
    {
        self.0 % 0x8000_0000_0000_0000
    }

    pub fn is_nan(self) -> (r: bool)
        ensures
            r == nan(self),
    {
        self.magnitude() > INFINITY
    }

    pub fn is_finite(self) -> (r: bool)
        ensures
            r == finite(self),
    {
        self.magnitude() < INFINITY
    }

    /// The absolute value.
    pub fn abs(self) -> (r: F64Bits)
        ensures
            r == unsigned(self),
    {
        F64Bits(self.magnitude())
    }

    /// Numeric `self < other`.
    pub fn is_less(self, other: F64Bits) -> (r: bool)
        ensures
            r == less(self, other),
    {
        if self.is_nan() || other.is_nan() {
            return false;
        }
        let a: u64 = self.magnitude();
        let b: u64 = other.magnitude();
        if self.0 < 0x8000_0000_0000_0000 {
            other.0 < 0x8000_0000_0000_0000 && a < b
        } else if other.0 < 0x8000_0000_0000_0000 {
            a > 0 || b > 0
        } else {
            a > b
        }
    }

    /// Numeric `self == other`.
    pub fn is_equal(self, other: F64Bits) -> (r: bool)
        ensures
            r == equal(self, other),
    {
        !self.is_nan() && !other.is_nan() && !self.is_less(other) && !other.is_less(self)
    }

    /// Numeric `self <= other`.
    pub fn is_at_most(self, other: F64Bits) -> (r: bool)
        ensures
            r == (less(self, other) || equal(self, other)),
    {
        self.is_less(other) || self.is_equal(other)
    }

    /// The smaller of two, or the one that is a number.
    pub fn lesser(self, other: F64Bits) -> (r: F64Bits)
        ensures
            r == lesser_of(self, other),
    {
        if self.is_nan() || other.is_less(self) {
            other
        } else {
            self
        }
    }

    /// The larger of two, or the one that is a number.
    pub fn greater(self, other: F64Bits) -> (r: F64Bits)
        ensures
            r == greater_of(self, other),
    {
        if self.is_nan() || self.is_less(other) {
            other
        } else {
            self
        }
    }

    /// Whether this value stands before `other` in the total order.
    pub fn total_less(self, other: F64Bits) -> (r: bool)
        ensures
            r == (total_rank(self) < total_rank(other)),
    {
        if self.0 < 0x8000_0000_0000_0000 {
            other.0 < 0x8000_0000_0000_0000 && self.0 < other.0
        } else {
            other.0 < 0x8000_0000_0000_0000 || self.0 > other.0
        }
    }
}

/// The total order is total: only equal bit patterns share a rank.
pub proof fn law_total_rank_is_injective(a: F64Bits, b: F64Bits)
    requires
        total_rank(a) == total_rank(b),
    ensures
        a == b,
{
}

/// Of two numbers exactly one comparison holds; with something that is not a
/// number none does.
pub proof fn law_numbers_compare_one_way(a: F64Bits, b: F64Bits)
    ensures
        !nan(a) && !nan(b) ==> (less(a, b) || equal(a, b) || less(b, a)),
        less(a, b) ==> !equal(a, b) && !less(b, a),
        nan(a) || nan(b) ==> !less(a, b) && !equal(a, b) && !less(b, a),
{
}

} // verus!
