use vstd::prelude::*;

use crate::tick_math::fixed::FixedX18;

verus! {

/// Why an exact arithmetic operation or a tick conversion was refused.
#[derive(Debug, Clone, Copy, PartialEq, Eq, Structural)]
pub enum MathError {
    /// The divisor is zero, or not positive where a positive one is required.
    DivisionByZero,
    /// The result does not fit the result type.
    Overflow,
    /// A market declares a tick step of zero.
    InvalidTickStep(u8),
    /// The tick's rate has no finite value.
    InvalidTick(i16),
    /// The rate lies outside the tick grid of its market.
    RateNotRepresentable(FixedX18),
}

} // verus!
