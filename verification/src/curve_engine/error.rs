use vstd::prelude::*;

verus! {

/// Why a curve could not be fitted or read.
#[derive(Debug, Clone, Copy, PartialEq, Eq, Structural)]
pub enum CurveError {
    /// Fewer than two points.
    InsufficientPoints(usize),
    /// Two points share a maturity.
    DuplicateMaturity(u32),
    /// A coordinate is infinite or not a number.
    NonFiniteRate(u32),
    /// A query outside the shortest and longest maturity.
    OutsideDomain(u32, u32, u32),
}

} // verus!
