use vstd::prelude::*;

use crate::float_bits::F64Bits;
use crate::tick_math::MathError;

verus! {

/// Why no quote could be made.
#[derive(Debug, PartialEq)]
pub enum QuoteError {
    /// A calibration parameter is out of range, with the rule it breaks.
    InvalidParams(String),
    /// No reference rate covers this maturity.
    NoReferenceRate(u32),
    /// Bid and ask crossed.
    CrossedAfterClamp { bid: F64Bits, ask: F64Bits },
    TickMath(MathError),
}

impl From<MathError> for QuoteError {
    fn from(e: MathError) -> (r: Self) {
        QuoteError::TickMath(e)
    }
}

impl vstd::std_specs::convert::FromSpecImpl<MathError> for QuoteError {
    open spec fn obeys_from_spec() -> bool {
        true
    }

    open spec fn from_spec(e: MathError) -> Self {
        QuoteError::TickMath(e)
    }
}

} // verus!
