use vstd::prelude::*;

use crate::float_bits::F64Bits;
use crate::margin_sim::MarginError;

verus! {

#[derive(Debug, Clone, Copy, PartialEq, Eq, Structural)]
pub enum RiskError {
    /// The projected margin state could not be computed.
    Margin(MarginError),
}

/// One breached limit. An order can breach several at once.
#[derive(Debug, Clone, Copy, PartialEq, Eq, Structural)]
pub enum RiskViolation {
    NetDv01Exceeded { would_be: F64Bits, cap: F64Bits },
    GrossDv01Exceeded { would_be: F64Bits, cap: F64Bits },
    NotionalExceeded { would_be: F64Bits, cap: F64Bits },
    ProjectedHealthRatioTooLow { projected: F64Bits, floor: F64Bits },
    OrderRateThrottled { count_in_window: u32, cap: u32 },
}

impl From<MarginError> for RiskError {
    fn from(e: MarginError) -> (r: Self) {
        RiskError::Margin(e)
    }
}

impl vstd::std_specs::convert::FromSpecImpl<MarginError> for RiskError {
    open spec fn obeys_from_spec() -> bool {
        true
    }

    open spec fn from_spec(e: MarginError) -> Self {
        RiskError::Margin(e)
    }
}

} // verus!
