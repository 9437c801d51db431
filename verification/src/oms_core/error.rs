use vstd::prelude::*;

use crate::oms_core::order_id::OrderId;
use crate::tick_math::MathError;

verus! {

/// Why an order id or a lifecycle event was refused.
#[derive(Debug, Clone, Copy, PartialEq, Eq, Structural)]
pub enum OmsError {
    /// The order index needs more than 40 bits.
    OrderIndexOverflow(u64),
    /// The raw value lacks the initialized marker.
    OrderIdNotInitialized(u64),
    /// A placement lists a different number of ids and sizes.
    MismatchedPlacedLengths { ids: usize, sizes: usize },
    /// A filled range spans two sides or two ticks.
    InvalidFillRange { from: OrderId, to: OrderId },
    /// A filled range ends (first index) before it starts (second index).
    InvertedFillRange(u64, u64),
    /// A trade's rate or cost is not representable.
    Math(MathError),
}

impl From<MathError> for OmsError {
    fn from(e: MathError) -> (r: Self) {
        OmsError::Math(e)
    }
}

impl vstd::std_specs::convert::FromSpecImpl<MathError> for OmsError {
    open spec fn obeys_from_spec() -> bool {
        true
    }

    open spec fn from_spec(e: MathError) -> Self {
        OmsError::Math(e)
    }
}

} // verus!
