use vstd::prelude::*;

use crate::curve_engine::ButterflySignal;
use crate::float_bits::F64Bits;
use crate::oms_core::Side;

verus! {

/// A market's fixed rate next to the funding expected on another venue.
#[derive(Debug, Clone, Copy, PartialEq, Eq, Structural)]
pub struct CrossVenueObservation {
    pub boros_market_id: u32,
    pub boros_implied_apr: F64Bits,
    pub cex_expected_funding_apr: F64Bits,
}

/// A basis and the side that captures it. The other leg is only expected, so
/// basis risk remains.
#[derive(Debug, Clone, Copy, PartialEq, Eq, Structural)]
pub struct CrossVenueSignal {
    pub boros_market_id: u32,
    /// Fixed rate minus expected funding.
    pub basis: F64Bits,
    pub boros_side: Side,
}

/// A butterfly as a trade: one side in the middle, the other on both wings,
/// each wing sized for half the middle's rate sensitivity.
#[derive(Debug, Clone, Copy, PartialEq, Eq, Structural)]
pub struct CalendarSpreadTrade {
    pub signal: ButterflySignal,
    pub mid_side: Side,
    pub wing_side: Side,
    pub mid_size: F64Bits,
    pub left_size: F64Bits,
    pub right_size: F64Bits,
}

} // verus!
