use vstd::prelude::*;

use crate::float_bits::F64Bits;
use crate::tick_math::FixedX18;

verus! {

/// One observed point: a market's implied rate at its time to maturity.
#[derive(Debug, Clone, Copy, PartialEq, Eq, Structural)]
pub struct CurvePoint {
    pub market_id: u32,
    pub time_to_maturity_secs: u32,
    pub rate: FixedX18,
}

/// Markets on one underlying at different maturities.
#[derive(Debug, Clone)]
pub struct Zone {
    pub name: String,
    pub points: Vec<CurvePoint>,
}

/// How far the middle of three adjacent maturities lies off the line between
/// its neighbours. A relative-value signal, no riskless arbitrage: maturities
/// cannot be converted into each other.
#[derive(Debug, Clone, Copy, PartialEq, Eq, Structural)]
pub struct ButterflySignal {
    pub left_maturity_secs: u32,
    pub mid_maturity_secs: u32,
    pub right_maturity_secs: u32,
    /// Negative: the middle is cheap. Positive: it is rich.
    pub deviation: F64Bits,
}

} // verus!
