use vstd::prelude::*;

use crate::float_bits::F64Bits;

verus! {

/// Pre-trade limits of one account. There are no defaults: limits are policy.
#[derive(Debug, Clone, Copy, PartialEq, Eq, Structural)]
pub struct PreTradeLimits {
    /// Cap on the magnitude of the net rate sensitivity.
    pub max_net_dv01: F64Bits,
    /// Cap on the summed magnitudes: a hedged book can still be large.
    pub max_gross_dv01: F64Bits,
    pub max_notional: F64Bits,
    /// Least acceptable health ratio with the order resting.
    pub min_projected_health_ratio: F64Bits,
    pub max_orders_per_window: u32,
    pub throttle_window_secs: u32,
}

/// The shadow calculation has drifted from the real value.
#[derive(Debug, Clone, Copy, PartialEq, Eq, Structural)]
pub enum RiskAlert {
    HealthRatioDivergence { shadow: F64Bits, real: F64Bits, relative_diff: F64Bits },
    MarkRateDivergence { shadow: F64Bits, real: F64Bits, abs_diff: F64Bits },
}

/// How much drift is tolerated.
#[derive(Debug, Clone, Copy, PartialEq, Eq, Structural)]
pub struct DivergenceConfig {
    pub max_health_ratio_relative_diff: F64Bits,
    pub max_mark_rate_abs_diff: F64Bits,
}

} // verus!
