use vstd::prelude::*;

use crate::float_bits;
use crate::float_bits::F64Bits;
use crate::oms_core::Side;
use crate::quoting_engine::types;
use crate::quoting_engine::types::MakerRateBounds;

verus! {

/// A bid capped at the long bound.
pub open spec fn bid_of(
    raw_bid: F64Bits,
    bounds: MakerRateBounds,
    mark_rate: F64Bits,
    k_i_thresh: F64Bits,
) -> F64Bits {
    float_bits::lesser_of(raw_bid, types::bound_of(bounds, Side::Long, mark_rate, k_i_thresh))
}

/// An ask lifted to the short bound.
pub open spec fn ask_of(
    raw_ask: F64Bits,
    bounds: MakerRateBounds,
    mark_rate: F64Bits,
    k_i_thresh: F64Bits,
) -> F64Bits {
    float_bits::greater_of(raw_ask, types::bound_of(bounds, Side::Short, mark_rate, k_i_thresh))
}

/// Caps a bid at the long bound. A bid has no floor.
pub fn clamp_bid(
    raw_bid: F64Bits,
    bounds: &MakerRateBounds,
    mark_rate: F64Bits,
    k_i_thresh: F64Bits,
) -> (r: F64Bits)
    ensures
        r == bid_of(raw_bid, *bounds, mark_rate, k_i_thresh),
{
    raw_bid.lesser(bounds.bound_for(Side::Long, mark_rate, k_i_thresh))
}

/// Lifts an ask to the short bound. An ask has no ceiling.
pub fn clamp_ask(
    raw_ask: F64Bits,
    bounds: &MakerRateBounds,
    mark_rate: F64Bits,
    k_i_thresh: F64Bits,
) -> (r: F64Bits)
    ensures
        r == ask_of(raw_ask, *bounds, mark_rate, k_i_thresh),
{
    raw_ask.greater(bounds.bound_for(Side::Short, mark_rate, k_i_thresh))
}

/// One-sided clamps cannot cross a quote: whatever the bounds, a bid below the
/// ask stays below it.
pub proof fn law_clamps_never_cross(
    raw_bid: F64Bits,
    raw_ask: F64Bits,
    bounds: MakerRateBounds,
    mark_rate: F64Bits,
    k_i_thresh: F64Bits,
)
    requires
        float_bits::less(raw_bid, raw_ask),
    ensures
        float_bits::less(
            bid_of(raw_bid, bounds, mark_rate, k_i_thresh),
            ask_of(raw_ask, bounds, mark_rate, k_i_thresh),
        ),
{
}

/// A clamped quote respects its bounds, where the bounds are numbers.
pub proof fn law_clamps_respect_the_bounds(
    raw_bid: F64Bits,
    raw_ask: F64Bits,
    bounds: MakerRateBounds,
    mark_rate: F64Bits,
    k_i_thresh: F64Bits,
)
    requires
        !float_bits::nan(types::bound_of(bounds, Side::Long, mark_rate, k_i_thresh)),
        !float_bits::nan(types::bound_of(bounds, Side::Short, mark_rate, k_i_thresh)),
    ensures
        !float_bits::less(
            types::bound_of(bounds, Side::Long, mark_rate, k_i_thresh),
            bid_of(raw_bid, bounds, mark_rate, k_i_thresh),
        ),
        !float_bits::less(
            ask_of(raw_ask, bounds, mark_rate, k_i_thresh),
            types::bound_of(bounds, Side::Short, mark_rate, k_i_thresh),
        ),
{
}

} // verus!
