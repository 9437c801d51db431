use vstd::prelude::*;

use crate::float_bits;
use crate::float_bits::{F64Bits, INFINITY};
use crate::float_math;
use crate::risk_engine::types::{DivergenceConfig, RiskAlert};

verus! {

/// The machine epsilon, `2^-52`, as the bits of a float.
pub const EPSILON: u64 = 0x3cb0_0000_0000_0000;

/// The difference of two ratios, relative to the real one unless that is too
/// small to divide by: within the machine epsilon of zero.
pub open spec fn relative_difference(shadow: F64Bits, actual: F64Bits) -> F64Bits {
    let diff = float_math::difference(shadow, actual);
    if float_bits::less(F64Bits(EPSILON), float_bits::unsigned(actual)) {
        float_bits::unsigned(float_math::quotient(diff, actual))
    } else {
        float_bits::unsigned(diff)
    }
}

/// Compares the shadow health ratio with the real one. Equal ratios, two
/// infinite ones included, are no divergence; one finite and one not always
/// are.
pub fn check_health_ratio_divergence(
    shadow: F64Bits,
    actual: F64Bits,
    cfg: &DivergenceConfig,
) -> (r: Option<RiskAlert>)
    ensures
        r == (if float_bits::equal(shadow, actual) {
            None
        } else if !float_bits::finite(actual) || !float_bits::finite(shadow) {
            Some(RiskAlert::HealthRatioDivergence { shadow, real: actual, relative_diff: F64Bits(INFINITY) })
        } else if float_bits::less(
            cfg.max_health_ratio_relative_diff,
            relative_difference(shadow, actual),
        ) {
            Some(
                RiskAlert::HealthRatioDivergence {
                    shadow,
                    real: actual,
                    relative_diff: relative_difference(shadow, actual),
                },
            )
        } else {
            None
        }),
{
    if shadow.is_equal(actual) {
        return None;
    }
    if !actual.is_finite() || !shadow.is_finite() {
        return Some(
            RiskAlert::HealthRatioDivergence {
                shadow,
                real: actual,
                relative_diff: F64Bits(INFINITY),
            },
        );
    }
    let relative_diff: F64Bits = if F64Bits(EPSILON).is_less(actual.abs()) {
        shadow.minus(actual).over(actual).abs()
    } else {
        shadow.minus(actual).abs()
    };
    if cfg.max_health_ratio_relative_diff.is_less(relative_diff) {
        Some(RiskAlert::HealthRatioDivergence { shadow, real: actual, relative_diff })
    } else {
        None
    }
}

/// Compares the tracked mark rate with the real one.
pub fn check_mark_rate_divergence(
    shadow: F64Bits,
    actual: F64Bits,
    cfg: &DivergenceConfig,
) -> (r: Option<RiskAlert>)
    ensures
        ({
            let abs_diff = float_bits::unsigned(float_math::difference(shadow, actual));
            r == (if float_bits::less(cfg.max_mark_rate_abs_diff, abs_diff) {
                Some(RiskAlert::MarkRateDivergence { shadow, real: actual, abs_diff })
            } else {
                None
            })
        }),
{
    let abs_diff: F64Bits = shadow.minus(actual).abs();
    if cfg.max_mark_rate_abs_diff.is_less(abs_diff) {
        Some(RiskAlert::MarkRateDivergence { shadow, real: actual, abs_diff })
    } else {
        None
    }
}

} // verus!
