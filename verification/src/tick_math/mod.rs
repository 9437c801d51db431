//! Exact fixed-point arithmetic and the tick grid of the order book.

pub mod accuracy;
pub mod conversion;
pub mod error;
pub mod fixed;
pub mod grid;
pub mod math;

use vstd::prelude::*;

pub use conversion::{
    growth, rate_to_tick, rate_to_tick_bracket, tick_exponent, tick_to_rate, GridPosition, Rounding, TICK_MAX,
    TICK_MIN,
};
pub use error::MathError;
pub use fixed::FixedX18;
pub use math::{mul3_div_floor_u32, mul3_div_up_u32, mul_div_ceil, mul_div_down, mul_div_floor, mul_div_up};

verus! {

/// Seconds in a year as the protocol counts them: exactly 365 days.
pub const SECONDS_PER_YEAR: u32 = 31_536_000;

/// `1e18` times the seconds in a year: the divisor of every product of two
/// fixed-point factors and one factor in raw seconds.
pub const ONE_MUL_YEAR: i128 = 31_536_000_000_000_000_000_000_000;

} // verus!
