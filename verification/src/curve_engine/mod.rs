//! Implied-rate curves across the maturities of one zone, and the maturities
//! that look mispriced next to their neighbours.

pub mod curve;
pub mod deviation;
pub mod error;
pub mod evaluation;
pub mod interpolation;
pub mod shape;
pub mod spline;
pub mod types;

pub use curve::Curve;
pub use error::CurveError;
pub use spline::MonotoneCubicSpline;
pub use types::{ButterflySignal, CurvePoint, Zone};
