//! A thermal fan controller core: a piecewise-linear response curve maps
//! temperatures (fixed-point millidegrees Celsius) to fan duty cycles
//! (fixed-point milli-percent), and a step function drives the
//! sense-compute-actuate control loop around it.

use vstd::prelude::*;

pub mod config;
pub mod control;
pub mod curve;
pub mod parse;

verus! {

/// Largest magnitude, in milli-units, accepted for a configured breakpoint
/// value. Keeps every intermediate product of curve evaluation inside `i64`.
pub const STEP_LIMIT: i64 = 1_000_000_000;

/// Fixed-point scale: all temperatures and duty cycles carry three
/// fractional decimal digits (a value of 1500 means 1.5).
pub const SCALE: i64 = 1000;

} // verus!
