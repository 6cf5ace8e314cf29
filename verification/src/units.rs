//! Fixed-point quantities.
//!
//! Every rate (units per minute), per-cycle amount, cycle time (seconds),
//! objective weight and extraction limit is an `i64` holding the quantity
//! scaled by [`SCALE`], i.e. a fixed-point number with six decimal places.

use vstd::prelude::*;

verus! {

/// One whole unit: quantities carry six decimal places.
pub const SCALE: i64 = 1_000_000;

/// Conversion between a per-minute rate and a per-second cycle time,
/// in fixed-point: 60 seconds, scaled.
pub const MINUTE: i64 = 60_000_000;

/// Flow magnitudes at or below this value (1e-5 in fixed point) are
/// numerical noise from the linear-program engine and are dropped
/// during extraction.
pub const RATE_EPSILON: i64 = 10;

/// Largest accepted per-cycle ingredient or product amount (one million
/// whole units): keeps every constraint coefficient sum inside `i64`.
pub const AMOUNT_MAX: i64 = 1_000_000_000_000;

/// Largest accepted recipe cycle time (one million seconds).
pub const TIME_MAX: i64 = 1_000_000_000_000;

/// Default byproduct-sink penalty (one thousand whole units per unit of
/// flow): large enough to dominate ordinary routing costs.
pub const BYPRODUCT_WEIGHT: i64 = 1_000_000_000;

} // verus!
