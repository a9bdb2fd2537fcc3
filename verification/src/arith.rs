//! Saturating fixed-point arithmetic on cost values.
//!
//! Costs are `u64` milli-units.  Sums and products saturate at `u64::MAX`,
//! which doubles as the "unreachable" sentinel in shortest-path searches.

use vstd::prelude::*;

verus! {

/// Saturating addition, as a spec-level function of the mathematical values.
pub open spec fn spec_sat_add(a: u64, b: u64) -> u64 {
    if a + b > u64::MAX {
        u64::MAX
    } else {
        (a + b) as u64
    }
}

/// Saturating multiplication, as a spec-level function of the mathematical values.
pub open spec fn spec_sat_mul(a: u64, b: u64) -> u64 {
    if a * b > u64::MAX {
        u64::MAX
    } else {
        (a * b) as u64
    }
}

/// Saturating addition of two cost values.
pub fn sat_add(a: u64, b: u64) -> (r: u64)
    ensures
        r == spec_sat_add(a, b),
{
    a.saturating_add(b)
}

/// Saturating multiplication of two cost values.
pub fn sat_mul(a: u64, b: u64) -> (r: u64)
    ensures
        r == spec_sat_mul(a, b),
{
    match a.checked_mul(b) {
        Some(v) => v,
        None => u64::MAX,
    }
}

} // verus!
