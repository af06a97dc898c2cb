//! Tier-1 counters of the encoder. This build keeps none: resetting and printing do nothing.
use vstd::prelude::*;

verus! {

/// Sets every counter back to zero; this build keeps none.
pub fn reset() {
}

/// Prints the counters; this build keeps none.
pub fn print() {
}

} // verus!
