//! The source of randomness that the algorithms draw from.

use vstd::prelude::*;

verus! {

/// A source of random numbers. An implementation decides how the numbers
/// are made; the algorithms rely on the stated range only.
pub trait Random {
    /// A draw from the integers `low ..= high`, each equally likely.
    fn uniform_int(&self, low: i32, high: i32) -> (value: i32)
        requires
            low <= high,
        ensures
            low <= value <= high,
    ;

    /// A draw from the exponential distribution with rate one, in
    /// fixed-point units: what `-ln(u)` is for `u` uniform in the open
    /// interval from 0 to 1.
    fn exponential(&self) -> u64;
}

} // verus!
