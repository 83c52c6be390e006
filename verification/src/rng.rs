//! The simulation's only impure input: a source of random values, used for the
//! cosmetic color jitter of newly placed matter and for the left/right
//! tie-break when falling sand finds both diagonals free.

use vstd::prelude::*;

verus! {

/// Relies on `rand::random` to produce a value of the requested type. Nothing
/// is promised of the result: every caller must be correct for every outcome.
pub assume_specification<T>[ rand::random::<T> ]() -> (r: T)
    where
        rand::distributions::Standard: rand::distributions::Distribution<T>,
;

} // verus!
