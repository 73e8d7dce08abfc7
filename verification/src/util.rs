//! The test by which a rejection sampler keeps or drops a candidate.

use vstd::prelude::*;
use crate::scalar::{Scalar, ONE_BITS};

verus! {

/// Whether a candidate point of the given squared length is kept: it lies
/// strictly inside the unit ball, or the unit disk. The sampler draws again
/// until this holds.
pub fn inside_unit(squared_length: Scalar) -> (keep: bool)
    ensures
        keep == squared_length.below(Scalar { bits: ONE_BITS }),
{
    squared_length.lt(Scalar::one())
}

} // verus!
