//! The IoT-targeted variant's placeholder arithmetic.

use vstd::prelude::*;

verus! {

/// `left + right`.
pub fn add(left: u64, right: u64) -> (r: u64)
    requires
        left + right <= u64::MAX,
    ensures
        r == left + right,
{
    left + right
}

} // verus!
