//! Bounds on sizes.

use vstd::prelude::*;

verus! {

/// Whether a size lies within the bounds that are given, ends included.
pub open spec fn in_range(size: u64, min: Option<u64>, max: Option<u64>) -> bool {
    &&& (min matches Some(lo) ==> lo <= size)
    &&& (max matches Some(hi) ==> size <= hi)
}

/// Whether a size lies within the bounds that are given, ends included.
pub fn size_in_range(size: u64, min: Option<u64>, max: Option<u64>) -> (r: bool)
    ensures
        r == in_range(size, min, max),
{
    if let Some(minv) = min {
        if size < minv {
            return false;
        }
    }
    if let Some(maxv) = max {
        if size > maxv {
            return false;
        }
    }
    true
}

} // verus!
