//! Searching sorted slices: binary search, boundary ranks and three variations
//! (exponential, interpolation and uniform binary search), each with a contract
//! over the slice's view.

pub mod elementary;
pub mod order;
pub mod ranks;
pub mod utils;
pub mod variations;

use crate::elementary::midpoint_search;
use crate::order::total_order;
use crate::utils::{index_of, locates, sorted};
use vstd::prelude::*;

verus! {

/// Performs binary search on `arr` in order to find the index of `target`.
///
/// The slice must be sorted. The result is an index whose element equals
/// `target`, or `None` when no element does; among several equal elements it
/// is the one that halving the whole slice reaches first.
pub fn binary_search<T: Ord>(target: &T, arr: &[T]) -> (r: Option<usize>)
    requires
        total_order::<T>(),
        sorted(arr@),
    ensures
        index_of(r) == midpoint_search(arr@, *target, 0, arr@.len() - 1),
        locates(arr@, *target, index_of(r)),
        arr@.len() == 0 ==> r is None,
{
    if arr.is_empty() {
        return None;
    }
    elementary::binary_search(target, arr)
}

} // verus!
