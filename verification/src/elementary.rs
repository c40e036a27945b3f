//! Binary search by halving an inclusive range, without the check for an
//! empty slice.

use crate::order::{
    at_most, compare, comparison, equiv, lemma_total_order, total_order, Comparison,
};
use crate::utils::{index_of, locates, sorted};
use vstd::prelude::*;

verus! {

/// The index at which halving the inclusive range `[lo, hi]` of `s` comes to
/// rest: each step probes the midpoint `(lo + hi) / 2`, stops there if the
/// element equals `t`, and goes on above it if the element is less than `t`,
/// below it otherwise. An empty range gives `None`.
pub open spec fn midpoint_search<T: Ord>(s: Seq<T>, t: T, lo: int, hi: int) -> Option<int>
    decreases hi - lo + 1,
{
    if 0 <= lo <= hi < s.len() {
        let mid = (lo + hi) / 2;
        match comparison(s[mid], t) {
            Comparison::Equal => Some(mid),
            Comparison::Less => midpoint_search(s, t, mid + 1, hi),
            Comparison::Greater => midpoint_search(s, t, lo, mid - 1),
        }
    } else {
        None
    }
}

/// Halving a range of a sorted sequence finds the target if the range holds
/// it: a hit lies inside the range and equals the target, and after a miss no
/// element of the range equals the target.
pub proof fn lemma_midpoint_search_in_range<T: Ord>(s: Seq<T>, t: T, lo: int, hi: int)
    requires
        total_order::<T>(),
        sorted(s),
        0 <= lo <= hi + 1 <= s.len(),
    ensures
        match midpoint_search(s, t, lo, hi) {
            Some(i) => lo <= i <= hi && equiv(s[i], t),
            None => forall|i: int| lo <= i <= hi ==> !equiv(#[trigger] s[i], t),
        },
    decreases hi - lo + 1,
{
    lemma_total_order::<T>();
    if lo <= hi {
        let mid = (lo + hi) / 2;
        match comparison(s[mid], t) {
            Comparison::Equal => {},
            Comparison::Less => {
                lemma_midpoint_search_in_range(s, t, mid + 1, hi);
                assert forall|i: int| lo <= i <= mid implies !equiv(#[trigger] s[i], t) by {
                    assert(i < mid ==> at_most(s[i], s[mid]));
                }
            },
            Comparison::Greater => {
                lemma_midpoint_search_in_range(s, t, lo, mid - 1);
                assert forall|i: int| mid <= i <= hi implies !equiv(#[trigger] s[i], t) by {
                    assert(mid < i ==> at_most(s[mid], s[i]));
                }
            },
        }
    }
}

/// Halving a whole sorted sequence locates the target.
pub proof fn lemma_midpoint_search_locates<T: Ord>(s: Seq<T>, t: T)
    requires
        total_order::<T>(),
        sorted(s),
    ensures
        locates(s, t, midpoint_search(s, t, 0, s.len() - 1)),
{
    lemma_midpoint_search_in_range(s, t, 0, s.len() - 1);
}

/// A result counted from the start of a subrange, counted from the start of
/// the sequence instead.
pub open spec fn shifted(r: Option<int>, by: int) -> Option<int> {
    match r {
        Some(i) => Some(i + by),
        None => None,
    }
}

/// Halving a range of a subrange visits the same elements as halving that
/// range in the whole sequence.
pub proof fn lemma_midpoint_search_in_subrange<T: Ord>(
    s: Seq<T>,
    t: T,
    from: int,
    to: int,
    lo: int,
    hi: int,
)
    requires
        0 <= from <= to <= s.len(),
        0 <= lo,
        hi < to - from,
    ensures
        midpoint_search(s, t, from + lo, from + hi) == shifted(
            midpoint_search(s.subrange(from, to), t, lo, hi),
            from,
        ),
    decreases hi - lo + 1,
{
    if lo <= hi {
        let mid = (lo + hi) / 2;
        assert((from + lo + from + hi) / 2 == from + mid);
        assert(s.subrange(from, to)[mid] == s[from + mid]);
        lemma_midpoint_search_in_subrange(s, t, from, to, mid + 1, hi);
        lemma_midpoint_search_in_subrange(s, t, from, to, lo, mid - 1);
    }
}

/// Core implementation of binary search with no additional checks.
pub fn binary_search<T: Ord>(target: &T, arr: &[T]) -> (r: Option<usize>)
    requires
        total_order::<T>(),
        sorted(arr@),
        arr@.len() > 0,
    ensures
        index_of(r) == midpoint_search(arr@, *target, 0, arr@.len() - 1),
        locates(arr@, *target, index_of(r)),
{
    let mut left: usize = 0;
    let mut right: usize = arr.len() - 1;
    proof {
        lemma_midpoint_search_locates(arr@, *target);
    }
    while left <= right
        invariant
            total_order::<T>(),
            left <= right + 1 <= arr@.len(),
            locates(arr@, *target, midpoint_search(arr@, *target, 0, arr@.len() - 1)),
            midpoint_search(arr@, *target, left as int, right as int) == midpoint_search(
                arr@,
                *target,
                0,
                arr@.len() - 1,
            ),
        decreases right + 1 - left,
    {
        let middle = left + (right - left) / 2;
        match compare(&arr[middle], target) {
            Comparison::Equal => return Some(middle),
            Comparison::Greater => {
                if middle == 0 {
                    assert(midpoint_search(arr@, *target, 0, -1) is None);
                    return None;
                }
                right = middle - 1;
            },
            Comparison::Less => left = middle + 1,
        }
    }
    None
}

} // verus!
