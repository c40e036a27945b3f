//! Exponential search: a doubling bound brackets the target, binary search
//! does the rest.

use crate::elementary;
use crate::elementary::{
    lemma_midpoint_search_in_range, lemma_midpoint_search_in_subrange, midpoint_search,
};
use crate::order::{at_most, equiv, lemma_operators, lemma_total_order, less, total_order};
use crate::utils::{index_of, lemma_sorted_subrange, locates, sorted};
use vstd::prelude::*;

verus! {

/// Where doubling `bound` stops: at the first bound that lies outside `s` or
/// whose element is not less than `t`.
pub open spec fn gallop<T: Ord>(s: Seq<T>, t: T, bound: int) -> int
    decreases
        (if bound < s.len() {
            s.len() - bound
        } else {
            0
        }),
{
    if 0 < bound < s.len() && less(s[bound], t) {
        gallop(s, t, 2 * bound)
    } else {
        bound
    }
}

/// What exponential search returns: with `bound` doubled from 1 until it
/// stops, the result of halving the range from `bound / 2` up to `bound`, or
/// up to the last index where `bound` lies outside the sequence.
pub open spec fn exponential_search_of<T: Ord>(s: Seq<T>, t: T) -> Option<int> {
    if s.len() == 0 {
        None
    } else {
        let bound = gallop(s, t, 1);
        let last = if bound < s.len() {
            bound
        } else {
            s.len() - 1
        };
        midpoint_search(s, t, bound / 2, last)
    }
}

/// Doubling stops at a bound whose half lies inside the sequence and holds
/// an element less than the target, unless it stops at 1; and the element at
/// the bound itself, if there is one, is not less than the target.
proof fn lemma_gallop_stops<T: Ord>(s: Seq<T>, t: T, bound: int)
    requires
        1 <= bound,
        bound >= 2 ==> bound / 2 < s.len() && less(s[bound / 2], t),
    ensures
        ({
            let stop = gallop(s, t, bound);
            &&& bound <= stop
            &&& stop >= 2 ==> stop / 2 < s.len() && less(s[stop / 2], t)
            &&& stop < s.len() ==> !less(s[stop], t)
        }),
    decreases
        (if bound < s.len() {
            s.len() - bound
        } else {
            0
        }),
{
    if bound < s.len() && less(s[bound], t) {
        lemma_gallop_stops(s, t, 2 * bound);
    }
}

/// Exponential search over a sorted sequence locates the target.
pub proof fn lemma_exponential_search_locates<T: Ord>(s: Seq<T>, t: T)
    requires
        total_order::<T>(),
        sorted(s),
    ensures
        locates(s, t, exponential_search_of(s, t)),
{
    if s.len() > 0 {
        lemma_total_order::<T>();
        lemma_gallop_stops(s, t, 1);
        let bound = gallop(s, t, 1);
        let first = bound / 2;
        let last = if bound < s.len() {
            bound
        } else {
            s.len() - 1
        };
        lemma_midpoint_search_in_range(s, t, first, last);
        if midpoint_search(s, t, first, last) is None {
            assert forall|i: int| 0 <= i < s.len() implies !equiv(#[trigger] s[i], t) by {
                if i < first {
                    assert(at_most(s[i], s[first]));
                } else if i > last {
                    assert(at_most(s[last], s[i]));
                    assert(!equiv(s[last], t));
                }
            }
        }
    }
}

/// Performs exponential search on `arr` in order to find the index of
/// `target`.
///
/// The slice must be sorted, and twice its length must fit in `usize`. The
/// result is an index whose element equals `target`, or `None` when no
/// element does.
#[verifier::loop_isolation(false)]
pub fn exponential_search<T: Ord>(target: &T, arr: &[T]) -> (r: Option<usize>)
    requires
        total_order::<T>(),
        sorted(arr@),
        arr@.len() <= usize::MAX / 2,
    ensures
        index_of(r) == exponential_search_of(arr@, *target),
        locates(arr@, *target, index_of(r)),
        arr@.len() == 0 ==> r is None,
{
    if arr.is_empty() {
        return None;
    }
    proof {
        lemma_operators::<T>();
        lemma_exponential_search_locates(arr@, *target);
    }
    let arr_size = arr.len();
    let mut bound: usize = 1;

    while bound < arr_size && arr[bound] < *target
        invariant
            1 <= bound < 2 * arr_size,
            gallop(arr@, *target, bound as int) == gallop(arr@, *target, 1),
        decreases 2 * arr_size - bound,
    {
        bound *= 2;
    }

    let left_bound = bound / 2;
    let right_bound = if bound + 1 < arr_size {
        bound + 1
    } else {
        arr_size
    };
    let window = &arr[left_bound..right_bound];
    proof {
        lemma_sorted_subrange(arr@, left_bound as int, right_bound as int);
        lemma_midpoint_search_in_subrange(
            arr@,
            *target,
            left_bound as int,
            right_bound as int,
            0,
            window@.len() - 1,
        );
    }
    let slice_index = elementary::binary_search(target, window)?;
    let index = slice_index + left_bound;

    Some(index)
}

} // verus!
