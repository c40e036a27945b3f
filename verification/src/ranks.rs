//! Leftmost and rightmost rank of a target in a sorted slice.

use crate::order::{at_most, equiv, lemma_operators, lemma_total_order, less, total_order};
use crate::utils::{occurs, sorted};
use vstd::prelude::*;

verus! {

/// `x` sorts before `t`: strictly, or allowing for equality.
pub open spec fn sorts_before<T: Ord>(x: T, t: T, strictly: bool) -> bool {
    if strictly {
        less(x, t)
    } else {
        at_most(x, t)
    }
}

/// How many elements of `s` sort before `t`.
pub open spec fn count_before<T: Ord>(s: Seq<T>, t: T, strictly: bool) -> nat
    decreases s.len(),
{
    if s.len() == 0 {
        0
    } else {
        count_before(s.drop_last(), t, strictly) + if sorts_before(s.last(), t, strictly) {
            1nat
        } else {
            0nat
        }
    }
}

/// The leftmost rank of `t` in `s`: the number of elements strictly less
/// than `t`, which in a sorted sequence is the first index at which `t`
/// could be inserted.
pub open spec fn leftmost_rank_of<T: Ord>(s: Seq<T>, t: T) -> int {
    count_before(s, t, true) as int
}

/// The rightmost rank of `t` in `s`: one less than the number of elements
/// that are at most `t`, which in a sorted sequence is the last index that
/// holds such an element; `-1` where a non-empty sequence holds none, and
/// 0 for the empty sequence.
pub open spec fn rightmost_rank_of<T: Ord>(s: Seq<T>, t: T) -> int {
    if s.len() == 0 {
        0
    } else {
        count_before(s, t, false) - 1
    }
}

/// Where the first `k` elements of a sequence sort before `t` and the others
/// do not, `k` is the number of elements that sort before `t`.
pub proof fn lemma_count_at_boundary<T: Ord>(s: Seq<T>, t: T, strictly: bool, k: int)
    requires
        0 <= k <= s.len(),
        forall|i: int| 0 <= i < k ==> sorts_before(#[trigger] s[i], t, strictly),
        forall|i: int| k <= i < s.len() ==> !sorts_before(#[trigger] s[i], t, strictly),
    ensures
        count_before(s, t, strictly) == k,
    decreases s.len(),
{
    if s.len() > 0 {
        let front = s.drop_last();
        assert(forall|i: int| 0 <= i < front.len() ==> front[i] == s[i]);
        if k == s.len() {
            lemma_count_at_boundary(front, t, strictly, k - 1);
        } else {
            lemma_count_at_boundary(front, t, strictly, k);
        }
    }
}

/// In a sorted sequence the elements that sort before `t` come first: the
/// count of them is the boundary between them and the others.
pub proof fn lemma_count_is_boundary<T: Ord>(s: Seq<T>, t: T, strictly: bool)
    requires
        total_order::<T>(),
        sorted(s),
    ensures
        count_before(s, t, strictly) <= s.len(),
        forall|i: int|
            0 <= i < s.len() ==> (i < count_before(s, t, strictly) <==> sorts_before(
                #[trigger] s[i],
                t,
                strictly,
            )),
    decreases s.len(),
{
    lemma_total_order::<T>();
    if s.len() > 0 {
        let front = s.drop_last();
        let last = s.len() - 1;
        assert(forall|i: int| 0 <= i < front.len() ==> front[i] == s[i]);
        lemma_count_is_boundary(front, t, strictly);
        if sorts_before(s.last(), t, strictly) {
            assert forall|i: int| 0 <= i < last implies sorts_before(
                #[trigger] s[i],
                t,
                strictly,
            ) by {
                assert(at_most(s[i], s[last]));
            }
            lemma_count_at_boundary(front, t, strictly, last);
        }
    }
}

/// The leftmost rank is at most one more than the rightmost rank, and the
/// indices from the one to the other are exactly those whose elements equal
/// the target; there are such indices exactly when the target occurs.
pub proof fn lemma_rank_order<T: Ord>(s: Seq<T>, t: T)
    requires
        total_order::<T>(),
        sorted(s),
    ensures
        0 <= leftmost_rank_of(s, t) <= rightmost_rank_of(s, t) + 1 <= s.len() + 1,
        forall|i: int|
            0 <= i < s.len() ==> (leftmost_rank_of(s, t) <= i <= rightmost_rank_of(s, t) <==> equiv(
                #[trigger] s[i],
                t,
            )),
        occurs(s, t) <==> s.len() > 0 && leftmost_rank_of(s, t) <= rightmost_rank_of(s, t),
{
    lemma_total_order::<T>();
    lemma_count_is_boundary(s, t, true);
    lemma_count_is_boundary(s, t, false);
    let left = leftmost_rank_of(s, t);
    let right = rightmost_rank_of(s, t);
    if s.len() > 0 {
        if left > right + 1 {
            assert(sorts_before(s[right + 1], t, true));
            assert(!sorts_before(s[right + 1], t, false));
        }
        assert forall|i: int| 0 <= i < s.len() implies (left <= i <= right <==> equiv(
            #[trigger] s[i],
            t,
        )) by {
            assert(i < left <==> sorts_before(s[i], t, true));
            assert(i <= right <==> sorts_before(s[i], t, false));
        }
        if left <= right {
            assert(equiv(s[left], t));
        }
    }
}

/// Calculates the leftmost rank of the given target in the array: the number
/// of elements strictly less than `target`, 0 for an empty array.
pub fn leftmost_rank<T: Ord>(target: &T, arr: &[T]) -> (rank: usize)
    requires
        total_order::<T>(),
        sorted(arr@),
    ensures
        rank == leftmost_rank_of(arr@, *target),
        rank <= arr@.len(),
        forall|i: int| 0 <= i < rank ==> less(#[trigger] arr@[i], *target),
        forall|i: int| rank <= i < arr@.len() ==> at_most(*target, #[trigger] arr@[i]),
        arr@.len() == 0 ==> rank == 0,
{
    if arr.is_empty() {
        return 0;
    }
    let mut left: usize = 0;
    let mut right: usize = arr.len();

    while left < right
        invariant
            total_order::<T>(),
            sorted(arr@),
            left <= right <= arr@.len(),
            forall|i: int| 0 <= i < left ==> less(#[trigger] arr@[i], *target),
            forall|i: int| right <= i < arr@.len() ==> !less(#[trigger] arr@[i], *target),
        decreases right - left,
    {
        let middle = left + (right - left) / 2;
        proof {
            lemma_operators::<T>();
            lemma_total_order::<T>();
        }
        if arr[middle] < *target {
            assert forall|i: int| 0 <= i < middle + 1 implies less(#[trigger] arr@[i], *target) by {
                assert(i < middle ==> at_most(arr@[i], arr@[middle as int]));
            }
            left = middle + 1;
        } else {
            assert forall|i: int| middle <= i < arr@.len() implies !less(
                #[trigger] arr@[i],
                *target,
            ) by {
                assert(middle < i ==> at_most(arr@[middle as int], arr@[i]));
            }
            right = middle;
        }
    }
    proof {
        lemma_total_order::<T>();
        lemma_count_at_boundary(arr@, *target, true, left as int);
    }
    left
}

/// Calculates the rightmost rank of the given target in the array: the last
/// index whose element is at most `target`, 0 for an empty array.
///
/// A non-empty array must hold an element that is at most `target`: without
/// one there is no such index.
pub fn rightmost_rank<T: Ord>(target: &T, arr: &[T]) -> (rank: usize)
    requires
        total_order::<T>(),
        sorted(arr@),
        arr@.len() > 0 ==> at_most(arr@[0], *target),
    ensures
        rank == rightmost_rank_of(arr@, *target),
        arr@.len() > 0 ==> rank < arr@.len(),
        forall|i: int| 0 <= i <= rank && i < arr@.len() ==> at_most(#[trigger] arr@[i], *target),
        forall|i: int| rank < i < arr@.len() ==> less(*target, #[trigger] arr@[i]),
        arr@.len() == 0 ==> rank == 0,
{
    if arr.is_empty() {
        return 0;
    }
    let mut left: usize = 0;
    let mut right: usize = arr.len();

    while left < right
        invariant
            total_order::<T>(),
            sorted(arr@),
            left <= right <= arr@.len(),
            forall|i: int| 0 <= i < left ==> at_most(#[trigger] arr@[i], *target),
            forall|i: int| right <= i < arr@.len() ==> less(*target, #[trigger] arr@[i]),
        decreases right - left,
    {
        let middle = left + (right - left) / 2;
        proof {
            lemma_operators::<T>();
            lemma_total_order::<T>();
        }
        if arr[middle] > *target {
            assert forall|i: int| middle <= i < arr@.len() implies less(
                *target,
                #[trigger] arr@[i],
            ) by {
                assert(middle < i ==> at_most(arr@[middle as int], arr@[i]));
            }
            right = middle;
        } else {
            assert forall|i: int| 0 <= i < middle + 1 implies at_most(
                #[trigger] arr@[i],
                *target,
            ) by {
                assert(i < middle ==> at_most(arr@[i], arr@[middle as int]));
            }
            left = middle + 1;
        }
    }
    proof {
        lemma_total_order::<T>();
        assert(right > 0) by {
            if right == 0 {
                assert(less(*target, arr@[0]));
            }
        }
        lemma_count_at_boundary(arr@, *target, false, right as int);
    }
    right - 1
}

} // verus!
