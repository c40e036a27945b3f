//! Sorted sequences: what it means for a slice to be sorted, what it means
//! for a target to occur in it, and the run-time check for sortedness.

use crate::order::{at_most, equiv, lemma_operators, lemma_total_order, less, total_order};
use vstd::prelude::*;

verus! {

/// No element sorts after a later one.
pub open spec fn sorted<T: Ord>(s: Seq<T>) -> bool {
    forall|i: int, j: int| 0 <= i < j < s.len() ==> at_most(#[trigger] s[i], #[trigger] s[j])
}

/// No element sorts after its right neighbour.
pub open spec fn neighbours_ordered<T: Ord>(s: Seq<T>) -> bool {
    forall|i: int, j: int|
        0 <= i && j == i + 1 && j < s.len() ==> at_most(#[trigger] s[i], #[trigger] s[j])
}

/// Some element of `s` compares as equal to `t`.
pub open spec fn occurs<T: Ord>(s: Seq<T>, t: T) -> bool {
    exists|i: int| 0 <= i < s.len() && equiv(#[trigger] s[i], t)
}

/// A search result as a mathematical index.
pub open spec fn index_of(r: Option<usize>) -> Option<int> {
    match r {
        Some(i) => Some(i as int),
        None => None,
    }
}

/// `r` answers the question where `t` is in `s`: an index that holds an
/// element equal to `t`, or `None` when no element is.
pub open spec fn locates<T: Ord>(s: Seq<T>, t: T, r: Option<int>) -> bool {
    match r {
        Some(i) => 0 <= i < s.len() && equiv(s[i], t),
        None => !occurs(s, t),
    }
}

/// `t` falls into a gap of `s`: before the first element, after the last, or
/// strictly between two neighbours. An empty sequence is one gap.
pub open spec fn in_gap<T: Ord>(s: Seq<T>, t: T) -> bool {
    ||| s.len() == 0
    ||| less(t, s[0])
    ||| less(s[s.len() - 1], t)
    ||| exists|i: int, j: int|
        0 <= i && j == i + 1 && j < s.len() && less(#[trigger] s[i], t) && less(t, #[trigger] s[j])
}

/// A sequence is sorted exactly when each element is ordered with its right
/// neighbour.
pub proof fn lemma_sorted_by_neighbours<T: Ord>(s: Seq<T>)
    requires
        total_order::<T>(),
    ensures
        sorted(s) <==> neighbours_ordered(s),
{
    if neighbours_ordered(s) {
        assert forall|i: int, j: int| 0 <= i < j < s.len() implies at_most(
            #[trigger] s[i],
            #[trigger] s[j],
        ) by {
            lemma_neighbours_reach(s, i, j);
        }
    }
}

proof fn lemma_neighbours_reach<T: Ord>(s: Seq<T>, i: int, j: int)
    requires
        total_order::<T>(),
        neighbours_ordered(s),
        0 <= i < j < s.len(),
    ensures
        at_most(s[i], s[j]),
    decreases j - i,
{
    lemma_total_order::<T>();
    if i + 1 < j {
        lemma_neighbours_reach(s, i, j - 1);
        assert(at_most(s[j - 1], s[j]));
    }
}

/// Every subrange of a sorted sequence is sorted.
pub proof fn lemma_sorted_subrange<T: Ord>(s: Seq<T>, from: int, to: int)
    requires
        sorted(s),
        0 <= from <= to <= s.len(),
    ensures
        sorted(s.subrange(from, to)),
{
    let part = s.subrange(from, to);
    assert forall|i: int, j: int| 0 <= i < j < part.len() implies at_most(
        #[trigger] part[i],
        #[trigger] part[j],
    ) by {
        assert(at_most(s[from + i], s[from + j]));
    }
}

/// In a sorted sequence a target that falls into a gap does not occur, and a
/// target that does not occur falls into a gap.
pub proof fn lemma_gap_is_absence<T: Ord>(s: Seq<T>, t: T)
    requires
        total_order::<T>(),
        sorted(s),
    ensures
        in_gap(s, t) <==> !occurs(s, t),
{
    lemma_total_order::<T>();
    if in_gap(s, t) {
        if occurs(s, t) {
            let k = choose|k: int| 0 <= k < s.len() && equiv(#[trigger] s[k], t);
            if less(t, s[0]) {
                assert(at_most(s[0], s[k]) || k == 0);
            } else if less(s[s.len() - 1], t) {
                assert(at_most(s[k], s[s.len() - 1]) || k == s.len() - 1);
            } else {
                let (i, j) = choose|i: int, j: int|
                    0 <= i && j == i + 1 && j < s.len() && less(#[trigger] s[i], t) && less(
                        t,
                        #[trigger] s[j],
                    );
                if k <= i {
                    assert(at_most(s[k], s[i]) || k == i);
                } else {
                    assert(at_most(s[j], s[k]) || k == j);
                }
            }
        }
    }
    if !occurs(s, t) && s.len() > 0 && !less(t, s[0]) && !less(s[s.len() - 1], t) {
        lemma_crossing(s, t, s.len() - 1);
    }
}

proof fn lemma_crossing<T: Ord>(s: Seq<T>, t: T, hi: int)
    requires
        total_order::<T>(),
        !occurs(s, t),
        0 <= hi < s.len(),
        !less(t, s[0]),
        less(t, s[hi]) || hi == s.len() - 1 && !less(s[hi], t),
    ensures
        exists|i: int, j: int|
            0 <= i && j == i + 1 && j < s.len() && less(#[trigger] s[i], t) && less(
                t,
                #[trigger] s[j],
            ),
    decreases hi,
{
    lemma_total_order::<T>();
    assert(!equiv(s[0], t));
    assert(!equiv(s[hi], t));
    if hi > 0 {
        assert(!equiv(s[hi - 1], t));
        if less(s[hi - 1], t) {
            assert(less(s[hi - 1], t) && less(t, s[hi]));
        } else {
            lemma_crossing(s, t, hi - 1);
        }
    }
}

/// A result that locates an element of the sequence is an index, and the
/// element there equals the one that was looked for.
pub proof fn lemma_locates_element<T: Ord>(s: Seq<T>, i: int, r: Option<int>)
    requires
        total_order::<T>(),
        0 <= i < s.len(),
        locates(s, s[i], r),
    ensures
        r matches Some(j) && 0 <= j < s.len() && equiv(s[j], s[i]),
{
    lemma_total_order::<T>();
    assert(equiv(s[i], s[i]));
}

/// A result that locates a target in a gap of a sorted sequence is `None`.
pub proof fn lemma_locates_gap<T: Ord>(s: Seq<T>, t: T, r: Option<int>)
    requires
        total_order::<T>(),
        sorted(s),
        in_gap(s, t),
        locates(s, t, r),
    ensures
        r is None,
{
    lemma_gap_is_absence(s, t);
}

/// Checks if `arr` is sorted.
pub fn is_sorted<T: Ord>(arr: &[T]) -> (r: bool)
    requires
        total_order::<T>(),
    ensures
        r <==> sorted(arr@),
        r <==> neighbours_ordered(arr@),
{
    proof {
        lemma_sorted_by_neighbours(arr@);
    }
    let mut i: usize = 1;
    while i < arr.len()
        invariant
            1 <= i,
            total_order::<T>(),
            forall|a: int, b: int|
                0 <= a && b == a + 1 && b < i && b < arr@.len() ==> at_most(
                    #[trigger] arr@[a],
                    #[trigger] arr@[b],
                ),
        decreases arr@.len() - i,
    {
        proof {
            lemma_operators::<T>();
        }
        if !(arr[i - 1] <= arr[i]) {
            return false;
        }
        i += 1;
    }
    true
}

} // verus!
