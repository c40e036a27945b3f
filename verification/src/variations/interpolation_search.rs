//! Interpolation search: an estimate of where the target lies between the
//! two ends of the range takes the place of the midpoint.

use crate::order::{
    at_most, compare, comparison, equiv, lemma_operators, lemma_total_order, less, total_order,
    Comparison,
};
use crate::utils::{index_of, occurs, sorted};
use std::ops::{Div, Sub};
use vstd::arithmetic::div_mod::lemma_basic_div;
use vstd::prelude::*;
use vstd::std_specs::convert::IntoSpec;
use vstd::std_specs::ops::{DivSpec, SubSpec};

verus! {

/// The range `[left, right]` of `s` brackets `t`: the element at `left` is
/// less than `t`, and the one at `right` is greater.
pub open spec fn brackets<T: Ord>(s: Seq<T>, t: T, left: int, right: int) -> bool {
    0 <= left <= right < s.len() && less(s[left], t) && less(t, s[right])
}

/// `f` can be called on `t` and the two ends of every range of `s` that
/// brackets `t`, and what it returns, added to the left end, stays inside the
/// range.
pub open spec fn estimate_fits<T: Ord, F: Fn(&T, &T, &T) -> usize>(f: F, s: Seq<T>, t: T) -> bool {
    &&& forall|left: int, right: int| #[trigger]
        brackets(s, t, left, right) ==> call_requires(f, (&t, &s[left], &s[right]))
    &&& forall|left: int, right: int, offset: usize|
        brackets(s, t, left, right) && #[trigger] call_ensures(
            f,
            (&t, &s[left], &s[right]),
            offset,
        ) ==> left + offset <= right
}

/// `f`, called on `t` and the two ends of a range of `s` that brackets `t`,
/// returns what `estimate` says.
pub open spec fn estimates<T: Ord, F: Fn(&T, &T, &T) -> usize>(
    f: F,
    s: Seq<T>,
    t: T,
    estimate: spec_fn(T, T, T) -> int,
) -> bool {
    forall|left: int, right: int, offset: usize|
        brackets(s, t, left, right) && #[trigger] call_ensures(
            f,
            (&t, &s[left], &s[right]),
            offset,
        ) ==> offset == estimate(t, s[left], s[right])
}

/// The index at which interpolation over the inclusive range `[left, right]`
/// of `s` comes to rest. While the range brackets `t`, the element at `left`
/// plus the estimate is probed: the search stops there if it equals `t`;
/// if it is less than `t`, the range goes on one above it, and the search
/// stops at once if the element at the new left end equals `t`; if it is
/// greater, the range goes on one below it. A range that does not bracket
/// `t` gives `None`, and so does an estimate that leaves the range.
pub open spec fn interpolation_walk<T: Ord>(
    estimate: spec_fn(T, T, T) -> int,
    s: Seq<T>,
    t: T,
    left: int,
    right: int,
) -> Option<int>
    decreases right - left + 1,
{
    if brackets(s, t, left, right) {
        let middle = left + estimate(t, s[left], s[right]);
        if left <= middle <= right {
            match comparison(s[middle], t) {
                Comparison::Equal => Some(middle),
                Comparison::Less => if middle < right && equiv(s[middle + 1], t) {
                    Some(middle + 1)
                } else {
                    interpolation_walk(estimate, s, t, middle + 1, right)
                },
                Comparison::Greater => interpolation_walk(estimate, s, t, left, middle - 1),
            }
        } else {
            None
        }
    } else {
        None
    }
}

/// What interpolation search returns with the estimates of `estimate`.
pub open spec fn interpolation_search_of<T: Ord>(
    estimate: spec_fn(T, T, T) -> int,
    s: Seq<T>,
    t: T,
) -> Option<int> {
    interpolation_walk(estimate, s, t, 0, s.len() - 1)
}

/// `estimate` never overshoots: in every range of `s` that brackets `t` its
/// probe stays inside the range and holds an element that is at most `t`.
pub open spec fn undershoots<T: Ord>(estimate: spec_fn(T, T, T) -> int, s: Seq<T>, t: T) -> bool {
    forall|left: int, right: int| #[trigger]
        brackets(s, t, left, right) ==> {
            let middle = left + estimate(t, s[left], s[right]);
            left <= middle <= right && at_most(s[middle], t)
        }
}

/// With an estimate that never overshoots, interpolation over a range that
/// brackets the target finds the target if it occurs inside the range.
pub proof fn lemma_interpolation_walk_finds<T: Ord>(
    estimate: spec_fn(T, T, T) -> int,
    s: Seq<T>,
    t: T,
    left: int,
    right: int,
)
    requires
        total_order::<T>(),
        sorted(s),
        undershoots(estimate, s, t),
        brackets(s, t, left, right),
        exists|k: int| left < k < right && equiv(#[trigger] s[k], t),
    ensures
        interpolation_walk(estimate, s, t, left, right) matches Some(j) && left < j < right
            && equiv(s[j], t),
    decreases right - left,
{
    lemma_total_order::<T>();
    let k = choose|k: int| left < k < right && equiv(#[trigger] s[k], t);
    let middle = left + estimate(t, s[left], s[right]);
    if less(s[middle], t) {
        assert(middle < k) by {
            if k <= middle {
                assert(k == middle || at_most(s[k], s[middle]));
            }
        }
        if !equiv(s[middle + 1], t) {
            assert(middle + 1 < k);
            assert(at_most(s[middle + 1], s[k]));
            lemma_interpolation_walk_finds(estimate, s, t, middle + 1, right);
        }
    } else {
        assert(middle < right) by {
            if middle == right {
                assert(at_most(s[right], t));
            }
        }
        assert(left < middle) by {
            if middle == left {
                assert(at_most(t, s[left]));
            }
        }
    }
}

/// With an estimate that never overshoots, interpolation search finds every
/// target that occurs in a sorted sequence strictly between its first and
/// its last element.
pub proof fn lemma_interpolation_search_finds<T: Ord>(
    estimate: spec_fn(T, T, T) -> int,
    s: Seq<T>,
    t: T,
)
    requires
        total_order::<T>(),
        sorted(s),
        undershoots(estimate, s, t),
        s.len() > 0,
        less(s[0], t),
        less(t, s[s.len() - 1]),
        occurs(s, t),
    ensures
        interpolation_search_of(estimate, s, t) matches Some(j) && 0 < j < s.len() - 1 && equiv(
            s[j],
            t,
        ),
{
    lemma_total_order::<T>();
    let k = choose|k: int| 0 <= k < s.len() && equiv(#[trigger] s[k], t);
    assert(0 < k < s.len() - 1);
    lemma_interpolation_walk_finds(estimate, s, t, 0, s.len() - 1);
}

/// Subtraction on `T`, division on its differences and the conversion of
/// their quotients to `usize` return what `sub_spec`, `div_spec` and
/// `into_spec` say.
pub open spec fn linear_arithmetic_specified<T>() -> bool where
    T: Sub + Copy,
    <T as Sub>::Output: Div,
    <<T as Sub>::Output as Div>::Output: Into<usize>,
 {
    &&& <T as SubSpec>::obeys_sub_spec()
    &&& <<T as Sub>::Output as DivSpec>::obeys_div_spec()
    &&& <<<T as Sub>::Output as Div>::Output as IntoSpec<usize>>::obeys_into_spec()
}

/// The linear estimate can be computed: neither subtraction nor the division
/// fails.
pub open spec fn linear_estimate_defined<T>(t: T, l: T, r: T) -> bool where
    T: Sub + Copy,
    <T as Sub>::Output: Div,
    <<T as Sub>::Output as Div>::Output: Into<usize>,
 {
    &&& t.sub_req(l)
    &&& r.sub_req(l)
    &&& t.sub_spec(l).div_req(r.sub_spec(l))
}

/// The linear estimate: the distance of the target from the left end, divided
/// by the distance between the two ends.
pub open spec fn linear_estimate<T>(t: T, l: T, r: T) -> usize where
    T: Sub + Copy,
    <T as Sub>::Output: Div,
    <<T as Sub>::Output as Div>::Output: Into<usize>,
 {
    t.sub_spec(l).div_spec(r.sub_spec(l)).into_spec()
}

/// The linear estimate as an estimator.
pub open spec fn linear_estimator<T>() -> spec_fn(T, T, T) -> int where
    T: Sub + Copy,
    <T as Sub>::Output: Div,
    <<T as Sub>::Output as Div>::Output: Into<usize>,
 {
    |t: T, l: T, r: T| linear_estimate(t, l, r) as int
}

/// On `u8` the linear estimate can be computed for every range that brackets
/// the target, and it is zero there: the quotient of a distance by a greater
/// one. So it stays inside the range and never overshoots.
pub proof fn lemma_linear_estimate_u8(s: Seq<u8>, t: u8)
    ensures
        linear_arithmetic_specified::<u8>(),
        forall|left: int, right: int| #[trigger]
            brackets(s, t, left, right) ==> linear_estimate_defined(t, s[left], s[right])
                && linear_estimate(t, s[left], s[right]) == 0,
        undershoots(linear_estimator::<u8>(), s, t),
{
    assert forall|left: int, right: int| #[trigger] brackets(s, t, left, right) implies {
        &&& linear_estimate_defined(t, s[left], s[right])
        &&& linear_estimate(t, s[left], s[right]) == 0
    } by {
        lemma_basic_div(t - s[left], s[right] - s[left]);
    }
}

/// On `u16` the linear estimate can be computed for every range that
/// brackets the target, and it is zero there: the quotient of a distance by a
/// greater one. So it stays inside the range and never overshoots.
pub proof fn lemma_linear_estimate_u16(s: Seq<u16>, t: u16)
    ensures
        linear_arithmetic_specified::<u16>(),
        forall|left: int, right: int| #[trigger]
            brackets(s, t, left, right) ==> linear_estimate_defined(t, s[left], s[right])
                && linear_estimate(t, s[left], s[right]) == 0,
        undershoots(linear_estimator::<u16>(), s, t),
{
    assert forall|left: int, right: int| #[trigger] brackets(s, t, left, right) implies {
        &&& linear_estimate_defined(t, s[left], s[right])
        &&& linear_estimate(t, s[left], s[right]) == 0
    } by {
        lemma_basic_div(t - s[left], s[right] - s[left]);
    }
}

/// Performs interpolation search on `arr` in order to find the index of
/// `target`. This function uses linear interpolation.
///
/// The slice must be sorted, and for every range of it that brackets the
/// target the linear estimate must be computable and stay inside the range.
pub fn linear_interpolation_search<T>(target: &T, arr: &[T]) -> (r: Option<usize>) where
    T: Ord + Sub + Copy,
    <T as Sub>::Output: Div,
    <<T as Sub>::Output as Div>::Output: Into<usize>,

    requires
        total_order::<T>(),
        sorted(arr@),
        linear_arithmetic_specified::<T>(),
        forall|left: int, right: int| #[trigger]
            brackets(arr@, *target, left, right) ==> linear_estimate_defined(
                *target,
                arr@[left],
                arr@[right],
            ) && left + linear_estimate(*target, arr@[left], arr@[right]) <= right,
    ensures
        index_of(r) == interpolation_search_of(linear_estimator::<T>(), arr@, *target),
        r matches Some(i) ==> i < arr@.len() && equiv(arr@[i as int], *target),
        !occurs(arr@, *target) ==> r is None,
        arr@.len() == 0 ==> r is None,
        arr@.len() > 0 && (at_most(*target, arr@[0]) || at_most(arr@[arr@.len() - 1], *target))
            ==> r is None,
{
    let linear = |t: &T, l: &T, r: &T| -> (offset: usize)
        requires
            linear_estimate_defined(*t, *l, *r),
        ensures
            offset == linear_estimate(*t, *l, *r),
        { ((*t - *l) / (*r - *l)).into() };
    assert(estimates(linear, arr@, *target, linear_estimator::<T>()));
    interpolation_search(target, arr, linear)
}

/// Performs interpolation search on `arr` in order to find the index of
/// `target`. The function's `interpolation_fn` should calculate the offset
/// of the next probe from the left end of the range, given the target and
/// the elements at the two ends.
///
/// The slice must be sorted. A result is an index whose element equals
/// `target`, and a target that does not occur is not found. A target that
/// occurs is missed where the first element is not less than it or the last
/// not greater, and may be missed where an estimate overshoots.
#[verifier::loop_isolation(false)]
pub fn interpolation_search<T, InterpolationFn>(
    target: &T,
    arr: &[T],
    interpolation_fn: InterpolationFn,
) -> (r: Option<usize>) where InterpolationFn: Fn(&T, &T, &T) -> usize, T: Ord
    requires
        total_order::<T>(),
        sorted(arr@),
        estimate_fits(interpolation_fn, arr@, *target),
    ensures
        forall|estimate: spec_fn(T, T, T) -> int| #[trigger]
            estimates(interpolation_fn, arr@, *target, estimate) ==> index_of(r)
                == interpolation_search_of(estimate, arr@, *target),
        r matches Some(i) ==> i < arr@.len() && equiv(arr@[i as int], *target),
        !occurs(arr@, *target) ==> r is None,
        arr@.len() == 0 ==> r is None,
        arr@.len() > 0 && (at_most(*target, arr@[0]) || at_most(arr@[arr@.len() - 1], *target))
            ==> r is None,
{
    if arr.is_empty() {
        return None;
    }
    proof {
        lemma_operators::<T>();
        lemma_total_order::<T>();
    }
    let ghost s = arr@;
    let ghost t = *target;
    let mut left: usize = 0;
    let mut right: usize = arr.len() - 1;

    while left <= right && target < &arr[right] && target > &arr[left]
        invariant
            left <= right < arr@.len(),
            forall|estimate: spec_fn(T, T, T) -> int| #[trigger]
                estimates(interpolation_fn, s, t, estimate) ==> interpolation_walk(
                    estimate,
                    s,
                    t,
                    left as int,
                    right as int,
                ) == interpolation_search_of(estimate, s, t),
            (left == 0 && right == s.len() - 1) || (less(s[0], t) && less(t, s[s.len() - 1])),
        decreases right - left,
    {
        assert(brackets(s, t, left as int, right as int));
        let offset = interpolation_fn(target, &arr[left], &arr[right]);
        let middle = left + offset;

        match compare(&arr[middle], target) {
            Comparison::Less => {
                assert(middle < right);
                left = middle + 1;
            },
            Comparison::Equal => return Some(middle),
            Comparison::Greater => {
                assert(left < middle);
                right = middle - 1;
            },
        }

        if &arr[left] == target {
            return Some(left);
        }
    }
    None
}

} // verus!
