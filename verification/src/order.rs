//! The order on elements that every search relies on, stated over what
//! `Ord::cmp` returns.

use std::cmp::Ordering;
use vstd::prelude::*;
use vstd::std_specs::cmp::{OrdSpec, PartialEqSpec, PartialOrdIs, PartialOrdSpec};

verus! {

/// Outcome of comparing one element with another.
#[derive(Clone, Copy, Debug, PartialEq, Eq, Structural)]
pub enum Comparison {
    Less,
    Equal,
    Greater,
}

/// `T`'s comparison operators agree with one another and form a total order
/// in which comparing as equal is an equivalence.
pub open spec fn total_order<T: Ord>() -> bool {
    vstd::laws_cmp::obeys_cmp::<T>()
}

/// `a` sorts strictly before `b`.
pub open spec fn less<T: Ord>(a: T, b: T) -> bool {
    a.cmp_spec(&b) == Ordering::Less
}

/// `a` and `b` compare as equal.
pub open spec fn equiv<T: Ord>(a: T, b: T) -> bool {
    a.cmp_spec(&b) == Ordering::Equal
}

/// `a` sorts before `b` or compares as equal to it.
pub open spec fn at_most<T: Ord>(a: T, b: T) -> bool {
    a.cmp_spec(&b) != Ordering::Greater
}

/// The three-way comparison of `a` with `b`.
pub open spec fn comparison<T: Ord>(a: T, b: T) -> Comparison {
    match a.cmp_spec(&b) {
        Ordering::Less => Comparison::Less,
        Ordering::Equal => Comparison::Equal,
        Ordering::Greater => Comparison::Greater,
    }
}

/// What `less`, `equiv` and `at_most` say of one pair, and of the pair swapped.
pub proof fn lemma_pair<T: Ord>(a: T, b: T)
    requires
        total_order::<T>(),
    ensures
        at_most(a, b) <==> less(a, b) || equiv(a, b),
        less(a, b) <==> !at_most(b, a),
        equiv(a, b) <==> at_most(a, b) && at_most(b, a),
        equiv(a, b) <==> equiv(b, a),
        comparison(a, b) == Comparison::Less <==> less(a, b),
        comparison(a, b) == Comparison::Equal <==> equiv(a, b),
        comparison(a, b) == Comparison::Greater <==> less(b, a),
{
    reveal(vstd::laws_cmp::obeys_cmp_ord);
    reveal(vstd::laws_cmp::obeys_cmp_partial_ord);
    reveal(vstd::laws_cmp::obeys_partial_cmp_spec_properties);
    reveal(vstd::laws_eq::obeys_eq_spec_properties);
}

/// `at_most` is transitive.
pub proof fn lemma_transitive<T: Ord>(a: T, b: T, c: T)
    requires
        total_order::<T>(),
        at_most(a, b),
        at_most(b, c),
    ensures
        at_most(a, c),
        less(a, b) || less(b, c) ==> less(a, c),
        equiv(a, b) && equiv(b, c) ==> equiv(a, c),
{
    reveal(vstd::laws_cmp::obeys_cmp_ord);
    reveal(vstd::laws_cmp::obeys_cmp_partial_ord);
    reveal(vstd::laws_cmp::obeys_partial_cmp_spec_properties);
    reveal(vstd::laws_eq::obeys_eq_spec_properties);
    lemma_pair(a, b);
    lemma_pair(b, c);
    lemma_pair(a, c);
}

/// The laws of the order, for all elements at once: swapping a pair mirrors
/// its comparison, and `at_most` is transitive.
pub proof fn lemma_total_order<T: Ord>()
    requires
        total_order::<T>(),
    ensures
        forall|a: T, b: T|
            #![trigger a.cmp_spec(&b)]
            (less(a, b) <==> !at_most(b, a)) && (equiv(a, b) <==> equiv(b, a)),
        forall|a: T, b: T, c: T|
            #![trigger a.cmp_spec(&b), b.cmp_spec(&c)]
            at_most(a, b) && at_most(b, c) ==> at_most(a, c),
{
    assert forall|a: T, b: T|
        #![trigger a.cmp_spec(&b)]
        (less(a, b) <==> !at_most(b, a)) && (equiv(a, b) <==> equiv(b, a)) by {
        lemma_pair(a, b);
    }
    assert forall|a: T, b: T, c: T|
        #![trigger a.cmp_spec(&b), b.cmp_spec(&c)]
        at_most(a, b) && at_most(b, c) implies at_most(a, c) by {
        lemma_transitive(a, b, c);
    }
}

/// Compares `a` with `b` by `Ord::cmp`.
pub fn compare<T: Ord>(a: &T, b: &T) -> (c: Comparison)
    requires
        total_order::<T>(),
    ensures
        c == comparison(*a, *b),
{
    proof {
        reveal(vstd::laws_cmp::obeys_cmp_ord);
    }
    match a.cmp(b) {
        Ordering::Less => Comparison::Less,
        Ordering::Equal => Comparison::Equal,
        Ordering::Greater => Comparison::Greater,
    }
}

/// What the comparison operators return in executable code: `<`, `<=`, `>`
/// and `==` on `T` decide `less`, `at_most` and `equiv`.
pub proof fn lemma_operators<T: Ord>()
    requires
        total_order::<T>(),
    ensures
        T::obeys_eq_spec(),
        T::obeys_partial_cmp_spec(),
        forall|a: T, b: T|
            #![trigger a.partial_cmp_spec(&b)]
            {
                &&& a.is_lt(&b) <==> less(a, b)
                &&& a.is_le(&b) <==> at_most(a, b)
                &&& a.is_gt(&b) <==> less(b, a)
                &&& a.is_ge(&b) <==> at_most(b, a)
            },
        forall|a: T, b: T| #[trigger] a.eq_spec(&b) <==> equiv(a, b),
{
    reveal(vstd::laws_cmp::obeys_cmp_ord);
    reveal(vstd::laws_cmp::obeys_cmp_partial_ord);
    assert forall|a: T, b: T|
        #![trigger a.partial_cmp_spec(&b)]
        {
            &&& a.is_lt(&b) <==> less(a, b)
            &&& a.is_le(&b) <==> at_most(a, b)
            &&& a.is_gt(&b) <==> less(b, a)
            &&& a.is_ge(&b) <==> at_most(b, a)
        } by {
        lemma_pair(a, b);
    }
}

} // verus!
