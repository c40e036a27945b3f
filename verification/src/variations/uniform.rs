//! Uniform binary search: a table of steps, computed once for a length,
//! replaces the midpoint arithmetic of binary search.

use crate::order::{
    at_most, compare, comparison, equiv, lemma_total_order, less, total_order, Comparison,
};
use crate::utils::{index_of, locates, occurs, sorted};
use vstd::arithmetic::div_mod::{
    lemma_basic_div, lemma_div_denominator, lemma_div_non_zero, lemma_div_plus_one,
};
use vstd::arithmetic::power2::{
    lemma2_to64, lemma2_to64_rest, lemma_pow2_pos, lemma_pow2_strictly_increases,
    lemma_pow2_unfold, pow2,
};
use vstd::prelude::*;

verus! {

/// Capacity of the lookup table.
pub const MAX_LOOKUP_TABLE_SIZE: usize = 64;

/// Longest array for which the lookup table can be computed in `usize`
/// arithmetic: the computation reaches four times the array's length.
pub const MAX_ARRAY_LEN: usize = usize::MAX / 4;

/// The step at `depth` for an array of length `len`: `len / 2^(depth + 1)`,
/// rounded to the nearest integer, halves rounded up.
pub open spec fn step(len: nat, depth: nat) -> nat {
    (len + pow2(depth)) / pow2(depth + 1)
}

/// `depth` belongs to the table for `len`: no step before it is zero. The
/// first depth with a zero step ends the table and is the last that belongs
/// to it.
pub open spec fn in_use(len: nat, depth: nat) -> bool {
    forall|k: nat| k < depth ==> #[trigger] step(len, k) != 0
}

/// `table` holds the steps for `len` at every depth that belongs to the
/// table for `len`.
pub open spec fn holds_steps(table: Seq<usize>, len: nat) -> bool {
    &&& table.len() == MAX_LOOKUP_TABLE_SIZE
    &&& forall|d: nat|
        d < MAX_LOOKUP_TABLE_SIZE && in_use(len, d) ==> #[trigger] table[d as int] == step(len, d)
}

/// The index at which the walk through `s` that stands at `index` with
/// `depth` steps behind it comes to rest. The walk ends without a result
/// where the step at `depth` is zero; it ends at `index` if the element there
/// equals `t`; it goes on at the next depth, by that depth's step to the
/// right if the element is less than `t`, to the left otherwise. A step that
/// leaves the sequence ends the walk without a result.
pub open spec fn step_walk<T: Ord>(s: Seq<T>, t: T, index: int, depth: nat) -> Option<int>
    decreases MAX_LOOKUP_TABLE_SIZE - depth,
{
    if depth < MAX_LOOKUP_TABLE_SIZE && step(s.len(), depth) != 0 && 0 <= index < s.len() {
        match comparison(s[index], t) {
            Comparison::Equal => Some(index),
            Comparison::Less => step_walk(s, t, index + step(s.len(), depth + 1), depth + 1),
            Comparison::Greater => step_walk(s, t, index - step(s.len(), depth + 1), depth + 1),
        }
    } else {
        None
    }
}

/// What uniform binary search returns: where the walk that starts one below
/// the first step comes to rest.
pub open spec fn uniform_search_of<T: Ord>(s: Seq<T>, t: T) -> Option<int> {
    if s.len() == 0 {
        None
    } else {
        step_walk(s, t, step(s.len(), 0) - 1, 0)
    }
}

/// The part of `len` that is left to either side at `depth`.
spec fn span(len: nat, depth: nat) -> nat {
    len / pow2(depth)
}

/// Each step is half of what is left at its depth, rounded up, and leaves the
/// other half for the next depth.
proof fn lemma_step_halves(len: nat, depth: nat)
    ensures
        step(len, depth) == (span(len, depth) + 1) / 2,
        span(len, depth + 1) == span(len, depth) / 2,
        step(len, depth) != 0 <==> pow2(depth) <= len,
{
    let p = pow2(depth) as int;
    lemma_pow2_pos(depth);
    lemma_pow2_unfold(depth + 1);
    assert(pow2(depth + 1) == p * 2);
    lemma_div_denominator(len + p, p, 2);
    lemma_div_denominator(len as int, p, 2);
    lemma_div_plus_one(len as int, p);
    if p <= len {
        lemma_div_non_zero(len as int, p);
    } else {
        lemma_basic_div(len as int, p);
    }
}

/// The first step is one more than the midpoint of the whole array, so the
/// walk starts where halving the whole array starts.
pub proof fn lemma_first_step(len: nat)
    requires
        len > 0,
    ensures
        step(len, 0) - 1 == (0 + (len - 1)) / 2,
{
    lemma2_to64();
    lemma_step_halves(len, 0);
}

/// The first step is half of the length, rounded up, and every later step is
/// the step one depth before it for half of the length: this gives each
/// step by halving alone.
pub proof fn lemma_step_unfold(len: nat, depth: nat)
    ensures
        step(len, 0) == (len + 1) / 2,
        step(len, depth + 1) == step(len / 2, depth),
{
    lemma2_to64();
    lemma_step_halves(len, 0);
    lemma_step_halves(len, depth + 1);
    lemma_step_halves(len / 2, depth);
    lemma_pow2_pos(depth);
    lemma_pow2_unfold(depth + 1);
    lemma_div_denominator(len as int, 2, pow2(depth) as int);
}

/// The table for an array that is not too long ends well inside the
/// capacity, and its computation stays within `usize`.
proof fn lemma_depth_bound(len: nat, depth: nat)
    requires
        len <= MAX_ARRAY_LEN,
        in_use(len, depth),
    ensures
        depth + 1 < MAX_LOOKUP_TABLE_SIZE,
        len + pow2(depth) <= usize::MAX,
        pow2(depth + 1) <= usize::MAX,
{
    lemma2_to64();
    lemma2_to64_rest();
    lemma_pow2_unfold(depth + 1);
    if depth > 0 {
        let before = (depth - 1) as nat;
        assert(step(len, before) != 0);
        lemma_step_halves(len, before);
        lemma_pow2_unfold(depth);
        if before >= 62 {
            if before > 62 {
                lemma_pow2_strictly_increases(62, before);
            }
        }
    }
}

/// The walk over a sorted sequence locates the target, from any index and
/// depth at which the elements it cannot reach any more are known to be on
/// the far side of the target.
proof fn lemma_step_walk_locates<T: Ord>(s: Seq<T>, t: T, index: int, depth: nat)
    requires
        total_order::<T>(),
        sorted(s),
        0 < s.len() <= MAX_ARRAY_LEN,
        in_use(s.len(), depth),
        0 <= index,
        -1 <= index - span(s.len(), depth + 1),
        index + span(s.len(), depth + 1) < s.len(),
        forall|i: int| 0 <= i < index - span(s.len(), depth + 1) ==> less(#[trigger] s[i], t),
        forall|i: int| index + span(s.len(), depth + 1) < i < s.len() ==> less(t, #[trigger] s[i]),
        step(s.len(), depth) == 0 ==> !occurs(s, t),
    ensures
        locates(s, t, step_walk(s, t, index, depth)),
    decreases MAX_LOOKUP_TABLE_SIZE - depth,
{
    let len = s.len();
    let reach = span(len, depth + 1) as int;
    let next = step(len, depth + 1) as int;
    lemma_total_order::<T>();
    lemma_depth_bound(len, depth);
    lemma_step_halves(len, depth + 1);
    if step(len, depth) != 0 {
        assert(in_use(len, depth + 1));
        match comparison(s[index], t) {
            Comparison::Equal => {},
            Comparison::Less => {
                assert forall|i: int| 0 <= i <= index implies less(#[trigger] s[i], t) by {
                    assert(i < index ==> at_most(s[i], s[index]));
                }
                if next == 0 {
                    assert forall|i: int| 0 <= i < len implies !equiv(#[trigger] s[i], t) by {
                        assert(less(s[i], t) || less(t, s[i]));
                    }
                }
                lemma_step_walk_locates(s, t, index + next, depth + 1);
            },
            Comparison::Greater => {
                assert forall|i: int| index <= i < len implies less(t, #[trigger] s[i]) by {
                    assert(index < i ==> at_most(s[index], s[i]));
                }
                if next == 0 || index - next < 0 {
                    assert forall|i: int| 0 <= i < len implies !equiv(#[trigger] s[i], t) by {
                        assert(less(s[i], t) || less(t, s[i]));
                    }
                }
                if index - next >= 0 {
                    lemma_step_walk_locates(s, t, index - next, depth + 1);
                } else {
                    assert(step_walk(s, t, index - next, depth + 1) is None);
                }
            },
        }
    }
}

/// Uniform binary search over a sorted sequence locates the target.
pub proof fn lemma_uniform_search_locates<T: Ord>(s: Seq<T>, t: T)
    requires
        total_order::<T>(),
        sorted(s),
        s.len() <= MAX_ARRAY_LEN,
    ensures
        locates(s, t, uniform_search_of(s, t)),
{
    if s.len() > 0 {
        lemma2_to64();
        lemma_step_halves(s.len(), 0);
        lemma_step_halves(s.len(), 1);
        lemma_step_walk_locates(s, t, step(s.len(), 0) - 1, 0);
    }
}

/// Struct used for performing uniform binary search.
///
/// It keeps the lookup table of the last array length that it searched, and
/// computes the table anew when it is asked to search an array of another
/// length. One owner uses it at a time.
pub struct UniformBinarySearch {
    /// The size of the last array used for searching
    last_arr_size: Option<usize>,
    /// The lookup table to be used for searching the array
    lookup_table: [usize; MAX_LOOKUP_TABLE_SIZE],
}

/// What a searcher holds: the array length that its table stands for, if
/// any, and the entries of the table.
pub struct Cache {
    pub length: Option<usize>,
    pub table: Seq<usize>,
}

impl View for UniformBinarySearch {
    type V = Cache;

    closed spec fn view(&self) -> Cache {
        Cache { length: self.last_arr_size, table: self.lookup_table@ }
    }
}

impl UniformBinarySearch {
    /// The table is the one for the length that is kept with it.
    #[verifier::type_invariant]
    spec fn table_fits_length(self) -> bool {
        match self.last_arr_size {
            Some(len) => len <= MAX_ARRAY_LEN && holds_steps(self.lookup_table@, len as nat),
            None => true,
        }
    }

    /// Returns a new `UniformBinarySearch` struct: no length is cached, and
    /// every entry of the table is zero.
    pub fn new() -> (searcher: Self)
        ensures
            searcher@.length is None,
            searcher@.table.len() == MAX_LOOKUP_TABLE_SIZE,
            forall|d: int| 0 <= d < MAX_LOOKUP_TABLE_SIZE ==> #[trigger] searcher@.table[d] == 0,
    {
        Self { last_arr_size: None, lookup_table: [0;MAX_LOOKUP_TABLE_SIZE] }
    }

    /// The lookup table as it stands.
    pub fn lookup_table(&self) -> (table: &[usize; MAX_LOOKUP_TABLE_SIZE])
        ensures
            table@ == self@.table,
    {
        &self.lookup_table
    }

    /// Performs uniform binary search on `arr` in order to find the index of
    /// `target`.
    ///
    /// The slice must be sorted and at most `MAX_ARRAY_LEN` long. The result
    /// is an index whose element equals `target`, or `None` when no element
    /// does. It depends on the slice and the target alone, not on what the
    /// searcher cached before: the table is computed anew unless it stands
    /// for the slice's length already. An empty slice leaves the searcher as
    /// it is.
    pub fn search<T: Ord>(&mut self, target: &T, arr: &[T]) -> (r: Option<usize>)
        requires
            total_order::<T>(),
            sorted(arr@),
            arr@.len() <= MAX_ARRAY_LEN,
        ensures
            index_of(r) == uniform_search_of(arr@, *target),
            locates(arr@, *target, index_of(r)),
            arr@.len() == 0 ==> r is None,
            arr@.len() == 0 || old(self)@.length == Some(arr.len()) ==> final(self)@ == old(self)@,
            arr@.len() > 0 ==> final(self)@.length == Some(arr.len()),
            arr@.len() > 0 ==> holds_steps(final(self)@.table, arr@.len()),
            forall|d: nat|
                d < MAX_LOOKUP_TABLE_SIZE && !in_use(arr@.len(), d) ==> #[trigger] final(self)@.table[d as int]
                    == old(self)@.table[d as int],
    {
        if arr.is_empty() {
            return None;
        }
        let arr_len = arr.len();

        if let Some(last_arr_size) = self.last_arr_size {
            if last_arr_size != arr_len {
                self.update_lookup_table(arr_len);
            }
        } else {
            self.update_lookup_table(arr_len);
        }
        proof {
            use_type_invariant(&*self);
        }
        self.inner_search(target, arr)
    }

    /// Performs binary search using the current lookup table, which must
    /// stand for the length of `arr`.
    pub fn inner_search<T: Ord>(&self, target: &T, arr: &[T]) -> (r: Option<usize>)
        requires
            total_order::<T>(),
            sorted(arr@),
            arr@.len() > 0,
            self@.length == Some(arr.len()),
        ensures
            index_of(r) == uniform_search_of(arr@, *target),
            locates(arr@, *target, index_of(r)),
    {
        proof {
            use_type_invariant(self);
            lemma2_to64();
            lemma_step_halves(arr@.len(), 0);
            lemma_step_halves(arr@.len(), 1);
            lemma_uniform_search_locates(arr@, *target);
        }
        let ghost len = arr@.len();
        let mut index = self.lookup_table[0] - 1;
        let mut lookup_table_index: usize = 0;

        loop
            invariant
                total_order::<T>(),
                len == arr@.len(),
                0 < len <= MAX_ARRAY_LEN,
                holds_steps(self.lookup_table@, len),
                in_use(len, lookup_table_index as nat),
                lookup_table_index < MAX_LOOKUP_TABLE_SIZE,
                -1 <= index - span(len, lookup_table_index as nat + 1),
                index + span(len, lookup_table_index as nat + 1) < len,
                step_walk(arr@, *target, index as int, lookup_table_index as nat)
                    == uniform_search_of(arr@, *target),
                locates(arr@, *target, uniform_search_of(arr@, *target)),
            decreases MAX_LOOKUP_TABLE_SIZE - lookup_table_index,
        {
            if self.lookup_table[lookup_table_index] == 0 {
                return None;
            }
            proof {
                lemma_depth_bound(len, lookup_table_index as nat);
                lemma_step_halves(len, lookup_table_index as nat + 1);
                assert(in_use(len, lookup_table_index as nat + 1));
            }
            match compare(&arr[index], target) {
                Comparison::Less => {
                    lookup_table_index += 1;
                    index += self.lookup_table[lookup_table_index];
                },
                Comparison::Equal => return Some(index),
                Comparison::Greater => {
                    lookup_table_index += 1;
                    if index < self.lookup_table[lookup_table_index] {
                        assert(step_walk(
                            arr@,
                            *target,
                            index - step(len, lookup_table_index as nat),
                            lookup_table_index as nat,
                        ) is None);
                        return None;
                    }
                    index -= self.lookup_table[lookup_table_index];
                },
            }
        }
    }

    /// Computes the lookup table for arrays of length `len` and caches the
    /// length with it. From depth 0 up to the first depth whose step is zero
    /// each entry becomes the step for `len`; the entries after that stay as
    /// they were.
    pub fn update_lookup_table(&mut self, len: usize)
        requires
            len <= MAX_ARRAY_LEN,
        ensures
            final(self)@.length == Some(len),
            holds_steps(final(self)@.table, len as nat),
            forall|d: nat|
                d < MAX_LOOKUP_TABLE_SIZE && !in_use(len as nat, d) ==> #[trigger] final(self)@.table[d as int]
                    == old(self)@.table[d as int],
    {
        let mut power: usize = 1;
        let mut i: usize = 0;
        self.last_arr_size = None;
        proof {
            lemma2_to64();
        }
        loop
            invariant_except_break
                power == pow2(i as nat),
                forall|d: nat|
                    i <= d < MAX_LOOKUP_TABLE_SIZE ==> #[trigger] self.lookup_table@[d as int]
                        == old(self).lookup_table@[d as int],
            invariant
                len <= MAX_ARRAY_LEN,
                i < MAX_LOOKUP_TABLE_SIZE,
                self.last_arr_size is None,
                in_use(len as nat, i as nat),
                forall|d: nat|
                    d < i ==> #[trigger] self.lookup_table@[d as int] == step(len as nat, d),
            ensures
                step(len as nat, i as nat) == 0,
                self.lookup_table@[i as int] == 0,
                forall|d: nat|
                    i < d < MAX_LOOKUP_TABLE_SIZE ==> #[trigger] self.lookup_table@[d as int]
                        == old(self).lookup_table@[d as int],
            decreases MAX_LOOKUP_TABLE_SIZE - i,
        {
            proof {
                lemma_depth_bound(len as nat, i as nat);
                lemma_pow2_unfold(i as nat + 1);
                lemma_pow2_pos(i as nat);
            }
            let half = power;

            power *= 2;
            self.lookup_table[i] = (len + half) / power;

            if self.lookup_table[i] == 0 {
                break ;
            }
            i += 1;
            proof {
                assert(in_use(len as nat, i as nat));
                lemma_depth_bound(len as nat, i as nat);
            }
        }
        self.last_arr_size = Some(len);
    }
}

impl Default for UniformBinarySearch {
    fn default() -> (searcher: Self)
        ensures
            searcher@.length is None,
            searcher@.table.len() == MAX_LOOKUP_TABLE_SIZE,
            forall|d: int| 0 <= d < MAX_LOOKUP_TABLE_SIZE ==> #[trigger] searcher@.table[d] == 0,
    {
        Self::new()
    }
}

} // verus!
