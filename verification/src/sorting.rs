//! Sorting of plain integers, the one ordering step that the reductions share.

use vstd::prelude::*;
use vstd::relations::{sorted_by, total_ordering};
use vstd::seq_lib::{lemma_sorted_unique, to_multiset_build, to_multiset_insert, to_multiset_len};

verus! {

/// The order `a <= b` on integers, as a relation.
pub open spec fn at_most() -> spec_fn(i32, i32) -> bool {
    |a: i32, b: i32| a <= b
}

/// Whether no element is followed by a smaller one.
pub open spec fn ascending(s: Seq<i32>) -> bool {
    forall|i: int, j: int| 0 <= i < j < s.len() ==> s[i] <= s[j]
}

/// The elements of `s`, each as often as in `s`, in ascending order.
pub open spec fn sorted_values(s: Seq<i32>) -> Seq<i32> {
    s.sort_by(at_most())
}

/// `sorted_values(s)` is ascending and holds what `s` holds.
pub proof fn lemma_sorted_values(s: Seq<i32>)
    ensures
        ascending(sorted_values(s)),
        sorted_values(s).to_multiset() == s.to_multiset(),
        sorted_values(s).len() == s.len(),
{
    assert(total_ordering(at_most()));
    s.lemma_sort_by_ensures(at_most());
    let t = sorted_values(s);
    to_multiset_len(s);
    to_multiset_len(t);
    assert forall|i: int, j: int| 0 <= i < j < t.len() implies t[i] <= t[j] by {
        assert(at_most()(t[i], t[j]));
    }
}

/// An ascending sequence that holds what `s` holds is `sorted_values(s)`: the
/// result of sorting does not depend on how it is done.
pub proof fn lemma_ascending_is_sorted_values(sorted: Seq<i32>, s: Seq<i32>)
    requires
        ascending(sorted),
        sorted.to_multiset() == s.to_multiset(),
    ensures
        sorted == sorted_values(s),
{
    assert(total_ordering(at_most()));
    s.lemma_sort_by_ensures(at_most());
    assert(sorted_by(sorted, at_most()));
    lemma_sorted_unique(sorted, sorted_values(s), at_most());
}

/// Sorts a copy of `values` into ascending order.
pub fn sort_ascending(values: &Vec<i32>) -> (sorted: Vec<i32>)
    ensures
        sorted@ == sorted_values(values@),
        ascending(sorted@),
        sorted@.to_multiset() == values@.to_multiset(),
        sorted@.len() == values@.len(),
{
    let mut sorted: Vec<i32> = Vec::new();
    let mut i: usize = 0;
    assert(values@.take(0) =~= Seq::<i32>::empty());
    while i < values.len()
        invariant
            0 <= i <= values@.len(),
            ascending(sorted@),
            sorted@.to_multiset() == values@.take(i as int).to_multiset(),
        decreases values@.len() - i,
    {
        let x: i32 = values[i];
        // Walk back from the end to the place that keeps the order.
        let mut at: usize = sorted.len();
        while at > 0 && sorted[at - 1] > x
            invariant
                0 <= at <= sorted@.len(),
                forall|k: int| at <= k < sorted@.len() ==> sorted@[k] > x,
            decreases at,
        {
            at = at - 1;
        }
        let ghost before = sorted@;
        sorted.insert(at, x);
        proof {
            assert(sorted@ == before.insert(at as int, x));
            assert(values@.take(i + 1) =~= values@.take(i as int).push(x));
            to_multiset_insert(before, at as int, x);
            to_multiset_build(values@.take(i as int), x);
            assert forall|a: int, b: int| 0 <= a < b < sorted@.len() implies sorted@[a]
                <= sorted@[b] by {
                let pa = if a < at { a } else { a - 1 };
                let pb = if b < at { b } else { b - 1 };
                if a != at && b != at {
                    assert(before[pa] <= before[pb]);
                }
            }
        }
        i = i + 1;
    }
    proof {
        assert(values@.take(values@.len() as int) =~= values@);
        lemma_ascending_is_sorted_values(sorted@, values@);
        to_multiset_len(sorted@);
        to_multiset_len(values@);
    }
    sorted
}

} // verus!
