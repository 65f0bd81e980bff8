//! Frequency tables keyed by an integer outcome, and their ascending view.
//!
//! A histogram maps each observed total to the number of trials that gave it.
//! The tables are unordered while they are filled; the reductions read them in
//! ascending order of the key. `sorted_entries` is that order as a sequence.

use crate::sorting::{ascending, sort_ascending};
use std::collections::BTreeMap;
use std::collections::HashMap;
use vstd::prelude::*;
use vstd::seq_lib::{to_multiset_contains, to_multiset_len};
use vstd::std_specs::iter::IteratorSpec;

verus! {

/// The entries of `table` whose key is below `bound`, in ascending order of key.
pub open spec fn entries_below<V>(table: Map<i32, V>, bound: int) -> Seq<(i32, V)>
    decreases bound - i32::MIN,
{
    if bound <= i32::MIN {
        Seq::empty()
    } else {
        let key = (bound - 1) as i32;
        let lower = entries_below(table, bound - 1);
        if table.contains_key(key) {
            lower.push((key, table[key]))
        } else {
            lower
        }
    }
}

/// All entries of `table`, in ascending order of key.
pub open spec fn sorted_entries<V>(table: Map<i32, V>) -> Seq<(i32, V)> {
    entries_below(table, i32::MAX + 1)
}

/// Whether the keys of `entries` strictly ascend.
pub open spec fn keys_ascend<V>(entries: Seq<(i32, V)>) -> bool {
    forall|i: int, j: int| 0 <= i < j < entries.len() ==> (#[trigger] entries[i]).0 < (
    #[trigger] entries[j]).0
}

/// Whether `entries` lists exactly the entries of `table` with a key in
/// `low..high`, in ascending order of key.
pub open spec fn is_ascending_slice<V>(
    entries: Seq<(i32, V)>,
    table: Map<i32, V>,
    low: int,
    high: int,
) -> bool {
    &&& keys_ascend(entries)
    &&& forall|i: int|
        0 <= i < entries.len() ==> {
            let (key, value) = #[trigger] entries[i];
            low <= key < high && table.contains_key(key) && table[key] == value
        }
    &&& forall|key: i32|
        low <= key < high && #[trigger] table.contains_key(key) ==> exists|i: int|
            0 <= i < entries.len() && (#[trigger] entries[i]).0 == key
}

/// Whether `entries` lists exactly the entries of `table`, in ascending order
/// of key.
pub open spec fn is_ascending_view<V>(entries: Seq<(i32, V)>, table: Map<i32, V>) -> bool {
    is_ascending_slice(entries, table, i32::MIN as int, i32::MAX + 1)
}

/// `entries_below(table, bound)` lists the entries of `table` below `bound` in
/// ascending order.
pub proof fn lemma_entries_below_is_slice<V>(table: Map<i32, V>, bound: int)
    requires
        i32::MIN <= bound <= i32::MAX + 1,
    ensures
        is_ascending_slice(entries_below(table, bound), table, i32::MIN as int, bound),
    decreases bound - i32::MIN,
{
    if bound > i32::MIN {
        lemma_entries_below_is_slice(table, bound - 1);
        let key = (bound - 1) as i32;
        let lower = entries_below(table, bound - 1);
        let all = entries_below(table, bound);
        if table.contains_key(key) {
            assert(all == lower.push((key, table[key])));
            assert forall|k: i32|
                i32::MIN <= k < bound && #[trigger] table.contains_key(k) implies exists|i: int|
                0 <= i < all.len() && (#[trigger] all[i]).0 == k by {
                if k == key {
                    assert(all[all.len() - 1].0 == k);
                } else {
                    let i = choose|i: int| 0 <= i < lower.len() && (#[trigger] lower[i]).0 == k;
                    assert(all[i].0 == k);
                }
            }
        } else {
            assert(all == lower);
        }
    }
}

/// `sorted_entries(table)` lists exactly the entries of `table`, in ascending
/// order of key.
pub proof fn lemma_sorted_entries_is_view<V>(table: Map<i32, V>)
    ensures
        is_ascending_view(sorted_entries(table), table),
{
    lemma_entries_below_is_slice(table, i32::MAX + 1);
}

/// An ascending list of the entries of `table` starts with its entries below
/// `bound`: the result is how many they are.
proof fn lemma_ascending_view_prefix<V>(entries: Seq<(i32, V)>, table: Map<i32, V>, bound: int) -> (n:
    int)
    requires
        is_ascending_view(entries, table),
        i32::MIN <= bound <= i32::MAX + 1,
    ensures
        0 <= n <= entries.len(),
        entries_below(table, bound) == entries.take(n),
        forall|i: int| 0 <= i < n ==> (#[trigger] entries[i]).0 < bound,
        forall|i: int| n <= i < entries.len() ==> (#[trigger] entries[i]).0 >= bound,
    decreases bound - i32::MIN,
{
    if bound <= i32::MIN {
        assert(entries.take(0) =~= Seq::<(i32, V)>::empty());
        0
    } else {
        let m = lemma_ascending_view_prefix(entries, table, bound - 1);
        let key = (bound - 1) as i32;
        if table.contains_key(key) {
            let i = choose|i: int| 0 <= i < entries.len() && (#[trigger] entries[i]).0 == key;
            if i > m {
                assert(entries[m].0 < entries[i].0);
            }
            assert(i == m);
            assert(entries.take(m + 1) =~= entries.take(m).push(entries[m]));
            assert forall|j: int| m + 1 <= j < entries.len() implies (#[trigger] entries[j]).0
                >= bound by {
                assert(entries[m].0 < entries[j].0);
            }
            m + 1
        } else {
            assert forall|j: int| m <= j < entries.len() implies (#[trigger] entries[j]).0
                >= bound by {
                assert(table.contains_key(entries[j].0));
            }
            m
        }
    }
}

/// A table has one ascending list of its entries: `sorted_entries`.
pub proof fn lemma_ascending_view_unique<V>(entries: Seq<(i32, V)>, table: Map<i32, V>)
    requires
        is_ascending_view(entries, table),
    ensures
        entries == sorted_entries(table),
{
    let n = lemma_ascending_view_prefix(entries, table, i32::MAX + 1);
    if n < entries.len() {
        assert(entries[n].0 >= i32::MAX + 1);
    }
    assert(entries.take(entries.len() as int) =~= entries);
}

/// How a sum over a histogram weighs one outcome with its count.
pub type Weight = spec_fn(int, int) -> int;

/// Each trial counts once.
pub open spec fn by_count() -> Weight {
    |outcome: int, count: int| count
}

/// Each trial counts with its outcome.
pub open spec fn by_value() -> Weight {
    |outcome: int, count: int| outcome * count
}

/// Each trial counts with the square of its outcome.
pub open spec fn by_square() -> Weight {
    |outcome: int, count: int| outcome * outcome * count
}

/// Each trial whose outcome is at least `threshold` counts once.
pub open spec fn by_reach(threshold: int) -> Weight {
    |outcome: int, count: int|
        if outcome >= threshold {
            count
        } else {
            0
        }
}

/// The weight of the entry of `histogram` at `outcome`, nothing where it has none.
pub open spec fn weight_at(histogram: Map<i32, usize>, outcome: int, weigh: Weight) -> int {
    if i32::MIN <= outcome <= i32::MAX && histogram.contains_key(outcome as i32) {
        weigh(outcome, histogram[outcome as i32] as int)
    } else {
        0
    }
}

/// The weights of the entries of `histogram` with an outcome below `bound`, summed.
pub open spec fn total_below(histogram: Map<i32, usize>, bound: int, weigh: Weight) -> int
    decreases bound - i32::MIN,
{
    if bound <= i32::MIN {
        0
    } else {
        total_below(histogram, bound - 1, weigh) + weight_at(histogram, bound - 1, weigh)
    }
}

/// The weights of all entries of `histogram`, summed.
pub open spec fn total(histogram: Map<i32, usize>, weigh: Weight) -> int {
    total_below(histogram, i32::MAX + 1, weigh)
}

/// Number of trials that `histogram` records.
pub open spec fn count_sum(histogram: Map<i32, usize>) -> int {
    total(histogram, by_count())
}

/// Sum of the outcomes of all trials that `histogram` records.
pub open spec fn value_sum(histogram: Map<i32, usize>) -> int {
    total(histogram, by_value())
}

/// Sum of the squared outcomes of all trials that `histogram` records.
pub open spec fn square_sum(histogram: Map<i32, usize>) -> int {
    total(histogram, by_square())
}

/// Number of trials of `histogram` whose outcome is at least `threshold`.
pub open spec fn tail_count(histogram: Map<i32, usize>, threshold: int) -> int {
    total(histogram, by_reach(threshold))
}

/// The weights of a list of entries, summed.
pub open spec fn entries_total(entries: Seq<(i32, usize)>, weigh: Weight) -> int
    decreases entries.len(),
{
    if entries.len() == 0 {
        0
    } else {
        entries_total(entries.drop_last(), weigh) + weigh(
            entries.last().0 as int,
            entries.last().1 as int,
        )
    }
}

/// Appending an entry adds its weight.
pub proof fn lemma_entries_total_push(entries: Seq<(i32, usize)>, entry: (i32, usize), weigh: Weight)
    ensures
        entries_total(entries.push(entry), weigh) == entries_total(entries, weigh) + weigh(
            entry.0 as int,
            entry.1 as int,
        ),
{
    assert(entries.push(entry).drop_last() =~= entries);
}

/// One more entry of a list adds its weight to the sum of those before it.
pub proof fn lemma_entries_total_step(entries: Seq<(i32, usize)>, n: int, weigh: Weight)
    requires
        0 <= n < entries.len(),
    ensures
        entries_total(entries.take(n + 1), weigh) == entries_total(entries.take(n), weigh) + weigh(
            entries[n].0 as int,
            entries[n].1 as int,
        ),
{
    assert(entries.take(n + 1) =~= entries.take(n).push(entries[n]));
    lemma_entries_total_push(entries.take(n), entries[n], weigh);
}

/// Summing over the ascending entries below a bound is summing over the table
/// below that bound.
pub proof fn lemma_total_below_of_entries(histogram: Map<i32, usize>, bound: int, weigh: Weight)
    requires
        i32::MIN <= bound <= i32::MAX + 1,
    ensures
        entries_total(entries_below(histogram, bound), weigh) == total_below(histogram, bound, weigh),
    decreases bound - i32::MIN,
{
    if bound > i32::MIN {
        lemma_total_below_of_entries(histogram, bound - 1, weigh);
        let key = (bound - 1) as i32;
        if histogram.contains_key(key) {
            lemma_entries_total_push(
                entries_below(histogram, bound - 1),
                (key, histogram[key]),
                weigh,
            );
        }
    }
}

/// Summing over the ascending entries of a histogram is summing over the histogram.
pub proof fn lemma_total_of_entries(histogram: Map<i32, usize>, weigh: Weight)
    ensures
        entries_total(sorted_entries(histogram), weigh) == total(histogram, weigh),
{
    lemma_total_below_of_entries(histogram, i32::MAX + 1, weigh);
}

/// Setting the count of one outcome changes a sum by the change of that
/// outcome's weight.
pub proof fn lemma_total_below_insert(
    histogram: Map<i32, usize>,
    outcome: i32,
    count: usize,
    bound: int,
    weigh: Weight,
)
    requires
        i32::MIN <= bound <= i32::MAX + 1,
    ensures
        total_below(histogram.insert(outcome, count), bound, weigh) == total_below(
            histogram,
            bound,
            weigh,
        ) + if outcome < bound {
            weigh(outcome as int, count as int) - weight_at(histogram, outcome as int, weigh)
        } else {
            0
        },
    decreases bound - i32::MIN,
{
    if bound > i32::MIN {
        lemma_total_below_insert(histogram, outcome, count, bound - 1, weigh);
    }
}

/// An empty histogram adds up to nothing.
pub proof fn lemma_total_below_empty(bound: int, weigh: Weight)
    requires
        i32::MIN <= bound <= i32::MAX + 1,
    ensures
        total_below(Map::<i32, usize>::empty(), bound, weigh) == 0,
    decreases bound - i32::MIN,
{
    if bound > i32::MIN {
        lemma_total_below_empty(bound - 1, weigh);
    }
}

/// An empty histogram records no trial.
pub proof fn lemma_count_sum_empty()
    ensures
        count_sum(Map::<i32, usize>::empty()) == 0,
{
    lemma_total_below_empty(i32::MAX + 1, by_count());
}

/// A histogram that records a trial has an outcome.
pub proof fn lemma_trials_have_an_outcome(histogram: Map<i32, usize>)
    requires
        count_sum(histogram) != 0,
    ensures
        exists|outcome: i32| histogram.contains_key(outcome),
{
    if forall|outcome: i32| !histogram.contains_key(outcome) {
        assert(histogram =~= Map::<i32, usize>::empty());
        lemma_count_sum_empty();
    }
}

/// The count of one outcome is at most the number of trials below any bound above it.
proof fn lemma_count_within_sum_below(histogram: Map<i32, usize>, outcome: i32, bound: int)
    requires
        i32::MIN <= bound <= i32::MAX + 1,
    ensures
        0 <= total_below(histogram, bound, by_count()),
        outcome < bound ==> weight_at(histogram, outcome as int, by_count()) <= total_below(
            histogram,
            bound,
            by_count(),
        ),
    decreases bound - i32::MIN,
{
    if bound > i32::MIN {
        lemma_count_within_sum_below(histogram, outcome, bound - 1);
    }
}

/// No outcome was seen more often than there were trials.
pub proof fn lemma_count_within_sum(histogram: Map<i32, usize>, outcome: i32)
    ensures
        0 <= count_sum(histogram),
        histogram.contains_key(outcome) ==> histogram[outcome] <= count_sum(histogram),
{
    lemma_count_within_sum_below(histogram, outcome, i32::MAX + 1);
}

/// The keys of a table, sorted: they strictly ascend and are the table's keys.
proof fn lemma_sorted_keys(keys: Seq<i32>, sorted: Seq<i32>, domain: Set<i32>)
    requires
        keys.no_duplicates(),
        forall|i: int| 0 <= i < keys.len() ==> domain.contains(#[trigger] keys[i]),
        forall|key: i32| #[trigger]
            domain.contains(key) ==> exists|i: int| 0 <= i < keys.len() && #[trigger] keys[i] == key,
        ascending(sorted),
        sorted.to_multiset() == keys.to_multiset(),
    ensures
        sorted.len() == keys.len(),
        forall|i: int, j: int| 0 <= i < j < sorted.len() ==> sorted[i] < sorted[j],
        forall|i: int| 0 <= i < sorted.len() ==> domain.contains(#[trigger] sorted[i]),
        forall|key: i32| #[trigger]
            domain.contains(key) ==> exists|i: int|
                0 <= i < sorted.len() && #[trigger] sorted[i] == key,
{
    to_multiset_len(keys);
    to_multiset_len(sorted);
    keys.lemma_multiset_has_no_duplicates();
    sorted.lemma_multiset_has_no_duplicates_conv();
    assert forall|i: int| 0 <= i < sorted.len() implies domain.contains(#[trigger] sorted[i]) by {
        to_multiset_contains(sorted, sorted[i]);
        to_multiset_contains(keys, sorted[i]);
        assert(sorted.contains(sorted[i]));
        let j = choose|j: int| 0 <= j < keys.len() && keys[j] == sorted[i];
        assert(domain.contains(keys[j]));
    }
    assert forall|key: i32| #[trigger] domain.contains(key) implies exists|i: int|
        0 <= i < sorted.len() && #[trigger] sorted[i] == key by {
        let j = choose|j: int| 0 <= j < keys.len() && #[trigger] keys[j] == key;
        to_multiset_contains(sorted, key);
        to_multiset_contains(keys, key);
        assert(keys.contains(keys[j]));
        let i = choose|i: int| 0 <= i < sorted.len() && sorted[i] == key;
        assert(sorted[i] == key);
    }
}

/// The outcomes of a histogram, in no particular order, each once.
fn histogram_keys(histogram: &HashMap<i32, usize>) -> (keys: Vec<i32>)
    ensures
        keys@.no_duplicates(),
        forall|i: int| 0 <= i < keys@.len() ==> histogram@.dom().contains(#[trigger] keys@[i]),
        forall|key: i32| #[trigger]
            histogram@.dom().contains(key) ==> exists|i: int|
                0 <= i < keys@.len() && #[trigger] keys@[i] == key,
{
    let mut keys: Vec<i32> = Vec::new();
    for pair in it: histogram.iter()
        invariant
            keys@.len() == it.index(),
            forall|i: int| 0 <= i < keys@.len() ==> keys@[i] == *it.seq()[i].0,
            it.seq() == histogram.iter().remaining(),
            it.seq().no_duplicates(),
    {
        let (key, _count) = pair;
        keys.push(*key);
    }
    proof {
        let s = histogram.iter().remaining();
        assert(keys@.len() == s.len());
        assert forall|i: int, j: int|
            0 <= i < keys@.len() && 0 <= j < keys@.len() && i != j implies keys@[i]
            != keys@[j] by {
            assert(histogram@.contains_key(*s[i].0) && histogram@[*s[i].0] == *s[i].1);
            assert(histogram@.contains_key(*s[j].0) && histogram@[*s[j].0] == *s[j].1);
            if keys@[i] == keys@[j] {
                assert(s[i] == s[j]);
            }
        }
        assert forall|i: int| 0 <= i < keys@.len() implies histogram@.dom().contains(
            #[trigger] keys@[i],
        ) by {
            assert(histogram@.contains_key(*s[i].0));
        }
        assert forall|key: i32| #[trigger] histogram@.dom().contains(key) implies exists|i: int|
            0 <= i < keys@.len() && #[trigger] keys@[i] == key by {
            assert(histogram@.contains_key(key));
            assert(s.contains((&key, &histogram@[key])));
            let i = choose|i: int| 0 <= i < s.len() && s[i] == (&key, &histogram@[key]);
            assert(keys@[i] == key);
        }
    }
    keys
}

/// The keys of a table, in no particular order, each once.
fn table_keys(table: &BTreeMap<i32, u128>) -> (keys: Vec<i32>)
    ensures
        keys@.no_duplicates(),
        forall|i: int| 0 <= i < keys@.len() ==> table@.dom().contains(#[trigger] keys@[i]),
        forall|key: i32| #[trigger]
            table@.dom().contains(key) ==> exists|i: int|
                0 <= i < keys@.len() && #[trigger] keys@[i] == key,
{
    let mut keys: Vec<i32> = Vec::new();
    for pair in it: table.iter()
        invariant
            keys@.len() == it.index(),
            forall|i: int| 0 <= i < keys@.len() ==> keys@[i] == *it.seq()[i].0,
            it.seq() == table.iter().remaining(),
            it.seq().no_duplicates(),
    {
        let (key, _count) = pair;
        keys.push(*key);
    }
    proof {
        let s = table.iter().remaining();
        assert(keys@.len() == s.len());
        assert forall|i: int, j: int|
            0 <= i < keys@.len() && 0 <= j < keys@.len() && i != j implies keys@[i]
            != keys@[j] by {
            assert(table@.contains_key(*s[i].0) && table@[*s[i].0] == *s[i].1);
            assert(table@.contains_key(*s[j].0) && table@[*s[j].0] == *s[j].1);
            if keys@[i] == keys@[j] {
                assert(s[i] == s[j]);
            }
        }
        assert forall|i: int| 0 <= i < keys@.len() implies table@.dom().contains(
            #[trigger] keys@[i],
        ) by {
            assert(table@.contains_key(*s[i].0));
        }
        assert forall|key: i32| #[trigger] table@.dom().contains(key) implies exists|i: int|
            0 <= i < keys@.len() && #[trigger] keys@[i] == key by {
            assert(table@.contains_key(key));
            assert(s.contains((&key, &table@[key])));
            let i = choose|i: int| 0 <= i < s.len() && s[i] == (&key, &table@[key]);
            assert(keys@[i] == key);
        }
    }
    keys
}

/// The entries of a table in ascending order of key.
pub fn sorted_table(table: &BTreeMap<i32, u128>) -> (entries: Vec<(i32, u128)>)
    ensures
        entries@ == sorted_entries(table@),
{
    let keys = table_keys(table);
    let sorted = sort_ascending(&keys);
    proof {
        lemma_sorted_keys(keys@, sorted@, table@.dom());
    }
    let mut entries: Vec<(i32, u128)> = Vec::new();
    let mut i: usize = 0;
    while i < sorted.len()
        invariant
            0 <= i <= sorted@.len(),
            entries@.len() == i,
            forall|j: int| 0 <= j < sorted@.len() ==> table@.dom().contains(#[trigger] sorted@[j]),
            forall|j: int|
                0 <= j < i ==> (#[trigger] entries@[j]).0 == sorted@[j] && entries@[j].1
                    == table@[sorted@[j]],
        decreases sorted@.len() - i,
    {
        let key: i32 = sorted[i];
        assert(table@.dom().contains(sorted@[i as int]));
        let count: u128 = match table.get(&key) {
            Some(count) => *count,
            None => 0,
        };
        entries.push((key, count));
        i = i + 1;
    }
    proof {
        assert forall|key: i32|
            i32::MIN <= key < i32::MAX + 1 && #[trigger] table@.contains_key(
                key,
            ) implies exists|j: int| 0 <= j < entries@.len() && (#[trigger] entries@[j]).0 == key by {
            assert(table@.dom().contains(key));
            let j = choose|j: int| 0 <= j < sorted@.len() && #[trigger] sorted@[j] == key;
            assert(entries@[j].0 == key);
        }
        assert(is_ascending_view(entries@, table@));
        lemma_ascending_view_unique(entries@, table@);
    }
    entries
}

/// The entries of a histogram in ascending order of outcome.
pub fn sorted_histogram(histogram: &HashMap<i32, usize>) -> (entries: Vec<(i32, usize)>)
    ensures
        entries@ == sorted_entries(histogram@),
{
    let keys = histogram_keys(histogram);
    let sorted = sort_ascending(&keys);
    proof {
        lemma_sorted_keys(keys@, sorted@, histogram@.dom());
    }
    let mut entries: Vec<(i32, usize)> = Vec::new();
    let mut i: usize = 0;
    while i < sorted.len()
        invariant
            0 <= i <= sorted@.len(),
            entries@.len() == i,
            forall|j: int| 0 <= j < sorted@.len() ==> histogram@.dom().contains(#[trigger] sorted@[j]),
            forall|j: int|
                0 <= j < i ==> (#[trigger] entries@[j]).0 == sorted@[j] && entries@[j].1
                    == histogram@[sorted@[j]],
        decreases sorted@.len() - i,
    {
        let key: i32 = sorted[i];
        assert(histogram@.dom().contains(sorted@[i as int]));
        let count: usize = match histogram.get(&key) {
            Some(count) => *count,
            None => 0,
        };
        entries.push((key, count));
        i = i + 1;
    }
    proof {
        assert forall|key: i32|
            i32::MIN <= key < i32::MAX + 1 && #[trigger] histogram@.contains_key(
                key,
            ) implies exists|j: int| 0 <= j < entries@.len() && (#[trigger] entries@[j]).0 == key by {
            assert(histogram@.dom().contains(key));
            let j = choose|j: int| 0 <= j < sorted@.len() && #[trigger] sorted@[j] == key;
            assert(entries@[j].0 == key);
        }
        assert(is_ascending_view(entries@, histogram@));
        lemma_ascending_view_unique(entries@, histogram@);
    }
    entries
}

/// How often `outcome` occurs in `histogram`.
pub open spec fn count_of(histogram: Map<i32, usize>, outcome: i32) -> int {
    if histogram.contains_key(outcome) {
        histogram[outcome] as int
    } else {
        0
    }
}

/// Counts one more trial with the given outcome.
pub fn record_outcome(histogram: &mut HashMap<i32, usize>, outcome: i32)
    requires
        count_sum(old(histogram)@) < usize::MAX,
    ensures
        final(histogram)@ == old(histogram)@.insert(outcome, final(histogram)@[outcome]),
        final(histogram)@[outcome] == count_of(old(histogram)@, outcome) + 1,
        count_sum(final(histogram)@) == count_sum(old(histogram)@) + 1,
{
    proof {
        lemma_count_within_sum(histogram@, outcome);
    }
    let seen: usize = match histogram.get(&outcome) {
        Some(count) => *count,
        None => 0,
    };
    proof {
        lemma_total_below_insert(histogram@, outcome, (seen + 1) as usize, i32::MAX + 1, by_count());
    }
    histogram.insert(outcome, seen + 1);
}

} // verus!
