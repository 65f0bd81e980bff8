//! Reduction of a histogram to summary statistics and to a survival table.
//!
//! Nothing here is rounded. A mean is kept as the sum of all outcomes over the
//! number of trials, a probability as a number of trials over the number of
//! trials, and the two tolerances as exact fractions.

use crate::histogram::{
    by_count, by_reach, by_square, by_value, count_sum, entries_total, keys_ascend,
    lemma_entries_total_step, lemma_sorted_entries_is_view, lemma_total_of_entries,
    sorted_entries, sorted_histogram, sorted_table, square_sum, tail_count, total_below,
    value_sum,
};
use std::collections::BTreeMap;
use std::collections::HashMap;
use vstd::prelude::*;

verus! {

/// The probability cutoff is one in this many: a survival probability is kept
/// only where it is above `1 / PROBABILITY_CUTOFF_INVERSE`.
pub const PROBABILITY_CUTOFF_INVERSE: u128 = 1_000_000;

/// The tolerance of the validators is one in this many.
pub const TOLERANCE_INVERSE: u128 = 1_000_000_000;

/// Why a histogram or a survival table was refused.
#[derive(Debug, Clone, Copy, PartialEq, Eq, Structural)]
pub enum DistributionError {
    /// The counts add up to `sum`, not to the `expected` number of trials.
    CountSumMismatch {
        /// What the counts add up to.
        sum: u128,
        /// The number of trials that was declared.
        expected: usize,
    },
    /// The probabilities do not add up to one: there are no trials to divide by.
    ProbabilitySumNotOne,
    /// The entry at `threshold` holds more trials than the entry before it, by
    /// more than the tolerance.
    NonMonotonic {
        /// The threshold of the entry that rises.
        threshold: i32,
        /// The trials of that entry.
        count: u128,
        /// The trials of the entry before it, or all trials for the first entry.
        previous: u128,
    },
    /// The entry at `threshold` holds more trials than there are, by more than
    /// the tolerance.
    InvalidProbability {
        /// The threshold of the entry.
        threshold: i32,
        /// The trials of that entry.
        count: u128,
    },
}

/// Summary of a distribution, over `total_count` trials.
///
/// The mean is `value_sum / total_count`. Where the histogram holds
/// `total_count` trials, the variance is `square_sum / total_count` less the
/// square of the mean, and the standard deviation its root.
#[derive(Debug, Clone, Copy, PartialEq, Eq, Structural)]
pub struct Statistics {
    /// Number of trials that the sums are divided by.
    pub total_count: usize,
    /// Sum of the outcomes of all trials.
    pub value_sum: i128,
    /// Sum of the squared outcomes of all trials.
    pub square_sum: u128,
    /// Nearest-rank 50th percentile.
    pub median: i32,
    /// Nearest-rank 25th percentile.
    pub percentile_25: i32,
    /// Nearest-rank 75th percentile.
    pub percentile_75: i32,
    /// Smallest outcome that was seen.
    pub min: i32,
    /// Largest outcome that was seen.
    pub max: i32,
}

impl Statistics {
    /// The variance times the square of `total_count`: `total_count` times the
    /// sum of squares, less the square of the sum.
    pub open spec fn spec_variance_numerator(&self) -> int {
        self.total_count * self.square_sum - self.value_sum * self.value_sum
    }

    /// Whether the variance numerator can be computed in 128 bits: the sum of
    /// squares, both products and their difference fit.
    pub open spec fn variance_fits(&self) -> bool {
        &&& self.square_sum <= i128::MAX
        &&& self.total_count * self.square_sum <= i128::MAX
        &&& self.value_sum * self.value_sum <= i128::MAX
        &&& i128::MIN <= self.spec_variance_numerator()
    }

    /// The variance times the square of `total_count`, where it can be
    /// computed in 128 bits. The variance is this number over the square of
    /// `total_count`; the standard deviation is its root.
    pub fn variance_numerator(&self) -> (numerator: Option<i128>)
        ensures
            numerator == if self.variance_fits() {
                Some(self.spec_variance_numerator() as i128)
            } else {
                None::<i128>
            },
    {
        if self.square_sum > i128::MAX as u128 {
            return None;
        }
        assert(self.total_count * self.square_sum >= 0) by (nonlinear_arith);
        assert(self.value_sum * self.value_sum >= 0) by (nonlinear_arith);
        let scaled = match (self.total_count as i128).checked_mul(self.square_sum as i128) {
            Some(scaled) => scaled,
            None => {
                return None;
            },
        };
        let squared = match self.value_sum.checked_mul(self.value_sum) {
            Some(squared) => squared,
            None => {
                return None;
            },
        };
        scaled.checked_sub(squared)
    }
}

/// The rank that a percentile asks for: `percent` hundredths of the trials,
/// rounded down.
pub open spec fn percentile_target(total_count: int, percent: int) -> int {
    total_count * percent / 100
}

/// Number of trials in the first `n` of `entries`.
pub open spec fn running_count(entries: Seq<(i32, usize)>, n: int) -> int {
    entries_total(entries.take(n), by_count())
}

/// From position `from` on, the first position at which the running count
/// reaches `target`; the last position where none does.
pub open spec fn nearest_rank_from(entries: Seq<(i32, usize)>, target: int, from: int) -> int
    decreases entries.len() - from,
{
    if from >= entries.len() {
        entries.len() - 1
    } else if running_count(entries, from + 1) >= target {
        from
    } else {
        nearest_rank_from(entries, target, from + 1)
    }
}

/// The first position at which the running count reaches `target`; the last
/// position where none does.
pub open spec fn nearest_rank(entries: Seq<(i32, usize)>, target: int) -> int {
    nearest_rank_from(entries, target, 0)
}

/// The nearest-rank percentile of entries in ascending order: the outcome at
/// which the running count first reaches `percent` hundredths of `total_count`.
pub open spec fn percentile_value(entries: Seq<(i32, usize)>, total_count: int, percent: int) -> i32 {
    entries[nearest_rank(entries, percentile_target(total_count, percent))].0
}

/// From position `from` on, the first position with a count above zero.
pub open spec fn first_seen_from(entries: Seq<(i32, usize)>, from: int) -> int
    decreases entries.len() - from,
{
    if from >= entries.len() {
        entries.len() as int
    } else if entries[from].1 > 0 {
        from
    } else {
        first_seen_from(entries, from + 1)
    }
}

/// Before position `until`, the last position with a count above zero; -1 where
/// there is none.
pub open spec fn last_seen_until(entries: Seq<(i32, usize)>, until: int) -> int
    decreases until,
{
    if until <= 0 {
        -1
    } else if entries[until - 1].1 > 0 {
        until - 1
    } else {
        last_seen_until(entries, until - 1)
    }
}

/// The smallest outcome with a count above zero, of entries in ascending order.
/// Where every count is zero, the smallest outcome.
pub open spec fn least_seen(entries: Seq<(i32, usize)>) -> i32 {
    let at = first_seen_from(entries, 0);
    if at < entries.len() {
        entries[at].0
    } else {
        entries.first().0
    }
}

/// The largest outcome with a count above zero, of entries in ascending order.
/// Where every count is zero, the largest outcome.
pub open spec fn greatest_seen(entries: Seq<(i32, usize)>) -> i32 {
    let at = last_seen_until(entries, entries.len() as int);
    if at >= 0 {
        entries[at].0
    } else {
        entries.last().0
    }
}

/// The statistics of a histogram over `total_count` trials.
pub open spec fn statistics_of(histogram: Map<i32, usize>, total_count: usize) -> Statistics {
    let entries = sorted_entries(histogram);
    Statistics {
        total_count,
        value_sum: value_sum(histogram) as i128,
        square_sum: square_sum(histogram) as u128,
        median: percentile_value(entries, total_count as int, 50),
        percentile_25: percentile_value(entries, total_count as int, 25),
        percentile_75: percentile_value(entries, total_count as int, 75),
        min: least_seen(entries),
        max: greatest_seen(entries),
    }
}

/// The running count is never negative.
proof fn lemma_running_count_from_zero(entries: Seq<(i32, usize)>, n: int)
    requires
        0 <= n <= entries.len(),
    ensures
        0 <= running_count(entries, n),
    decreases n,
{
    if n == 0 {
        assert(entries.take(0) =~= Seq::<(i32, usize)>::empty());
    } else {
        lemma_running_count_from_zero(entries, n - 1);
        lemma_entries_total_step(entries, n - 1, by_count());
    }
}

/// The running count grows with the number of entries, from zero to the count
/// of all entries.
pub proof fn lemma_running_count_grows(entries: Seq<(i32, usize)>, low: int, high: int)
    requires
        0 <= low <= high <= entries.len(),
    ensures
        0 <= running_count(entries, low) <= running_count(entries, high),
        running_count(entries, entries.len() as int) == entries_total(entries, by_count()),
    decreases high - low,
{
    assert(entries.take(entries.len() as int) =~= entries);
    lemma_running_count_from_zero(entries, low);
    if high > low {
        lemma_running_count_grows(entries, low, high - 1);
        lemma_entries_total_step(entries, high - 1, by_count());
    }
}

/// The nearest-rank percentile of entries in ascending order of outcome.
///
/// `percent` hundredths of `total_count`, rounded down, is the rank asked for.
/// The result is the first outcome at which the running count of trials reaches
/// that rank, and the last outcome where the counts never reach it.
pub fn calculate_percentile(
    values_with_counts: &[(i32, usize)],
    total_count: usize,
    percent: u8,
) -> (value: i32)
    requires
        values_with_counts@.len() > 0,
        percent <= 100,
    ensures
        value == percentile_value(values_with_counts@, total_count as int, percent as int),
{
    let ghost entries = values_with_counts@;
    let wide_total: u128 = total_count as u128;
    let wide_percent: u128 = percent as u128;
    assert(wide_total * wide_percent <= 0xFFFF_FFFF_FFFF_FFFF * 100) by (nonlinear_arith)
        requires
            0 <= wide_total <= 0xFFFF_FFFF_FFFF_FFFF,
            0 <= wide_percent <= 100,
    ;
    let target: u128 = wide_total * wide_percent / 100;
    let mut cumulative: u128 = 0;
    let mut i: usize = 0;
    assert(entries.take(0) =~= Seq::<(i32, usize)>::empty());
    while i < values_with_counts.len()
        invariant
            entries == values_with_counts@,
            target == percentile_target(total_count as int, percent as int),
            0 <= i <= entries.len(),
            entries.len() > 0,
            cumulative == running_count(entries, i as int),
            cumulative <= i * 0xFFFF_FFFF_FFFF_FFFF,
            nearest_rank_from(entries, target as int, i as int) == nearest_rank(
                entries,
                target as int,
            ),
        decreases entries.len() - i,
    {
        let (value, count) = values_with_counts[i];
        proof {
            lemma_entries_total_step(entries, i as int, by_count());
        }
        cumulative = cumulative + count as u128;
        if cumulative >= target {
            return value;
        }
        i = i + 1;
    }
    values_with_counts[values_with_counts.len() - 1].0
}

/// The smallest outcome of `entries` with a count above zero; where every count
/// is zero, the first outcome.
fn least_seen_outcome(entries: &[(i32, usize)]) -> (value: i32)
    requires
        entries@.len() > 0,
    ensures
        value == least_seen(entries@),
{
    let mut i: usize = 0;
    while i < entries.len()
        invariant
            0 <= i <= entries@.len(),
            first_seen_from(entries@, i as int) == first_seen_from(entries@, 0),
        decreases entries@.len() - i,
    {
        if entries[i].1 > 0 {
            return entries[i].0;
        }
        i = i + 1;
    }
    entries[0].0
}

/// The largest outcome of `entries` with a count above zero; where every count
/// is zero, the last outcome.
fn greatest_seen_outcome(entries: &[(i32, usize)]) -> (value: i32)
    requires
        entries@.len() > 0,
    ensures
        value == greatest_seen(entries@),
{
    let mut i: usize = entries.len();
    while i > 0
        invariant
            0 <= i <= entries@.len(),
            last_seen_until(entries@, i as int) == last_seen_until(entries@, entries@.len() as int),
        decreases i,
    {
        if entries[i - 1].1 > 0 {
            return entries[i - 1].0;
        }
        i = i - 1;
    }
    entries[entries.len() - 1].0
}

/// Bounds on what one entry adds to the two sums.
proof fn lemma_entry_weights(outcome: int, count: int)
    requires
        i32::MIN <= outcome <= i32::MAX,
        0 <= count,
    ensures
        -0x8000_0000 * count <= outcome * count <= 0x8000_0000 * count,
        0 <= outcome * outcome <= 0x4000_0000_0000_0000,
        0 <= outcome * outcome * count <= 0x4000_0000_0000_0000 * count,
{
    assert(-0x8000_0000 * count <= outcome * count <= 0x8000_0000 * count) by (nonlinear_arith)
        requires
            -0x8000_0000 <= outcome <= 0x8000_0000,
            0 <= count,
    ;
    assert(0 <= outcome * outcome <= 0x4000_0000_0000_0000) by (nonlinear_arith)
        requires
            -0x8000_0000 <= outcome <= 0x8000_0000,
    ;
    let square = outcome * outcome;
    assert(0 <= square * count <= 0x4000_0000_0000_0000 * count) by (nonlinear_arith)
        requires
            0 <= square <= 0x4000_0000_0000_0000,
            0 <= count,
    ;
}

/// Reduces a histogram to its statistics over `total_count` trials.
///
/// The sums are exact. The percentiles are nearest-rank percentiles of the
/// outcomes in ascending order, with ranks taken of `total_count`. The
/// smallest and the largest outcome are taken among those with a count above
/// zero.
pub fn calculate_statistics(histogram: &HashMap<i32, usize>, total_count: usize) -> (stats:
    Statistics)
    requires
        exists|outcome: i32| histogram@.contains_key(outcome),
        count_sum(histogram@) <= usize::MAX,
    ensures
        stats == statistics_of(histogram@, total_count),
        stats.value_sum == value_sum(histogram@),
        stats.square_sum == square_sum(histogram@),
{
    let entries = sorted_histogram(histogram);
    proof {
        lemma_sorted_entries_is_view(histogram@);
        lemma_total_of_entries(histogram@, by_count());
        lemma_total_of_entries(histogram@, by_value());
        lemma_total_of_entries(histogram@, by_square());
        lemma_running_count_grows(entries@, 0, 0);
    }
    let mut sum: i128 = 0;
    let mut squares: u128 = 0;
    let mut i: usize = 0;
    while i < entries.len()
        invariant
            0 <= i <= entries@.len(),
            entries_total(entries@, by_count()) <= usize::MAX,
            sum == entries_total(entries@.take(i as int), by_value()),
            squares == entries_total(entries@.take(i as int), by_square()),
            0 <= running_count(entries@, i as int),
            -0x8000_0000 * running_count(entries@, i as int) <= sum <= 0x8000_0000 * running_count(
                entries@,
                i as int,
            ),
            squares <= 0x4000_0000_0000_0000 * running_count(entries@, i as int),
        decreases entries@.len() - i,
    {
        let (outcome, count) = entries[i];
        proof {
            lemma_entries_total_step(entries@, i as int, by_count());
            lemma_entries_total_step(entries@, i as int, by_value());
            lemma_entries_total_step(entries@, i as int, by_square());
            lemma_running_count_grows(entries@, i + 1, entries@.len() as int);
            lemma_entry_weights(outcome as int, count as int);
        }
        let wide: i128 = outcome as i128;
        let square: u128 = (wide * wide) as u128;
        sum = sum + wide * (count as i128);
        squares = squares + square * (count as u128);
        i = i + 1;
    }
    proof {
        assert(entries@.take(entries@.len() as int) =~= entries@);
    }
    let median = calculate_percentile(entries.as_slice(), total_count, 50);
    let percentile_25 = calculate_percentile(entries.as_slice(), total_count, 25);
    let percentile_75 = calculate_percentile(entries.as_slice(), total_count, 75);
    let min = least_seen_outcome(entries.as_slice());
    let max = greatest_seen_outcome(entries.as_slice());
    Statistics {
        total_count,
        value_sum: sum,
        square_sum: squares,
        median,
        percentile_25,
        percentile_75,
        min,
        max,
    }
}

/// Whether `count` trials out of `total_count` are a probability above the cutoff.
///
/// A probability equal to the cutoff is not above it: such an entry is dropped.
pub open spec fn above_cutoff(count: int, total_count: int) -> bool {
    count * PROBABILITY_CUTOFF_INVERSE > total_count
}

/// The survival table of a histogram over `total_count` trials, as numbers of
/// trials: the probability at a threshold is its entry over `total_count`.
///
/// The threshold 0 always stands for probability one. Any other threshold has
/// an entry where it is an outcome of the histogram and the number of trials
/// with that outcome or a higher one is above the cutoff; the entry is that
/// number.
pub open spec fn cumulative_counts(histogram: Map<i32, usize>, total_count: usize) -> Map<
    i32,
    u128,
> {
    Map::new(
        |threshold: i32|
            threshold == 0 || (histogram.contains_key(threshold) && above_cutoff(
                tail_count(histogram, threshold as int),
                total_count as int,
            )),
        |threshold: i32|
            if threshold == 0 {
                total_count as u128
            } else {
                tail_count(histogram, threshold as int) as u128
            },
    )
}

/// Among ascending entries, the trials at or above the outcome of entry `n` are
/// those of the entries from `n` on.
proof fn lemma_reach_of_entries(entries: Seq<(i32, usize)>, n: int, upto: int)
    requires
        keys_ascend(entries),
        0 <= n < entries.len(),
        0 <= upto <= entries.len(),
    ensures
        entries_total(entries.take(upto), by_reach(entries[n].0 as int)) == if upto <= n {
            0
        } else {
            running_count(entries, upto) - running_count(entries, n)
        },
    decreases upto,
{
    let reach = by_reach(entries[n].0 as int);
    if upto == 0 {
        assert(entries.take(0) =~= Seq::<(i32, usize)>::empty());
    } else {
        lemma_reach_of_entries(entries, n, upto - 1);
        lemma_entries_total_step(entries, upto - 1, reach);
        lemma_entries_total_step(entries, upto - 1, by_count());
        if upto - 1 < n {
            assert(entries[upto - 1].0 < entries[n].0);
        } else if upto - 1 > n {
            assert(entries[n].0 < entries[upto - 1].0);
        }
    }
}

/// Whether `threshold` is the outcome of one of `entries` from position `from` on.
spec fn listed_from(entries: Seq<(i32, usize)>, from: int, threshold: i32) -> bool {
    exists|j: int| from <= j < entries.len() && (#[trigger] entries[j]).0 == threshold
}

/// Builds the survival table `P(total >= threshold)` of a histogram over
/// `total_count` trials.
///
/// An entry holds a number of trials; the probability is that number over
/// `total_count`. Threshold 0 is always present with probability one. Entries
/// whose probability is not above one in a million are left out: absence means
/// negligible, not zero.
pub fn calculate_cumulative_probabilities(
    histogram: &HashMap<i32, usize>,
    total_count: usize,
) -> (cumulative: BTreeMap<i32, u128>)
    ensures
        cumulative@ == cumulative_counts(histogram@, total_count),
{
    let entries = sorted_histogram(histogram);
    let floor: u128 = total_count as u128 / PROBABILITY_CUTOFF_INVERSE;
    let mut cumulative: BTreeMap<i32, u128> = BTreeMap::new();
    let mut running: u128 = 0;
    let mut i: usize = entries.len();
    proof {
        lemma_sorted_entries_is_view(histogram@);
    }
    while i > 0
        invariant
            0 <= i <= entries@.len() <= usize::MAX,
            entries@ == sorted_entries(histogram@),
            keys_ascend(entries@),
            floor == total_count as u128 / PROBABILITY_CUTOFF_INVERSE,
            running == running_count(entries@, entries@.len() as int) - running_count(
                entries@,
                i as int,
            ),
            running <= (entries@.len() - i) * 0xFFFF_FFFF_FFFF_FFFF,
            forall|threshold: i32|
                cumulative@.contains_key(threshold) <==> threshold != 0 && above_cutoff(
                    tail_count(histogram@, threshold as int),
                    total_count as int,
                ) && listed_from(entries@, i as int, threshold),
            forall|threshold: i32| #[trigger]
                cumulative@.contains_key(threshold) ==> cumulative@[threshold] == tail_count(
                    histogram@,
                    threshold as int,
                ),
        decreases i,
    {
        i = i - 1;
        let (threshold, count) = entries[i];
        proof {
            lemma_entries_total_step(entries@, i as int, by_count());
            lemma_reach_of_entries(entries@, i as int, entries@.len() as int);
            lemma_total_of_entries(histogram@, by_reach(threshold as int));
            assert(entries@.take(entries@.len() as int) =~= entries@);
        }
        running = running + count as u128;
        assert(running == tail_count(histogram@, threshold as int));
        let ghost before = cumulative@;
        if threshold != 0 && running > floor {
            cumulative.insert(threshold, running);
        }
        proof {
            assert forall|t: i32|
                cumulative@.contains_key(t) <==> t != 0 && above_cutoff(
                    tail_count(histogram@, t as int),
                    total_count as int,
                ) && listed_from(entries@, i as int, t) by {
                if t == threshold {
                    assert(entries@[i as int].0 == t);
                } else {
                    if listed_from(entries@, i as int, t) {
                        let j = choose|j: int|
                            i <= j < entries@.len() && (#[trigger] entries@[j]).0 == t;
                        assert(i + 1 <= j);
                        assert(listed_from(entries@, i + 1, t));
                    }
                    if listed_from(entries@, i + 1, t) {
                        let j = choose|j: int|
                            i + 1 <= j < entries@.len() && (#[trigger] entries@[j]).0 == t;
                        assert(i <= j);
                    }
                }
            }
        }
    }
    cumulative.insert(0, total_count as u128);
    proof {
        let wanted = cumulative_counts(histogram@, total_count);
        assert forall|t: i32| cumulative@.contains_key(t) <==> wanted.contains_key(t) by {
            if t != 0 && histogram@.contains_key(t) {
                let j = choose|j: int| 0 <= j < entries@.len() && (#[trigger] entries@[j]).0 == t;
                assert(listed_from(entries@, 0, t));
            }
            if t != 0 && listed_from(entries@, 0, t) {
                let j = choose|j: int| 0 <= j < entries@.len() && (#[trigger] entries@[j]).0 == t;
                assert(histogram@.contains_key(entries@[j].0));
            }
        }
        assert(cumulative@ =~= wanted);
    }
    cumulative
}

/// Whether `count` is above `bound` by more than the tolerance, both taken as
/// probabilities over `total_count` trials.
pub open spec fn beyond_tolerance(count: int, bound: int, total_count: int) -> bool {
    (count - bound) * TOLERANCE_INVERSE > total_count
}

/// Whether the probabilities of a histogram over `total_count` trials add up
/// to one within the tolerance. Without trials there are no probabilities.
pub open spec fn probabilities_sum_to_one(histogram: Map<i32, usize>, total_count: usize) -> bool {
    &&& total_count > 0
    &&& !beyond_tolerance(count_sum(histogram), total_count as int, total_count as int)
    &&& !beyond_tolerance(total_count as int, count_sum(histogram), total_count as int)
}

/// Whether a histogram is a distribution over `total_count` trials: its counts
/// add up to `total_count`, and its probabilities to one.
pub open spec fn is_distribution(histogram: Map<i32, usize>, total_count: usize) -> bool {
    count_sum(histogram) == total_count && probabilities_sum_to_one(histogram, total_count)
}

/// What the check of a histogram gives. The counts are compared first.
pub open spec fn distribution_verdict(histogram: Map<i32, usize>, total_count: usize) -> Result<
    (),
    DistributionError,
> {
    if count_sum(histogram) != total_count {
        Err(
            DistributionError::CountSumMismatch {
                sum: count_sum(histogram) as u128,
                expected: total_count,
            },
        )
    } else if !probabilities_sum_to_one(histogram, total_count) {
        Err(DistributionError::ProbabilitySumNotOne)
    } else {
        Ok(())
    }
}

/// Checks that a histogram is a distribution over `total_count` trials.
///
/// The counts must add up to `total_count` exactly: a histogram that adds up
/// to another number is refused with both numbers. The probabilities must add
/// up to one, which they do as soon as the counts agree and there is a trial
/// to divide by.
pub fn validate_distribution(histogram: &HashMap<i32, usize>, total_count: usize) -> (result:
    Result<(), DistributionError>)
    ensures
        result == distribution_verdict(histogram@, total_count),
        result is Ok <==> is_distribution(histogram@, total_count),
        result is Ok <==> count_sum(histogram@) == total_count && total_count > 0,
{
    let entries = sorted_histogram(histogram);
    let mut sum: u128 = 0;
    let mut i: usize = 0;
    proof {
        lemma_total_of_entries(histogram@, by_count());
        lemma_running_count_grows(entries@, 0, 0);
    }
    while i < entries.len()
        invariant
            0 <= i <= entries@.len(),
            sum == running_count(entries@, i as int),
            sum <= i * 0xFFFF_FFFF_FFFF_FFFF,
        decreases entries@.len() - i,
    {
        proof {
            lemma_entries_total_step(entries@, i as int, by_count());
        }
        sum = sum + entries[i].1 as u128;
        i = i + 1;
    }
    proof {
        assert(entries@.take(entries@.len() as int) =~= entries@);
    }
    if sum != total_count as u128 {
        Err(DistributionError::CountSumMismatch { sum, expected: total_count })
    } else if total_count == 0 {
        Err(DistributionError::ProbabilitySumNotOne)
    } else {
        Ok(())
    }
}

/// The number of trials that entry `at` of a survival table is held against:
/// those of the entry before it, and all trials for the first entry.
pub open spec fn previous_count(entries: Seq<(i32, u128)>, total_count: int, at: int) -> int {
    if at <= 0 {
        total_count
    } else {
        entries[at - 1].1 as int
    }
}

/// Whether entry `at` of a survival table rises above the entry before it.
pub open spec fn rises_at(entries: Seq<(i32, u128)>, total_count: int, at: int) -> bool {
    beyond_tolerance(entries[at].1 as int, previous_count(entries, total_count, at), total_count)
}

/// Whether entry `at` of a survival table is a probability above one.
pub open spec fn overflows_at(entries: Seq<(i32, u128)>, total_count: int, at: int) -> bool {
    beyond_tolerance(entries[at].1 as int, total_count, total_count)
}

/// Whether entry `at` of a survival table passes both checks.
pub open spec fn entry_accepted(entries: Seq<(i32, u128)>, total_count: int, at: int) -> bool {
    !rises_at(entries, total_count, at) && !overflows_at(entries, total_count, at)
}

/// Whether a survival table over `total_count` trials is non-increasing in the
/// threshold and holds probabilities only, both within the tolerance.
pub open spec fn is_survival_table(cumulative: Map<i32, u128>, total_count: usize) -> bool {
    let entries = sorted_entries(cumulative);
    forall|at: int| 0 <= at < entries.len() ==> entry_accepted(entries, total_count as int, at)
}

/// The error that entry `at` of a survival table is refused with: a rise is
/// reported before a probability above one.
pub open spec fn entry_error(
    entries: Seq<(i32, u128)>,
    total_count: int,
    at: int,
) -> DistributionError {
    if rises_at(entries, total_count, at) {
        DistributionError::NonMonotonic {
            threshold: entries[at].0,
            count: entries[at].1,
            previous: previous_count(entries, total_count, at) as u128,
        }
    } else {
        DistributionError::InvalidProbability { threshold: entries[at].0, count: entries[at].1 }
    }
}

/// From position `from` on, the first entry of a survival table that fails a
/// check; the number of entries where none does.
pub open spec fn first_refused_from(entries: Seq<(i32, u128)>, total_count: int, from: int) -> int
    decreases entries.len() - from,
{
    if from >= entries.len() {
        entries.len() as int
    } else if !entry_accepted(entries, total_count, from) {
        from
    } else {
        first_refused_from(entries, total_count, from + 1)
    }
}

/// What the check of a survival table gives, from its entries in ascending
/// order of threshold: the error of the first entry that fails.
pub open spec fn survival_verdict(entries: Seq<(i32, u128)>, total_count: int) -> Result<
    (),
    DistributionError,
> {
    let at = first_refused_from(entries, total_count, 0);
    if at < entries.len() {
        Err(entry_error(entries, total_count, at))
    } else {
        Ok(())
    }
}

/// Checks a survival table over `total_count` trials, entry by entry in
/// ascending order of threshold.
///
/// No entry may hold more trials than the entry before it, nor more than
/// `total_count`, by more than one part in a thousand million of
/// `total_count`. The first entry is held against `total_count`. The first
/// entry that fails is reported.
pub fn validate_cumulative(cumulative: &BTreeMap<i32, u128>, total_count: usize) -> (result: Result<
    (),
    DistributionError,
>)
    ensures
        result is Ok <==> is_survival_table(cumulative@, total_count),
        result == survival_verdict(sorted_entries(cumulative@), total_count as int),
{
    let entries = sorted_table(cumulative);
    let total: u128 = total_count as u128;
    let slack: u128 = total / TOLERANCE_INVERSE;
    let mut previous: u128 = total;
    let mut i: usize = 0;
    while i < entries.len()
        invariant
            0 <= i <= entries@.len(),
            entries@ == sorted_entries(cumulative@),
            total == total_count,
            slack == total / TOLERANCE_INVERSE,
            previous == previous_count(entries@, total_count as int, i as int),
            forall|before: int|
                0 <= before < i ==> entry_accepted(entries@, total_count as int, before),
            first_refused_from(entries@, total_count as int, i as int) == first_refused_from(
                entries@,
                total_count as int,
                0,
            ),
        decreases entries@.len() - i,
    {
        let (threshold, count) = entries[i];
        if count > previous && count - previous > slack {
            assert(rises_at(entries@, total_count as int, i as int));
            return Err(DistributionError::NonMonotonic { threshold, count, previous });
        }
        if count > total && count - total > slack {
            assert(overflows_at(entries@, total_count as int, i as int));
            return Err(DistributionError::InvalidProbability { threshold, count });
        }
        previous = count;
        i = i + 1;
    }
    Ok(())
}

/// The position of a threshold among the entries of a table in ascending order.
proof fn lemma_position_of(cumulative: Map<i32, u128>, threshold: i32) -> (at: int)
    requires
        cumulative.contains_key(threshold),
    ensures
        0 <= at < sorted_entries(cumulative).len(),
        sorted_entries(cumulative)[at] == (threshold, cumulative[threshold]),
{
    lemma_sorted_entries_is_view(cumulative);
    let entries = sorted_entries(cumulative);
    let at = choose|at: int| 0 <= at < entries.len() && (#[trigger] entries[at]).0 == threshold;
    assert(cumulative.contains_key(entries[at].0) && cumulative[entries[at].0] == entries[at].1);
    at
}

/// A table is refused where a threshold holds more trials than the threshold
/// just before it, by more than the tolerance.
pub proof fn lemma_rise_between_neighbours_is_refused(
    cumulative: Map<i32, u128>,
    total_count: usize,
    lower: i32,
    higher: i32,
)
    requires
        cumulative.contains_key(lower),
        cumulative.contains_key(higher),
        lower < higher,
        forall|between: i32| lower < between < higher ==> !cumulative.contains_key(between),
        beyond_tolerance(
            cumulative[higher] as int,
            cumulative[lower] as int,
            total_count as int,
        ),
    ensures
        !is_survival_table(cumulative, total_count),
{
    lemma_sorted_entries_is_view(cumulative);
    let entries = sorted_entries(cumulative);
    let low = lemma_position_of(cumulative, lower);
    let high = lemma_position_of(cumulative, higher);
    if high <= low {
        if high < low {
            assert(entries[high].0 < entries[low].0);
        }
    }
    if high > low + 1 {
        assert(entries[low].0 < entries[low + 1].0);
        assert(entries[low + 1].0 < entries[high].0);
        assert(cumulative.contains_key(entries[low + 1].0));
    }
    assert(high == low + 1);
    assert(rises_at(entries, total_count as int, high));
    assert(!entry_accepted(entries, total_count as int, high));
}

/// Along an accepted table, the trials cannot grow by more than the tolerance
/// for each step.
proof fn lemma_accepted_entries_climb_slowly(
    entries: Seq<(i32, u128)>,
    total_count: int,
    low: int,
    high: int,
)
    requires
        0 <= total_count,
        forall|at: int| 0 <= at < entries.len() ==> entry_accepted(entries, total_count, at),
        0 <= low <= high < entries.len(),
    ensures
        (entries[high].1 - entries[low].1) * TOLERANCE_INVERSE <= (high - low) * total_count,
    decreases high - low,
{
    if high > low {
        lemma_accepted_entries_climb_slowly(entries, total_count, low, high - 1);
        assert(entry_accepted(entries, total_count, high));
        assert(!rises_at(entries, total_count, high));
        assert((high - low) * total_count == (high - 1 - low) * total_count + total_count)
            by (nonlinear_arith);
    } else {
        assert((high - low) * total_count == 0) by (nonlinear_arith)
            requires
                high == low,
        ;
    }
}

/// A table is refused where, between two of its entries in ascending order of
/// threshold, the trials grow by more than the tolerance for each step from
/// the one to the other.
pub proof fn lemma_steep_rise_is_refused(
    cumulative: Map<i32, u128>,
    total_count: usize,
    low: int,
    high: int,
)
    requires
        0 <= low < high < sorted_entries(cumulative).len(),
        (sorted_entries(cumulative)[high].1 - sorted_entries(cumulative)[low].1)
            * TOLERANCE_INVERSE > (high - low) * total_count,
    ensures
        !is_survival_table(cumulative, total_count),
{
    if is_survival_table(cumulative, total_count) {
        lemma_accepted_entries_climb_slowly(
            sorted_entries(cumulative),
            total_count as int,
            low,
            high,
        );
    }
}

/// In a table that is accepted over fewer trials than the tolerance divides
/// by, no entry holds more trials than an entry before it.
proof fn lemma_accepted_entries_descend(
    entries: Seq<(i32, u128)>,
    total_count: int,
    low: int,
    high: int,
)
    requires
        0 <= total_count < TOLERANCE_INVERSE,
        forall|at: int| 0 <= at < entries.len() ==> entry_accepted(entries, total_count, at),
        0 <= low <= high < entries.len(),
    ensures
        entries[high].1 <= entries[low].1,
    decreases high - low,
{
    if high > low {
        lemma_accepted_entries_descend(entries, total_count, low, high - 1);
        assert(entry_accepted(entries, total_count, high));
        assert(!rises_at(entries, total_count, high));
    }
}

/// Over fewer trials than the tolerance divides by, where the tolerance is
/// less than one trial, a table is refused as soon as any threshold holds more
/// trials than any lower threshold.
pub proof fn lemma_any_rise_is_refused(
    cumulative: Map<i32, u128>,
    total_count: usize,
    lower: i32,
    higher: i32,
)
    requires
        total_count < TOLERANCE_INVERSE,
        cumulative.contains_key(lower),
        cumulative.contains_key(higher),
        lower < higher,
        cumulative[higher] > cumulative[lower],
    ensures
        !is_survival_table(cumulative, total_count),
{
    lemma_sorted_entries_is_view(cumulative);
    let entries = sorted_entries(cumulative);
    let low = lemma_position_of(cumulative, lower);
    let high = lemma_position_of(cumulative, higher);
    if high < low {
        assert(entries[high].0 < entries[low].0);
    }
    if is_survival_table(cumulative, total_count) {
        lemma_accepted_entries_descend(entries, total_count as int, low, high);
    }
}

/// The number of trials at or above a threshold is at most the number of all
/// trials, is not negative, and does not grow with the threshold.
pub proof fn lemma_tail_count_descends(histogram: Map<i32, usize>, lower: int, higher: int)
    requires
        lower <= higher,
    ensures
        0 <= tail_count(histogram, higher) <= tail_count(histogram, lower) <= count_sum(histogram),
{
    lemma_reach_below(histogram, lower, higher, i32::MAX + 1);
}

/// Below any bound, the trials at or above a threshold are no more than those
/// at or above a lower threshold, and these no more than all.
proof fn lemma_reach_below(histogram: Map<i32, usize>, lower: int, higher: int, bound: int)
    requires
        lower <= higher,
        i32::MIN <= bound <= i32::MAX + 1,
    ensures
        0 <= total_below(histogram, bound, by_reach(higher)) <= total_below(
            histogram,
            bound,
            by_reach(lower),
        ) <= total_below(histogram, bound, by_count()),
    decreases bound - i32::MIN,
{
    if bound > i32::MIN {
        lemma_reach_below(histogram, lower, higher, bound - 1);
    }
}

/// The survival table of a histogram passes its own check: where no outcome is
/// negative and the histogram holds no more than `total_count` trials, the
/// table starts at threshold 0 with all trials and never rises.
pub proof fn lemma_cumulative_counts_are_accepted(histogram: Map<i32, usize>, total_count: usize)
    requires
        count_sum(histogram) <= total_count,
        forall|outcome: i32| histogram.contains_key(outcome) ==> outcome >= 0,
    ensures
        cumulative_counts(histogram, total_count).contains_key(0),
        cumulative_counts(histogram, total_count)[0] == total_count,
        is_survival_table(cumulative_counts(histogram, total_count), total_count),
{
    let cumulative = cumulative_counts(histogram, total_count);
    lemma_sorted_entries_is_view(cumulative);
    let entries = sorted_entries(cumulative);
    assert forall|at: int| 0 <= at < entries.len() implies entry_accepted(
        entries,
        total_count as int,
        at,
    ) by {
        let (threshold, count) = entries[at];
        assert(cumulative.contains_key(threshold) && cumulative[threshold] == count);
        lemma_tail_count_descends(histogram, threshold as int, threshold as int);
        assert(count <= total_count);
        if at > 0 {
            let (before, more) = entries[at - 1];
            assert(cumulative.contains_key(before) && cumulative[before] == more);
            assert(before < threshold);
            lemma_tail_count_descends(histogram, before as int, threshold as int);
            assert(count <= more);
        }
    }
}

/// A table that is accepted has no entry that fails: its check gives no error.
pub proof fn lemma_accepted_table_has_no_verdict(cumulative: Map<i32, u128>, total_count: usize)
    requires
        is_survival_table(cumulative, total_count),
    ensures
        survival_verdict(sorted_entries(cumulative), total_count as int) is Ok,
{
    lemma_none_refused_from(sorted_entries(cumulative), total_count as int, 0);
}

/// Where every entry is accepted, none is found to fail.
proof fn lemma_none_refused_from(entries: Seq<(i32, u128)>, total_count: int, from: int)
    requires
        0 <= from <= entries.len(),
        forall|at: int| 0 <= at < entries.len() ==> entry_accepted(entries, total_count, at),
    ensures
        first_refused_from(entries, total_count, from) == entries.len(),
    decreases entries.len() - from,
{
    if from < entries.len() {
        lemma_none_refused_from(entries, total_count, from + 1);
    }
}

/// Below any bound, the sum of the outcomes and the sum of their squares are
/// held by the number of trials: no outcome lies outside 32 bits.
proof fn lemma_sums_within_count(histogram: Map<i32, usize>, bound: int)
    requires
        i32::MIN <= bound <= i32::MAX + 1,
    ensures
        ({
            let trials = total_below(histogram, bound, by_count());
            let sum = total_below(histogram, bound, by_value());
            let squares = total_below(histogram, bound, by_square());
            &&& 0 <= trials
            &&& -0x8000_0000 * trials <= sum <= 0x8000_0000 * trials
            &&& 0 <= squares <= 0x4000_0000_0000_0000 * trials
        }),
    decreases bound - i32::MIN,
{
    if bound > i32::MIN {
        lemma_sums_within_count(histogram, bound - 1);
        let outcome = bound - 1;
        if histogram.contains_key(outcome as i32) {
            lemma_entry_weights(outcome, histogram[outcome as i32] as int);
        }
    }
}

/// The squared distances from `point` of trials that add up to `sum` and
/// whose squares add up to `squares`, summed.
spec fn spread_about(trials: int, sum: int, squares: int, point: int) -> int {
    trials * (point * point) - 2 * (sum * point) + squares
}

/// One more outcome adds its own squared distance to the spread.
proof fn lemma_spread_step(
    trials: int,
    sum: int,
    squares: int,
    point: int,
    outcome: int,
    count: int,
)
    requires
        spread_about(trials, sum, squares, point) >= 0,
        count >= 0,
    ensures
        spread_about(
            trials + count,
            sum + outcome * count,
            squares + outcome * outcome * count,
            point,
        ) >= 0,
{
    let weight = outcome * count;
    let heavy = outcome * outcome * count;
    let distance = point - outcome;
    assert((trials + count) * (point * point) == trials * (point * point) + count * (point
        * point)) by (nonlinear_arith);
    assert((sum + weight) * point == sum * point + weight * point) by (nonlinear_arith);
    assert(weight * point == count * (outcome * point)) by (nonlinear_arith)
        requires
            weight == outcome * count,
    ;
    assert(heavy == count * (outcome * outcome)) by (nonlinear_arith)
        requires
            heavy == outcome * outcome * count,
    ;
    assert(distance * distance == point * point - 2 * (outcome * point) + outcome * outcome)
        by (nonlinear_arith)
        requires
            distance == point - outcome,
    ;
    assert(count * (distance * distance) == count * (point * point) - 2 * (count * (outcome
        * point)) + count * (outcome * outcome)) by (nonlinear_arith)
        requires
            distance * distance == point * point - 2 * (outcome * point) + outcome * outcome,
    ;
    assert(count * (distance * distance) >= 0) by (nonlinear_arith)
        requires
            count >= 0,
    ;
}

/// Below any bound, the squared distances of all trials from any point add up
/// to no less than nothing.
proof fn lemma_spread_below(histogram: Map<i32, usize>, bound: int, point: int)
    requires
        i32::MIN <= bound <= i32::MAX + 1,
    ensures
        spread_about(
            total_below(histogram, bound, by_count()),
            total_below(histogram, bound, by_value()),
            total_below(histogram, bound, by_square()),
            point,
        ) >= 0,
    decreases bound - i32::MIN,
{
    if bound > i32::MIN {
        lemma_spread_below(histogram, bound - 1, point);
        let outcome = bound - 1;
        if histogram.contains_key(outcome as i32) {
            lemma_spread_step(
                total_below(histogram, bound - 1, by_count()),
                total_below(histogram, bound - 1, by_value()),
                total_below(histogram, bound - 1, by_square()),
                point,
                outcome,
                histogram[outcome as i32] as int,
            );
        }
    }
}

/// One more outcome keeps the number of trials times the sum of squares at or
/// above the square of the sum.
proof fn lemma_variance_step(trials: int, sum: int, squares: int, outcome: int, count: int)
    requires
        trials * squares - sum * sum >= 0,
        spread_about(trials, sum, squares, outcome) >= 0,
        count >= 0,
    ensures
        (trials + count) * (squares + outcome * outcome * count) - (sum + outcome * count) * (sum
            + outcome * count) >= 0,
{
    let square = outcome * outcome;
    let weight = outcome * count;
    let heavy = square * count;
    let spread = spread_about(trials, sum, squares, outcome);
    assert((trials + count) * (squares + heavy) == trials * squares + trials * heavy + count
        * squares + count * heavy) by (nonlinear_arith);
    assert((sum + weight) * (sum + weight) == sum * sum + 2 * (sum * weight) + weight * weight)
        by (nonlinear_arith);
    assert(weight * weight == count * heavy) by (nonlinear_arith)
        requires
            weight == outcome * count,
            heavy == square * count,
            square == outcome * outcome,
    ;
    assert(trials * heavy == count * (trials * square)) by (nonlinear_arith)
        requires
            heavy == square * count,
    ;
    assert(sum * weight == count * (sum * outcome)) by (nonlinear_arith)
        requires
            weight == outcome * count,
    ;
    assert(count * spread == count * (trials * square) - 2 * (count * (sum * outcome)) + count
        * squares) by (nonlinear_arith)
        requires
            spread == trials * square - 2 * (sum * outcome) + squares,
    ;
    assert(count * spread >= 0) by (nonlinear_arith)
        requires
            count >= 0,
            spread >= 0,
    ;
}

/// Below any bound, the number of trials times the sum of squares is no less
/// than the square of the sum.
proof fn lemma_variance_below(histogram: Map<i32, usize>, bound: int)
    requires
        i32::MIN <= bound <= i32::MAX + 1,
    ensures
        ({
            let trials = total_below(histogram, bound, by_count());
            let sum = total_below(histogram, bound, by_value());
            let squares = total_below(histogram, bound, by_square());
            trials * squares - sum * sum >= 0
        }),
    decreases bound - i32::MIN,
{
    if bound > i32::MIN {
        lemma_variance_below(histogram, bound - 1);
        let outcome = bound - 1;
        if histogram.contains_key(outcome as i32) {
            lemma_spread_below(histogram, bound - 1, outcome);
            lemma_variance_step(
                total_below(histogram, bound - 1, by_count()),
                total_below(histogram, bound - 1, by_value()),
                total_below(histogram, bound - 1, by_square()),
                outcome,
                histogram[outcome as i32] as int,
            );
        }
    }
}

/// The variance of a histogram is not negative: where the histogram holds
/// `total_count` trials, the variance numerator of its statistics is the
/// number of trials times the sum of squares less the square of the sum, and
/// that is at least zero.
pub proof fn lemma_variance_is_not_negative(histogram: Map<i32, usize>, total_count: usize)
    requires
        count_sum(histogram) == total_count,
    ensures
        statistics_of(histogram, total_count).value_sum == value_sum(histogram),
        statistics_of(histogram, total_count).square_sum == square_sum(histogram),
        statistics_of(histogram, total_count).spec_variance_numerator() >= 0,
{
    lemma_sums_within_count(histogram, i32::MAX + 1);
    lemma_variance_below(histogram, i32::MAX + 1);
}

/// From any position on, the nearest rank lies among the entries from that
/// position on.
proof fn lemma_nearest_rank_within(entries: Seq<(i32, usize)>, target: int, from: int)
    requires
        0 <= from < entries.len(),
    ensures
        from <= nearest_rank_from(entries, target, from) < entries.len(),
    decreases entries.len() - from,
{
    if running_count(entries, from + 1) < target {
        if from + 1 < entries.len() {
            lemma_nearest_rank_within(entries, target, from + 1);
        } else {
            assert(nearest_rank_from(entries, target, from + 1) == entries.len() - 1);
        }
    }
}

/// A higher rank is reached no earlier.
proof fn lemma_nearest_rank_ascends(entries: Seq<(i32, usize)>, lower: int, higher: int, from: int)
    requires
        lower <= higher,
        0 <= from <= entries.len(),
        entries.len() > 0,
    ensures
        nearest_rank_from(entries, lower, from) <= nearest_rank_from(entries, higher, from),
    decreases entries.len() - from,
{
    if from < entries.len() {
        if running_count(entries, from + 1) >= higher {
        } else if running_count(entries, from + 1) >= lower {
            lemma_nearest_rank_within(entries, higher, from);
        } else {
            lemma_nearest_rank_ascends(entries, lower, higher, from + 1);
        }
    }
}

/// Percentiles ascend with the percentage: of a histogram with an outcome, a
/// higher percentile is no smaller outcome. So the 25th percentile is at most
/// the median, and the median at most the 75th percentile.
pub proof fn lemma_percentiles_ascend(
    histogram: Map<i32, usize>,
    total_count: usize,
    lower: int,
    higher: int,
)
    requires
        exists|outcome: i32| histogram.contains_key(outcome),
        0 <= lower <= higher,
    ensures
        percentile_value(sorted_entries(histogram), total_count as int, lower) <= percentile_value(
            sorted_entries(histogram),
            total_count as int,
            higher,
        ),
{
    lemma_sorted_entries_is_view(histogram);
    let entries = sorted_entries(histogram);
    let low_target = percentile_target(total_count as int, lower);
    let high_target = percentile_target(total_count as int, higher);
    assert(total_count * lower <= total_count * higher) by (nonlinear_arith)
        requires
            0 <= total_count,
            lower <= higher,
    ;
    lemma_nearest_rank_ascends(entries, low_target, high_target, 0);
    lemma_nearest_rank_within(entries, low_target, 0);
    lemma_nearest_rank_within(entries, high_target, 0);
    let low_at = nearest_rank(entries, low_target);
    let high_at = nearest_rank(entries, high_target);
    if low_at < high_at {
        assert(entries[low_at].0 < entries[high_at].0);
    }
}

} // verus!
