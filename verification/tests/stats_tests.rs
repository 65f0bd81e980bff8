use probability_calculator::histogram::{record_outcome, sorted_histogram, sorted_table};
use probability_calculator::stats::{
    calculate_cumulative_probabilities, calculate_percentile, calculate_statistics,
    validate_cumulative, validate_distribution, DistributionError, Statistics,
    PROBABILITY_CUTOFF_INVERSE, TOLERANCE_INVERSE,
};
use std::collections::{BTreeMap, HashMap};

fn probability(cumulative: &BTreeMap<i32, u128>, total_count: usize, threshold: i32) -> Option<f64> {
    cumulative
        .get(&threshold)
        .map(|&count| count as f64 / total_count as f64)
}

#[test]
fn test_calculate_statistics() {
    let mut histogram = HashMap::new();
    histogram.insert(10, 100);
    histogram.insert(20, 200);
    histogram.insert(30, 100);

    let stats = calculate_statistics(&histogram, 400);
    let mean = stats.value_sum as f64 / stats.total_count as f64;

    // Mean should be (10*100 + 20*200 + 30*100) / 400 = 20
    assert!((mean - 20.0).abs() < 0.01);

    // Median should be 20
    assert_eq!(stats.median, 20);

    // Min and max
    assert_eq!(stats.min, 10);
    assert_eq!(stats.max, 30);
}

#[test]
fn test_calculate_cumulative() {
    let mut histogram = HashMap::new();
    histogram.insert(10, 100);
    histogram.insert(20, 200);
    histogram.insert(30, 100);

    let cumulative = calculate_cumulative_probabilities(&histogram, 400);

    // P(≥ 0) = 1.0
    assert_eq!(probability(&cumulative, 400, 0), Some(1.0));

    // P(≥ 10) = 1.0
    assert_eq!(probability(&cumulative, 400, 10), Some(1.0));

    // P(≥ 20) = 0.75 (300/400)
    assert!((probability(&cumulative, 400, 20).unwrap() - 0.75).abs() < 0.01);

    // P(≥ 30) = 0.25 (100/400)
    assert!((probability(&cumulative, 400, 30).unwrap() - 0.25).abs() < 0.01);
}

#[test]
fn test_validate_distribution() {
    let mut histogram = HashMap::new();
    histogram.insert(10, 100);
    histogram.insert(20, 200);
    histogram.insert(30, 100);

    // Should be valid
    assert!(validate_distribution(&histogram, 400).is_ok());

    // Should fail with wrong total
    assert!(validate_distribution(&histogram, 500).is_err());
}

#[test]
fn test_validate_cumulative() {
    // Probabilities 1.0, 1.0, 0.75 and 0.25 of 400 trials.
    let mut cumulative = BTreeMap::new();
    cumulative.insert(0, 400);
    cumulative.insert(10, 400);
    cumulative.insert(20, 300);
    cumulative.insert(30, 100);

    // Should be valid
    assert!(validate_cumulative(&cumulative, 400).is_ok());

    // Non-monotonic should fail: 1.0, 0.5, then 0.75
    let mut bad_cumulative = BTreeMap::new();
    bad_cumulative.insert(0, 400);
    bad_cumulative.insert(10, 200);
    bad_cumulative.insert(20, 300); // Goes up!

    assert!(validate_cumulative(&bad_cumulative, 400).is_err());
}

#[test]
fn test_probability_cutoff() {
    let mut histogram = HashMap::new();
    histogram.insert(10, 999_999);
    histogram.insert(100, 1); // Very rare outcome

    let cumulative = calculate_cumulative_probabilities(&histogram, 1_000_000);

    // P(≥ 100) = 0.000001, should be filtered by cutoff
    assert!(cumulative.get(&100).is_none());

    // P(≥ 10) = 1.0, should be kept
    assert_eq!(probability(&cumulative, 1_000_000, 10), Some(1.0));
}

#[test]
fn the_cutoff_keeps_what_is_above_it() {
    assert_eq!(PROBABILITY_CUTOFF_INVERSE, 1_000_000);
    let mut histogram = HashMap::new();
    histogram.insert(10, 999_998);
    histogram.insert(100, 2);
    let cumulative = calculate_cumulative_probabilities(&histogram, 1_000_000);
    assert_eq!(cumulative.get(&100), Some(&2));
    assert_eq!(cumulative.get(&10), Some(&1_000_000));
    assert_eq!(cumulative.get(&0), Some(&1_000_000));
    assert_eq!(cumulative.len(), 3);

    // One trial in 999,999 is above one in a million.
    let mut histogram = HashMap::new();
    histogram.insert(10, 999_998);
    histogram.insert(100, 1);
    let cumulative = calculate_cumulative_probabilities(&histogram, 999_999);
    assert_eq!(cumulative.get(&100), Some(&1));

    // One trial in 1,000,001 is below it.
    let mut histogram = HashMap::new();
    histogram.insert(10, 1_000_000);
    histogram.insert(100, 1);
    let cumulative = calculate_cumulative_probabilities(&histogram, 1_000_001);
    assert_eq!(cumulative.get(&100), None);
    assert_eq!(cumulative.get(&10), Some(&1_000_001));
}

#[test]
fn cumulative_counts_are_exact() {
    let mut histogram = HashMap::new();
    histogram.insert(10, 100);
    histogram.insert(20, 200);
    histogram.insert(30, 100);
    let cumulative = calculate_cumulative_probabilities(&histogram, 400);
    let entries: Vec<(i32, u128)> = cumulative.iter().map(|(&t, &c)| (t, c)).collect();
    assert_eq!(entries, vec![(0, 400), (10, 400), (20, 300), (30, 100)]);
    assert_eq!(cumulative.get(&15), None);
    assert_eq!(validate_cumulative(&cumulative, 400), Ok(()));
}

#[test]
fn threshold_zero_always_stands_for_one() {
    let histogram: HashMap<i32, usize> = HashMap::new();
    let cumulative = calculate_cumulative_probabilities(&histogram, 50);
    let entries: Vec<(i32, u128)> = cumulative.iter().map(|(&t, &c)| (t, c)).collect();
    assert_eq!(entries, vec![(0, 50)]);

    // An outcome of zero does not change the entry at zero.
    let mut histogram = HashMap::new();
    histogram.insert(0, 5);
    histogram.insert(10, 5);
    let cumulative = calculate_cumulative_probabilities(&histogram, 20);
    let entries: Vec<(i32, u128)> = cumulative.iter().map(|(&t, &c)| (t, c)).collect();
    assert_eq!(entries, vec![(0, 20), (10, 5)]);

    // Outcomes below zero come before it.
    let mut histogram = HashMap::new();
    histogram.insert(-5, 1);
    histogram.insert(5, 1);
    let cumulative = calculate_cumulative_probabilities(&histogram, 2);
    let entries: Vec<(i32, u128)> = cumulative.iter().map(|(&t, &c)| (t, c)).collect();
    assert_eq!(entries, vec![(-5, 2), (0, 2), (5, 1)]);
}

#[test]
fn statistics_are_exact_sums() {
    let mut histogram = HashMap::new();
    histogram.insert(10, 100);
    histogram.insert(20, 200);
    histogram.insert(30, 100);
    let stats = calculate_statistics(&histogram, 400);
    assert_eq!(stats.total_count, 400);
    assert_eq!(stats.value_sum, 8000);
    assert_eq!(stats.square_sum, 180_000);
    assert_eq!(stats.percentile_25, 10);
    assert_eq!(stats.median, 20);
    assert_eq!(stats.percentile_75, 20);
    assert_eq!(stats.min, 10);
    assert_eq!(stats.max, 30);
    // The variance is 180000/400 - 20*20 = 50.
    let mean = stats.value_sum as f64 / 400.0;
    let variance = stats.square_sum as f64 / 400.0 - mean * mean;
    assert!((variance.sqrt() - 50f64.sqrt()).abs() < 1e-9);
}

#[test]
fn statistics_of_negative_outcomes() {
    let mut histogram = HashMap::new();
    histogram.insert(-3, 2);
    histogram.insert(4, 1);
    let stats = calculate_statistics(&histogram, 3);
    assert_eq!(stats.value_sum, -2);
    assert_eq!(stats.square_sum, 34);
    assert_eq!(stats.min, -3);
    assert_eq!(stats.max, 4);
    assert_eq!(stats.median, -3);
    assert_eq!(stats.percentile_75, -3);
}

#[test]
fn statistics_of_one_outcome() {
    let mut histogram = HashMap::new();
    histogram.insert(7, 1);
    let stats = calculate_statistics(&histogram, 1);
    assert_eq!(stats.value_sum, 7);
    assert_eq!(stats.square_sum, 49);
    assert_eq!(stats.median, 7);
    assert_eq!(stats.percentile_25, 7);
    assert_eq!(stats.percentile_75, 7);
    assert_eq!(stats.min, 7);
    assert_eq!(stats.max, 7);
}

#[test]
fn the_range_skips_outcomes_that_were_never_seen() {
    let mut histogram = HashMap::new();
    histogram.insert(5, 0);
    histogram.insert(10, 3);
    histogram.insert(20, 1);
    histogram.insert(40, 0);
    let stats = calculate_statistics(&histogram, 4);
    assert_eq!(stats.min, 10);
    assert_eq!(stats.max, 20);
    assert_eq!(stats.value_sum, 50);
}

#[test]
fn percentiles_are_nearest_rank() {
    let entries = vec![(10, 100), (20, 200), (30, 100)];
    assert_eq!(calculate_percentile(&entries, 400, 0), 10);
    assert_eq!(calculate_percentile(&entries, 400, 25), 10);
    assert_eq!(calculate_percentile(&entries, 400, 26), 20);
    assert_eq!(calculate_percentile(&entries, 400, 50), 20);
    assert_eq!(calculate_percentile(&entries, 400, 75), 20);
    assert_eq!(calculate_percentile(&entries, 400, 76), 30);
    assert_eq!(calculate_percentile(&entries, 400, 100), 30);
    // The rank is rounded down: 25 hundredths of 3 trials is rank 0.
    let entries = vec![(1, 1), (2, 1), (3, 1)];
    assert_eq!(calculate_percentile(&entries, 3, 25), 1);
    assert_eq!(calculate_percentile(&entries, 3, 50), 1);
    assert_eq!(calculate_percentile(&entries, 3, 75), 2);
}

#[test]
fn a_rank_that_is_never_reached_gives_the_last_outcome() {
    let entries = vec![(10, 100), (20, 200), (30, 100)];
    assert_eq!(calculate_percentile(&entries, 1000, 50), 30);
    let entries = vec![(10, 1), (20, 0)];
    assert_eq!(calculate_percentile(&entries, 10, 75), 20);
}

#[test]
fn a_wrong_total_is_reported_with_both_numbers() {
    let mut histogram = HashMap::new();
    histogram.insert(10, 100);
    histogram.insert(20, 200);
    histogram.insert(30, 100);
    assert_eq!(validate_distribution(&histogram, 400), Ok(()));
    assert_eq!(
        validate_distribution(&histogram, 500),
        Err(DistributionError::CountSumMismatch { sum: 400, expected: 500 })
    );
    assert_eq!(
        validate_distribution(&histogram, 399),
        Err(DistributionError::CountSumMismatch { sum: 400, expected: 399 })
    );
    assert_eq!(
        validate_distribution(&histogram, 0),
        Err(DistributionError::CountSumMismatch { sum: 400, expected: 0 })
    );
}

#[test]
fn no_trials_are_no_distribution() {
    let histogram: HashMap<i32, usize> = HashMap::new();
    assert_eq!(
        validate_distribution(&histogram, 0),
        Err(DistributionError::ProbabilitySumNotOne)
    );
    assert_eq!(
        validate_distribution(&histogram, 1),
        Err(DistributionError::CountSumMismatch { sum: 0, expected: 1 })
    );
    let mut histogram = HashMap::new();
    histogram.insert(5, 0);
    assert_eq!(
        validate_distribution(&histogram, 0),
        Err(DistributionError::ProbabilitySumNotOne)
    );
}

#[test]
fn counts_beyond_a_machine_word_are_added_up() {
    let mut histogram = HashMap::new();
    histogram.insert(1, usize::MAX);
    histogram.insert(2, usize::MAX);
    assert_eq!(
        validate_distribution(&histogram, usize::MAX),
        Err(DistributionError::CountSumMismatch {
            sum: 2 * (usize::MAX as u128),
            expected: usize::MAX
        })
    );
    let cumulative = calculate_cumulative_probabilities(&histogram, usize::MAX);
    assert_eq!(cumulative.get(&1), Some(&(2 * (usize::MAX as u128))));
    assert_eq!(cumulative.get(&2), Some(&(usize::MAX as u128)));
}

#[test]
fn a_rise_is_reported_where_it_happens() {
    let mut cumulative = BTreeMap::new();
    cumulative.insert(0, 400);
    cumulative.insert(10, 200);
    cumulative.insert(20, 300);
    cumulative.insert(30, 500);
    assert_eq!(
        validate_cumulative(&cumulative, 400),
        Err(DistributionError::NonMonotonic { threshold: 20, count: 300, previous: 200 })
    );
}

#[test]
fn the_first_entry_is_held_against_one() {
    let mut cumulative = BTreeMap::new();
    cumulative.insert(5, 401);
    assert_eq!(
        validate_cumulative(&cumulative, 400),
        Err(DistributionError::NonMonotonic { threshold: 5, count: 401, previous: 400 })
    );
    let mut cumulative = BTreeMap::new();
    cumulative.insert(5, 400);
    assert_eq!(validate_cumulative(&cumulative, 400), Ok(()));
    let cumulative: BTreeMap<i32, u128> = BTreeMap::new();
    assert_eq!(validate_cumulative(&cumulative, 400), Ok(()));
}

#[test]
fn the_tolerance_is_one_part_in_a_thousand_million() {
    assert_eq!(TOLERANCE_INVERSE, 1_000_000_000);
    // With 2,000,000,000 trials the tolerance is two trials.
    let total: usize = 2_000_000_000;
    let mut cumulative = BTreeMap::new();
    cumulative.insert(0, 1_000_000_000);
    cumulative.insert(1, 1_000_000_002);
    assert_eq!(validate_cumulative(&cumulative, total), Ok(()));
    cumulative.insert(2, 1_000_000_005);
    assert_eq!(
        validate_cumulative(&cumulative, total),
        Err(DistributionError::NonMonotonic {
            threshold: 2,
            count: 1_000_000_005,
            previous: 1_000_000_002
        })
    );
}

#[test]
fn a_probability_above_one_is_refused() {
    let total: usize = 2_000_000_000;
    let mut cumulative = BTreeMap::new();
    cumulative.insert(0, 2_000_000_002);
    assert_eq!(validate_cumulative(&cumulative, total), Ok(()));
    cumulative.insert(1, 2_000_000_004);
    assert_eq!(
        validate_cumulative(&cumulative, total),
        Err(DistributionError::InvalidProbability { threshold: 1, count: 2_000_000_004 })
    );
}

#[test]
fn sorted_views_ascend() {
    let mut histogram = HashMap::new();
    for outcome in [30, -7, 12, 0, 5, i32::MAX, i32::MIN] {
        histogram.insert(outcome, (outcome as i64 + 3_000_000_000) as usize);
    }
    let entries = sorted_histogram(&histogram);
    let keys: Vec<i32> = entries.iter().map(|e| e.0).collect();
    assert_eq!(keys, vec![i32::MIN, -7, 0, 5, 12, 30, i32::MAX]);
    for (outcome, count) in entries {
        assert_eq!(histogram[&outcome], count);
    }
    let empty: HashMap<i32, usize> = HashMap::new();
    assert!(sorted_histogram(&empty).is_empty());

    let mut table = BTreeMap::new();
    table.insert(9, 1u128);
    table.insert(-9, 2u128);
    table.insert(3, 3u128);
    assert_eq!(sorted_table(&table), vec![(-9, 2), (3, 3), (9, 1)]);
}

#[test]
fn recording_counts_one_more() {
    let mut histogram = HashMap::new();
    record_outcome(&mut histogram, 12);
    record_outcome(&mut histogram, 15);
    record_outcome(&mut histogram, 12);
    assert_eq!(histogram.len(), 2);
    assert_eq!(histogram[&12], 2);
    assert_eq!(histogram[&15], 1);
    assert_eq!(validate_distribution(&histogram, 3), Ok(()));
}

#[test]
fn the_variance_numerator_is_exact() {
    let mut histogram = HashMap::new();
    histogram.insert(10, 100);
    histogram.insert(20, 200);
    histogram.insert(30, 100);
    let stats = calculate_statistics(&histogram, 400);
    // 400 * 180000 - 8000 * 8000
    assert_eq!(stats.variance_numerator(), Some(8_000_000));
    let mut histogram = HashMap::new();
    histogram.insert(7, 5);
    let stats = calculate_statistics(&histogram, 5);
    assert_eq!(stats.variance_numerator(), Some(0));
}

#[test]
fn a_variance_numerator_beyond_128_bits_is_not_given() {
    let stats = Statistics {
        total_count: 2,
        value_sum: 0,
        square_sum: u128::MAX,
        median: 0,
        percentile_25: 0,
        percentile_75: 0,
        min: 0,
        max: 0,
    };
    assert_eq!(stats.variance_numerator(), None);
    let stats = Statistics { square_sum: i128::MAX as u128, ..stats };
    assert_eq!(stats.variance_numerator(), None);
    let stats = Statistics { total_count: 1, ..stats };
    assert_eq!(stats.variance_numerator(), Some(i128::MAX));
    let stats = Statistics { square_sum: 0, value_sum: i128::MAX, ..stats };
    assert_eq!(stats.variance_numerator(), None);
    let stats = Statistics { value_sum: -3, ..stats };
    assert_eq!(stats.variance_numerator(), Some(-9));
}

#[test]
fn small_rises_can_add_up_along_a_long_table() {
    // With 2,000,000,000 trials a rise of two trials is within the tolerance,
    // and so is each of two such rises in a row.
    let total: usize = 2_000_000_000;
    let mut cumulative = BTreeMap::new();
    cumulative.insert(0, 1_000_000_000);
    cumulative.insert(1, 1_000_000_002);
    cumulative.insert(2, 1_000_000_004);
    assert_eq!(validate_cumulative(&cumulative, total), Ok(()));
    // With fewer than 1,000,000,000 trials no rise at all is let through.
    let mut cumulative = BTreeMap::new();
    cumulative.insert(0, 500_000_000);
    cumulative.insert(1, 500_000_001);
    assert_eq!(
        validate_cumulative(&cumulative, 999_999_999),
        Err(DistributionError::NonMonotonic {
            threshold: 1,
            count: 500_000_001,
            previous: 500_000_000
        })
    );
}
