use probability_calculator::config::{ExplosionMode, RollConfig};
use probability_calculator::pipeline::{
    build_table, build_table_with_rng, table_from_histogram, FailureReason, TableError,
};
use probability_calculator::stats::{validate_cumulative, DistributionError};
use rand::rngs::StdRng;
use rand::SeedableRng;
use std::collections::HashMap;

#[test]
fn a_histogram_becomes_a_table() {
    let config = RollConfig::new(2, 1, ExplosionMode::Unskilled, false);
    let mut histogram = HashMap::new();
    histogram.insert(10, 50_000);
    histogram.insert(20, 100_000);
    histogram.insert(30, 50_000);
    let table = table_from_histogram(&config, &histogram).unwrap();
    assert_eq!(table.roll, 2);
    assert_eq!(table.keep, 1);
    assert_eq!(table.explosion_mode, ExplosionMode::Unskilled);
    assert!(!table.emphasis);
    assert_eq!(table.statistics.total_count, 200_000);
    assert_eq!(table.statistics.value_sum, 4_000_000);
    assert_eq!(table.statistics.median, 20);
    assert_eq!(table.statistics.min, 10);
    assert_eq!(table.statistics.max, 30);
    let entries: Vec<(i32, u128)> = table
        .cumulative_probability
        .iter()
        .map(|(&t, &c)| (t, c))
        .collect();
    assert_eq!(entries, vec![(0, 200_000), (10, 200_000), (20, 150_000), (30, 50_000)]);
}

#[test]
fn a_histogram_with_the_wrong_number_of_trials_gives_no_table() {
    let config = RollConfig::new(2, 1, ExplosionMode::Unskilled, false);
    let mut histogram = HashMap::new();
    histogram.insert(10, 100);
    histogram.insert(20, 200);
    histogram.insert(30, 100);
    assert_eq!(
        table_from_histogram(&config, &histogram).err(),
        Some(TableError {
            config,
            reason: FailureReason::Histogram(DistributionError::CountSumMismatch {
                sum: 400,
                expected: 200_000
            }),
        })
    );
    let empty: HashMap<i32, usize> = HashMap::new();
    assert_eq!(
        table_from_histogram(&config, &empty).err().map(|e| e.reason),
        Some(FailureReason::Histogram(DistributionError::CountSumMismatch {
            sum: 0,
            expected: 200_000
        }))
    );
}

#[test]
fn a_table_that_rises_is_not_published() {
    // Outcomes below zero put a lower probability before the entry at zero.
    let config = RollConfig::new(2, 1, ExplosionMode::Unskilled, false);
    let mut histogram = HashMap::new();
    histogram.insert(-10, 100_000);
    histogram.insert(-5, 100_000);
    assert_eq!(
        table_from_histogram(&config, &histogram).err(),
        Some(TableError {
            config,
            reason: FailureReason::Cumulative(DistributionError::NonMonotonic {
                threshold: 0,
                count: 200_000,
                previous: 100_000
            }),
        })
    );
}

#[test]
fn a_simulation_becomes_a_table() {
    let mut rng = StdRng::seed_from_u64(8);
    let config = RollConfig::new(3, 2, ExplosionMode::Skilled, true);
    let table = build_table_with_rng(&config, &mut rng).unwrap();
    assert_eq!((table.roll, table.keep), (3, 2));
    assert_eq!(table.explosion_mode, ExplosionMode::Skilled);
    assert!(table.emphasis);
    assert_eq!(table.statistics.total_count, 300_000);
    assert!(table.statistics.min >= 2);
    assert!(table.statistics.min <= table.statistics.percentile_25);
    assert!(table.statistics.percentile_25 <= table.statistics.median);
    assert!(table.statistics.median <= table.statistics.percentile_75);
    assert!(table.statistics.percentile_75 <= table.statistics.max);
    assert_eq!(table.cumulative_probability.get(&0), Some(&300_000));
    assert_eq!(
        table.cumulative_probability.get(&table.statistics.min),
        Some(&300_000)
    );
    assert_eq!(validate_cumulative(&table.cumulative_probability, 300_000), Ok(()));
    // Two dice kept out of three are worth more than two dice alone, which
    // are worth 11 on average without explosions.
    let mean = table.statistics.value_sum as f64 / 300_000.0;
    assert!(mean > 11.0 && mean < 20.0);
    assert!(table.statistics.variance_numerator().unwrap() > 0);
}

#[test]
fn a_table_from_the_system_generator() {
    let config = RollConfig::new(1, 1, ExplosionMode::Unskilled, false);
    let table = build_table(&config).unwrap();
    assert_eq!(table.statistics.total_count, 200_000);
    assert_eq!(table.statistics.min, 1);
    assert_eq!(table.statistics.max, 10);
    assert_eq!(table.cumulative_probability.len(), 11);
    // One die showing 1 to 10 has a mean of 5.5.
    let mean = table.statistics.value_sum as f64 / 200_000.0;
    assert!((mean - 5.5).abs() < 0.05);
}
