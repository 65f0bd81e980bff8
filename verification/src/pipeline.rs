//! From one configuration to its table: simulate, check the histogram, reduce
//! it, check the survival table, and put the table together.
//!
//! Nothing is published that fails a check. The checks are carried out on
//! every histogram; for a histogram that a finished simulation gave they are
//! also proved to pass, so that only the simulation itself can fail.

use crate::config::{ExplosionMode, RollConfig};
use crate::dice::{is_simulation_of, simulate_roll_xky, simulate_roll_xky_with_rng, SimulationError};
use crate::histogram::{lemma_trials_have_an_outcome, sorted_entries};
use crate::output::ProbabilityTable;
use crate::stats::{
    calculate_cumulative_probabilities, calculate_statistics, cumulative_counts,
    distribution_verdict, lemma_cumulative_counts_are_accepted, statistics_of, survival_verdict,
    validate_cumulative, validate_distribution, DistributionError,
};
use rand::rngs::StdRng;
use std::collections::HashMap;
use vstd::prelude::*;

verus! {

/// Why no table was made.
#[derive(Debug, Clone, Copy, PartialEq, Eq, Structural)]
pub enum FailureReason {
    /// The simulation was given up.
    Simulation(SimulationError),
    /// The histogram is no distribution over the trials of the configuration.
    Histogram(DistributionError),
    /// The survival table rises or leaves the range of a probability.
    Cumulative(DistributionError),
}

/// A failure, with the configuration that it happened for.
#[derive(Debug, Clone, Copy, PartialEq, Eq, Structural)]
pub struct TableError {
    /// The configuration that no table was made for.
    pub config: RollConfig,
    /// What went wrong.
    pub reason: FailureReason,
}

/// What the two checks give for the histogram of a configuration: the
/// histogram is checked first, then the survival table made of it.
pub open spec fn table_verdict(config: RollConfig, histogram: Map<i32, usize>) -> Result<
    (),
    FailureReason,
> {
    let rounds = config.spec_simulation_rounds();
    match distribution_verdict(histogram, rounds) {
        Err(error) => Err(FailureReason::Histogram(error)),
        Ok(_) => match survival_verdict(
            sorted_entries(cumulative_counts(histogram, rounds)),
            rounds as int,
        ) {
            Err(error) => Err(FailureReason::Cumulative(error)),
            Ok(_) => Ok(()),
        },
    }
}

/// Whether `table` is the table of a configuration with the given histogram:
/// the statistics and the survival table of the histogram, over the trials of
/// the configuration.
pub open spec fn is_table_of(
    table: ProbabilityTable,
    config: RollConfig,
    histogram: Map<i32, usize>,
) -> bool {
    &&& table.is_for(config.roll, config.keep, config.explosion_mode, config.emphasis)
    &&& table.statistics == statistics_of(histogram, config.spec_simulation_rounds())
    &&& table.cumulative_probability@ == cumulative_counts(
        histogram,
        config.spec_simulation_rounds(),
    )
}

/// The histogram of a finished simulation passes both checks.
pub proof fn lemma_simulation_passes(config: RollConfig, histogram: Map<i32, usize>)
    requires
        config.valid(),
        is_simulation_of(config, histogram),
    ensures
        table_verdict(config, histogram) is Ok,
{
    let rounds = config.spec_simulation_rounds();
    lemma_cumulative_counts_are_accepted(histogram, rounds);
    crate::stats::lemma_accepted_table_has_no_verdict(
        cumulative_counts(histogram, rounds),
        rounds,
    );
}

/// Reduces the histogram of a configuration to its table, where the histogram
/// and the survival table made of it pass their checks.
pub fn table_from_histogram(config: &RollConfig, histogram: &HashMap<i32, usize>) -> (result: Result<
    ProbabilityTable,
    TableError,
>)
    ensures
        result matches Ok(table) ==> table_verdict(*config, histogram@) is Ok && is_table_of(
            table,
            *config,
            histogram@,
        ),
        result matches Err(error) ==> error.config == *config && table_verdict(
            *config,
            histogram@,
        ) == Err::<(), FailureReason>(error.reason),
{
    let total_count = config.simulation_rounds();
    match validate_distribution(histogram, total_count) {
        Ok(()) => {},
        Err(error) => {
            return Err(TableError { config: *config, reason: FailureReason::Histogram(error) });
        },
    }
    proof {
        lemma_trials_have_an_outcome(histogram@);
    }
    let statistics = calculate_statistics(histogram, total_count);
    let cumulative = calculate_cumulative_probabilities(histogram, total_count);
    match validate_cumulative(&cumulative, total_count) {
        Ok(()) => {},
        Err(error) => {
            return Err(TableError { config: *config, reason: FailureReason::Cumulative(error) });
        },
    }
    Ok(ProbabilityTable::new(config, statistics, cumulative))
}

/// Simulates a configuration on the given generator and reduces the histogram
/// to its table.
///
/// Only the simulation can fail, and with unskilled dice not even that.
pub fn build_table_with_rng(config: &RollConfig, rng: &mut StdRng) -> (result: Result<
    ProbabilityTable,
    TableError,
>)
    requires
        config.valid(),
    ensures
        result matches Ok(table) ==> exists|histogram: Map<i32, usize>|
            is_simulation_of(*config, histogram) && #[trigger] is_table_of(
                table,
                *config,
                histogram,
            ),
        result matches Err(error) ==> error == (TableError {
            config: *config,
            reason: FailureReason::Simulation(SimulationError::ExplosionLimitExceeded),
        }),
        config.explosion_mode == ExplosionMode::Unskilled ==> result is Ok,
{
    let histogram = match simulate_roll_xky_with_rng(config, rng) {
        Ok(histogram) => histogram,
        Err(error) => {
            return Err(TableError { config: *config, reason: FailureReason::Simulation(error) });
        },
    };
    proof {
        lemma_simulation_passes(*config, histogram@);
    }
    table_from_histogram(config, &histogram)
}

/// Simulates a configuration on a generator seeded by the operating system
/// and reduces the histogram to its table.
pub fn build_table(config: &RollConfig) -> (result: Result<ProbabilityTable, TableError>)
    requires
        config.valid(),
    ensures
        result matches Ok(table) ==> exists|histogram: Map<i32, usize>|
            is_simulation_of(*config, histogram) && #[trigger] is_table_of(
                table,
                *config,
                histogram,
            ),
        result matches Err(error) ==> error == (TableError {
            config: *config,
            reason: FailureReason::Simulation(SimulationError::ExplosionLimitExceeded),
        }),
        config.explosion_mode == ExplosionMode::Unskilled ==> result is Ok,
{
    let histogram = match simulate_roll_xky(config) {
        Ok(histogram) => histogram,
        Err(error) => {
            return Err(TableError { config: *config, reason: FailureReason::Simulation(error) });
        },
    };
    proof {
        lemma_simulation_passes(*config, histogram@);
    }
    table_from_histogram(config, &histogram)
}

} // verus!
