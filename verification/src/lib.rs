//! Probability tables for a roll-and-keep pool of ten-sided dice.
//!
//! A pool of `roll` dice is thrown and the `keep` highest are summed. Dice may
//! explode, rolling again and adding up, and under emphasis a die that shows a
//! plain 1 is rolled again. The crate simulates such pools, tallies the totals
//! into a histogram, and reduces the histogram to summary statistics and to a
//! survival table `P(total >= t)`.
//!
//! Every quantity is kept exact: a mean as a sum over a number of trials, a
//! probability as a number of trials over the number of all trials. Turning
//! them into decimals is left to the caller.
//!
//! - [`config`]: the configurations, and the list of all of them.
//! - [`dice`]: one die, emphasis, one trial, and the simulation of a
//!   configuration.
//! - [`histogram`]: sums over a histogram and its view in ascending order.
//! - [`stats`]: statistics, the survival table, and the two validators.
//! - [`pipeline`]: from a configuration to its table.
//! - [`output`]: the document that holds the tables, and texts for reports.
//! - [`sorting`]: sorting of integers.

pub mod config;
pub mod dice;
pub mod histogram;
pub mod output;
pub mod pipeline;
pub mod sorting;
pub mod stats;
