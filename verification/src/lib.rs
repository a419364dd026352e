//! A simulation harness and benchmark for speculative decoding.
//!
//! A small, cheap draft model proposes `k` tokens ahead, and a large target
//! model verifies them in a single batched pass, accepting the longest correct
//! prefix. This crate models the algorithm's correctness and its performance.
//!
//! - [`sampling`] is the accept/reject rule and the residual distribution;
//! - [`preservation`] proves that they leave the output distribution as it is,
//!   [`draws`] how little the grid of the draws takes from that, and [`means`]
//!   what whole runs come to on average;
//! - [`models`] has draft and target simulators;
//! - [`analytical`] is the closed-form model of tokens per round and speedup, and
//!   [`cost`] the division by the cost of a round;
//! - [`rounds`] simulates verification rounds;
//! - [`bench`] sweeps draft length and acceptance rate, and [`report`] renders
//!   the result;
//! - [`rng`] is a deterministic generator, so every result is reproducible;
//! - [`fixed`], [`mass`], [`apportion`] and [`text`] are the arithmetic below:
//!   numbers with eighteen decimal places, weights and their running totals,
//!   normalization and mixtures, and decimal text.
pub mod analytical;
pub mod apportion;
pub mod bench;
pub mod cost;
pub mod draws;
pub mod fixed;
pub mod mass;
pub mod means;
pub mod models;
pub mod preservation;
pub mod report;
pub mod rng;
pub mod rounds;
pub mod sampling;
pub mod text;

pub use analytical::{expected_accepted_tokens, expected_speedup};
pub use bench::{run_sweep, BenchConfig, SweepResult};
pub use models::{Model, SyntheticModel};
pub use rng::Rng;
pub use sampling::{
    residual_distribution, sample_from, speculative_step, SamplingError, StepOutcome,
};
