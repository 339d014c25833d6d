//! Monte Carlo reliability simulation of a repairable machine population.
//!
//! Probabilities are fixed-point integers: a value `p` stands for `p / 2^64`,
//! so `ONE` is certainty.
pub mod config;
pub mod hazard;
pub mod machine;
pub mod generator;
pub mod engine;
pub mod trial;
pub mod batch;
