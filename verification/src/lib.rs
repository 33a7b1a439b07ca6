//! Integer core of a population-scaling study of ternary agents.
pub mod scaling;
pub mod metrics;
pub mod plateau;
pub mod ranking;

pub use scaling::{ScaleConfig, Rng, ScalingExperiment};
