//! Verified core of Schelling's (1971) dynamic models of segregation.
pub mod cell;
pub mod text;
pub mod config;
pub mod world;
pub mod mechanism;
pub mod metrics;
pub mod rng;
pub mod simulation;
pub mod analytic;
