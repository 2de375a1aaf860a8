//! A simulated-annealing search for short closed tours over a point set.
//!
//! All real-valued quantities (coordinates, distances, temperatures,
//! acceptance probabilities) are held as fixed-point integers scaled by
//! [`fixed::SCALE`], so that every arithmetic step is exact and verified.
//! The engine is split into its natural parts: the distance model, the
//! move generators, the cooling schedules, the acceptance decision and the
//! annealing loop, plus the key-value configuration grammar.

pub mod anneal;
pub mod config;
pub mod cooling;
pub mod distance;
pub mod errors;
pub mod fixed;
pub mod rng;
pub mod tour;
