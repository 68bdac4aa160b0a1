//! A foraging-agent sorting simulation: mobile agents relocate discrete items
//! across a spatial graph, clustering similar items over time.
//!
//! The crate is organised around three subsystems:
//! - a fixed-timestep scheduler that decouples simulation rate from the host
//!   frame rate (`scheduler`);
//! - a spatial-graph board with immutable topology and mutable per-cell
//!   occupancy (`board`);
//! - the stochastic pickup/drop foraging process with its similarity metric
//!   and probability model (`sim`, `similarity`, `prob`).
//!
//! Feature data for items is loaded from a small text format (`dataset`);
//! a board topology can also be derived from a triangle mesh (`mesh`).
//! All fractional quantities (similarity scores, probabilities, feature
//! coordinates) are fixed-point integers in thousandths; see `consts::SCALE`.

pub mod board;
pub mod consts;
pub mod dataset;
pub mod diagnostics;
pub mod mesh;
pub mod prob;
mod rng;
pub mod scheduler;
pub mod sim;
pub mod similarity;
