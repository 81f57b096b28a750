//! Tabu search for gamma-quasi-cliques: vertex subsets of a simple undirected
//! graph whose induced edge density reaches a threshold.
//!
//! All quantities that the search compares are exact: densities and thresholds
//! are ratios of integers, so every decision is a function of integers alone.

pub mod bits;
pub mod clock;
pub mod construct;
pub mod dimacs;
pub mod diversify;
pub mod freq;
pub mod graph;
pub mod induced;
pub mod lns;
pub mod maxk;
pub mod mcts;
pub mod neighbour;
pub mod order;
pub mod params;
pub mod ratio;
pub mod restart;
pub mod rng;
pub mod runs;
pub mod select;
pub mod solution;
pub mod tabu;

pub use graph::Graph;
pub use params::Params;
pub use solution::Solution;
