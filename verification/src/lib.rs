//! Correlation clustering of the elements of a two-dimensional grid.
//!
//! The elements are split into clusters so that similar elements share a
//! cluster and dissimilar ones do not. Similarities are given in fixed
//! point, as whole numbers of `1 / SCALE`, for every ordered pair of
//! elements. A greedy assigner builds partitions over several visiting
//! orders, the cheapest is kept, and a local search refines it by moving
//! one element at a time.

pub mod boem_cc;
pub mod elements;
pub mod greedy_cc;
pub mod grid;
pub mod iterations;
pub mod moves;
pub mod objective;
pub mod partition;
pub mod similarity;

pub use boem_cc::cc_boem;
pub use elements::indices;
pub use greedy_cc::{cc_vote_additive, cc_vote_logarithmic};
pub use iterations::{
    boem_cc_iterations, greedy_cc_iterations, greedy_cc_orders, index_permutations, run,
};
pub use objective::cluster_total_distance;
