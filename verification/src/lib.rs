//! Centrality metrics over directed graphs: PageRank (plain, weighted and
//! personalized), betweenness centrality, reachability counts, and the graph
//! transformations (reversal, contraction) that feed them.
//!
//! Scores and edge weights are fixed-point numbers in billionths (see
//! [`fixed::FIXED_ONE`]). The solvers carry functional contracts: each
//! result equals a definitional model of its algorithm, every PageRank
//! vector sums to exactly `FIXED_ONE` — dangling mass included — and
//! reachability counts equal the cardinality of the mathematical
//! reachable set.

pub mod analyze;
pub mod betweenness;
pub mod fixed;
pub mod graph;
pub mod pagerank;
pub mod reach;
pub mod transform;
