//! Quadratic knapsack solver: a greedy construction by gain per weight,
//! refined either by best-improvement one-for-one trades or by a seeded
//! randomized first-improvement search. Every selection the engine keeps is
//! within budget, and its running value and per-item interaction sums are
//! proved to match the selection after every move.
pub mod problem;
pub mod lemmas;
pub mod state;
pub mod construct;
pub mod search;
pub mod random_search;
pub mod solver;
