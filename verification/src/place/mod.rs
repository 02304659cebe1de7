//! Placement: the row-based deterministic placer and the pieces of the
//! annealing placer that move cells and score placements.
pub mod greedy;
pub mod sa;
