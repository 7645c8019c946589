//! Exhaustive backtracking solver for a nine-card edge-matching puzzle.
//!
//! Each card carries a creature half on each of its four edges; the cards are
//! laid out in a 3×3 grid, each turned in quarter steps, so that every pair of
//! touching edges shows the head and the tail of the same creature.
pub mod arrangements;
pub mod instance;
pub mod model;
pub mod placement;
pub mod search;
