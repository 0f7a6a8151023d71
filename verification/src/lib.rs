//! Verified solvers for a collection of grid and text puzzles.
//!
//! The centrepiece is the bounded-run directional shortest-path engine in
//! [`crucible`]: a Dijkstra-style search over an augmented state space
//! (cell, heading, run length) with configurable straight-run constraints.

use vstd::prelude::*;

pub mod beams;
pub mod camel_cards;
pub mod crucible;
pub mod crucible_laws;
pub mod crucible_search;
pub mod cube_game;
pub mod frontier;
pub mod galaxies;
pub mod lens_library;
pub mod mirrors;
pub mod oasis;
pub mod pipes;
pub mod scan;
pub mod scratchcards;
pub mod schematic;
pub mod trebuchet;
pub mod workflows;

verus! {

} // verus!
