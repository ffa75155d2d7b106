//! A* shortest-path search on a uniform-cost grid.
//!
//! The library owns the grid data model, the scoring of cells, the open-set
//! (frontier) management, the step-by-step search driver, and the path
//! reconstruction from parent links.  Rendering a grid to text lines is
//! provided as pure functions; printing and the animation delay between
//! steps are left to the caller.
//!
//! Scores are modelled exactly: a cell's path cost `g` is a step count, its
//! heuristic is the Euclidean distance to the goal, stored as the squared
//! distance `hsq`.  The ranking value `f = g + sqrt(hsq)` is never computed
//! as a float; comparisons between two such values are decided exactly with
//! integer arithmetic (see [`score`]).

use vstd::prelude::*;

pub mod frontier;
pub mod grid;
pub mod render;
pub mod score;
pub mod search;

verus! {

/// Largest accepted grid dimension (rows or columns).  Keeps every squared
/// Euclidean distance within [`MAX_HSQ`].
pub const MAX_DIM: usize = 1024;

/// Upper bound on a stored squared heuristic distance:
/// `2 * (MAX_DIM - 1)^2 <= MAX_HSQ`.
pub const MAX_HSQ: u64 = 0x20_0000;

/// Upper bound on the configurable iteration ceiling of a search.  Bounds
/// every `g` value, so that exact score comparisons cannot overflow.
pub const MAX_ITERS: u64 = 0x4000_0000;

} // verus!
