//! A falling-sand engine on a fixed-size grid.
//!
//! One frame is planned against a frozen snapshot of the grid, one candidate
//! move per grain at most, and then committed: every claimed free cell
//! receives exactly one of the grains that asked for it.

use vstd::prelude::*;

pub mod commit;
pub mod edit;
pub mod frame;
pub mod grid;
pub mod planner;
pub mod random;
pub mod render;
pub mod simulation;
pub mod step;

pub use grid::{Cell, CellMove, Simulation};
