//! The simulation core of Conway's Game of Life on an unbounded, sparse plane:
//! coordinates, a sparse grid with its generation step, and decoders for the
//! plain-text and run-length-encoded pattern formats.
//!
//! Cells are related by the Moore neighbourhood: the eight cells that touch a
//! cell at a side or a corner.
use vstd::prelude::*;

pub mod coord;
pub mod grid;
pub mod pattern;

pub use coord::Coord;
pub use grid::{Cell, CellState, Grid};
pub use pattern::{PatternError, PatternFormat};

verus! {

} // verus!
