//! A deductive solver for Minesweeper-style grids, together with two small
//! standalone grid puzzles.
//!
//! The solver core models a partially revealed grid as a set of cells and a
//! store of constraints ("hints"), each asserting that a given set of cells
//! holds an exact number of bombs.  A worklist-driven engine applies local
//! deduction rules until no rule fires, then one global counting pass.  Every
//! deduction is proved sound: an assignment of bombs to cells that satisfies
//! the board before a step still satisfies it afterwards.

pub mod board;
pub mod delta;
pub mod hint;
pub mod paper;
pub mod river;
pub mod sets;
pub mod square;
