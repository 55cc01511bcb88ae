//! A verified constraint-grid engine for sudoku-style boards.
//!
//! The crate offers two board orders (9x9 with 3x3 boxes and 16x16 with 4x4
//! boxes), packed-cell and plain-byte variants of each, a backtracking
//! generator and solver, validity-preserving randomization, clue removal,
//! a binary codec, and cursor-based undo/redo histories.

use vstd::prelude::*;

pub mod base64;
pub mod board;
pub mod grid3;
pub mod grid4;
pub mod history;
pub mod simple;
pub mod render;
mod rng;

verus! {

/// A cell address as `(column, row)`, both 0-indexed.
pub type Pos = (usize, usize);

} // verus!
