//! Exact Bayesian inference over the full space of three-object placements
//! on an 8x8 grid.
//!
//! The engine enumerates every placement of three linear objects (lengths 2,
//! 3 and 4), weights each placement by the exact sampling bias of the
//! generator that produced it, filters placements against partial evidence,
//! and folds the surviving mass into a per-cell distribution.  All mass
//! arithmetic is integer fixed-point arithmetic (a weight of `WEIGHT_ONE`
//! stands for probability one), so every result is a pinned-down function
//! of the inputs, and the contracts state that function exactly.

pub mod aggregate;
pub mod cache;
pub mod engine;
pub mod history;
pub mod laws;
pub mod masks;
pub mod prior;
pub mod table;

pub use crate::engine::{GameState, PossibleBoards};
pub use crate::history::{DriftKernel, History};
pub use crate::prior::{BoardTable, BOARD_COUNT};
pub use crate::table::PossibleBoard;

use vstd::prelude::*;

verus! {

/// Fixed-point scale: `WEIGHT_ONE` represents a probability mass of one.
pub const WEIGHT_ONE: u64 = 0x100_0000_0000;

} // verus!
