use vstd::prelude::*;

pub mod minesweeper;
mod rng;
pub mod sudoku;

verus! {

pub use crate::sudoku::Sudoku;
pub use crate::minesweeper::{Minesweeper, MoveResult};

} // verus!
