//! An engine for ultimate tic-tac-toe: nine small boards of nine cells, where
//! the cell that is played names the small board that the other side must
//! play in next. The board keeps its state in bit masks and takes moves back
//! exactly; the search deepens step by step under a clock, on an evaluation
//! that is read from tables made once.

use vstd::prelude::*;

pub mod bitboard;
pub mod sorting;
pub mod lookups;
pub mod rules;
pub mod position;
pub mod board;
pub mod perft;
pub mod notation;
pub mod weights;
pub mod eval;
pub mod engine;
pub mod interface;
pub mod frame;
pub mod woodleague;

verus! {

} // verus!
