//! A 9x9 Sudoku engine: the placement check, a backtracking solver, a random
//! puzzle generator, the decision on a player's move, the reading of the lines
//! that the player types, and the text of a board.

pub mod grid;
pub mod solver;
pub mod generator;
pub mod moves;
pub mod command;
pub mod display;
