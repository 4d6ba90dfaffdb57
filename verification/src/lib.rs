//! Constraint engine for grid puzzles of the Sudoku family: a board, the
//! rules that constrain it, a game that owns both, and a propagating
//! backtracking solver that completes boards and carves puzzles.

pub mod board;
pub mod carving;
pub mod classic;
pub mod complete;
pub mod field;
pub mod game;
pub mod matching;
pub mod random;
pub mod rules;
pub mod search;
pub mod session;
pub mod solver;
pub mod text;
pub mod userinput;
