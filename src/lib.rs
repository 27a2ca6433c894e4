//! A Sudoku solver built from constraint propagation and depth-first search.
//!
//! The board topology (units and peers) is computed once; a board state holds
//! the candidate digits of each of the 81 squares and is narrowed by `assign`
//! and `eliminate`; `search` branches on the most constrained square.
pub mod game;
pub mod topology;

pub use game::{Candidates, Game, SudokuError, SudokuResult};
pub use topology::{
    create_peers_dictionary, create_square_vec, create_unit_dictionary, create_unitlist,
    GameSetup, RangeInterval, SudokuSquare, SudokuUnit,
};
