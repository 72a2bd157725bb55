//! A solver for 9 x 9 Sudoku puzzles, with proofs of what it does.
//!
//! A [Sudoku] is a grid of 81 squares that hold the values 0 to 9, where 0
//! marks an empty square. [Sudoku::find_solution()] returns a solution of a
//! puzzle where there is one, and [Sudoku::find_all_solutions()] returns a
//! traversal of its solutions.
//!
//! The modules, from the ground up:
//!
//! - [bits]: sets of digits packed into a mask;
//! - [grid]: the grid, its units (rows, columns and 3x3 cells) and its
//!   validity;
//! - [notes]: the values that are still possible in a square, and in each
//!   square of a grid;
//! - [propagate]: deduction, which notes what the filled squares leave
//!   possible and fills the squares that are left a single value;
//! - [search]: the search for solutions as the contracts see it;
//! - [solver]: the search as it runs;
//! - [render]: the text form of a grid;
//! - [theorems], [deduction] and [complete]: what is proved of every
//!   search. It returns solutions only, each of them once, it ends, and
//!   what it has returned when it ends are all the solutions of the puzzle.

pub mod bits;
pub mod complete;
pub mod deduction;
pub mod grid;
pub mod notes;
pub mod propagate;
pub mod render;
pub mod search;
pub mod solver;
pub mod theorems;

pub use grid::{validate_coordinates, validate_value, Sudoku, NUM_SQUARES};
pub use notes::{NotesGrid, SudokuNote, SudokuNoteIter};
pub use search::{SearchState, ValueChange};
pub use solver::AllSolutionsIterator;
