//! A 9×9 Sudoku solver that alternates constraint propagation with backtracking search.
pub mod candidates;
pub mod grid;
pub mod propagate;
pub mod search;

pub use candidates::CandidateSet;
pub use grid::{
    check_solved, clone_grid, from_rows, remove_possibility, suggest_guess, to_rows, Guess,
    SolveError, SudokuCell, SudokuGrid,
};
pub use propagate::{check_grid, eliminate, propagate, SudokuResult};
pub use search::{check_answer, covers_all, no_clash, solve};
