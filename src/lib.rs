//! Word-search puzzles: a backtracking generator that hides words in a
//! letter grid, and a family of solvers that locate them again.

pub mod generator;
pub mod grid;
pub mod order;
pub mod placement;
pub mod random;
pub mod solver;
pub mod text;

pub use generator::generate_grid;
pub use grid::{opposite_direction, Cell, Direction, Grid, WordLocation, EMPTY_CHAR};
pub use solver::{
    solve_grid_hash_first_letter, solve_grid_naive, solve_grid_reverse_hash_first_letter,
    solve_grid_reverse_hash_first_two_letters, solve_grid_reverse_words,
};
