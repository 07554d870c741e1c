//! Board state-space engine of a sliding-tile puzzle: index geometry, legal
//! moves next to the empty cell, a breadth-first solver and a shuffle walk.

pub mod board;
pub mod error;
pub mod geometry;
pub mod move_order;
pub mod puzzle;
pub mod shuffle;
pub mod solver;
pub mod state_table;

pub use board::{
    get_idx_of_val, get_swappable_neighbours, initialize_fields, trigger_field, SENTINEL,
};
pub use error::PuzzleError;
pub use geometry::{
    get_coords_from_idx, get_idx_from_coords, get_idx_from_row_col, get_left_top,
    get_row_col_from_idx, in_bounds, Coords,
};
pub use puzzle::{apply_swaps, PuzzleView, SlidePuzzle, SlidePuzzleMsg};
pub use shuffle::get_shuffle_sequence;
pub use solver::find_swap_order;
