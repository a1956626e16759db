//! A steppable maze generator: a self-avoiding random walk over a grid that
//! backtracks on dead ends and archives each abandoned segment as a track.
mod grid;
mod random;
mod walk;
mod counting;
mod config;
mod maze;

pub use grid::{GridPosition, Grid, cell, lemma_neighbours_adjacent};
pub use walk::{
    Walk,
    tracks_len,
    contiguous,
    count_of_length,
    is_run,
    lemma_step_preserves,
    lemma_step_with_is_step,
    lemma_visited_within_area,
    lemma_path_stays_visited,
    lemma_cells_accounted,
    lemma_finished_is_fixed,
    lemma_walk_terminates,
    lemma_finished_visits_all,
};
pub use counting::pair_le;
pub use config::{Config, settings_of, given_or};
pub use maze::{Maze, MazeError, MazeState, Walker};
