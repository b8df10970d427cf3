//! Conway's Game of Life on an unbounded grid of `i32` coordinates.
//!
//! The live cells are kept in a `Vec<Pos>` without duplicates; contracts speak
//! of the set of positions it holds.

mod board;
mod cells;
mod pattern;
mod pos;
mod view;

pub use board::{
    board_inv, drawn_from, interval_ms, lemma_ticks_within_interval, tick_result, Board,
    BoardView, ConfigError, LoadError,
};
pub use cells::{
    contains, count_neighbours, lemma_empty_stays_empty, lemma_neighbour_count_ignores_self,
    next_generation,
};
pub use pattern::{parse_pattern, random_cells};
pub use pos::Pos;
pub use view::{cell_size_of, center_offset, project, shift_cells, CellRect, Viewport};
