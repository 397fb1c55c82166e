//! Rule engine for a sliding-tile merge puzzle on a square grid.
//!
//! Numbered tiles slide to the far edge of a chosen direction, merge
//! pairwise when equal-valued tiles collide, and award score equal to
//! each merged value. The library covers the shift/merge resolution,
//! the tile data model, the spawner's cell selection, the terminal
//! (no-moves-left) detector and the score tracker; rendering and input
//! handling live outside it.

pub mod board;
pub mod board_shift;
pub mod end_game;
pub mod game;
pub mod laws;
pub mod position;
pub mod shift;
pub mod spawn;
pub mod state;
pub mod tile;

pub use board::Board;
pub use board_shift::BoardShift;
pub use end_game::end_game;
pub use game::{game_reset, Game};
pub use position::Position;
pub use shift::{board_shift, ShiftOutcome};
pub use spawn::{empty_cells, new_tile_handler, spawn_tile, spawn_tiles};
pub use state::{GameState, RunState};
pub use tile::Tile;
