//! Game-state engine for a grid-based mine-hunting puzzle: grid geometry,
//! minefield generation, the visibility overlay with flood-fill reveal,
//! and win/loss determination.

pub mod board;
pub mod field;
pub mod game;
pub mod grid;
mod sampling;
pub mod timing;

pub use board::{Board, CellState, Outcome};
pub use field::{Cell, ConfigError, MineField};
pub use game::BoardState;
pub use grid::Shape;
pub use timing::format_duration;
