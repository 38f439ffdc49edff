//! The board engine of a tile-clearing puzzle game: difficulty settings,
//! random sources for mine placement, and the board with its reveal logic.

pub mod config;
pub mod util;
pub mod grid;
