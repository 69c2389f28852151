//! A Minesweeper board engine: mine placement, adjacency computation, tile
//! state transitions, cascading reveal of zero-adjacency regions, and win
//! detection, with machine-checked contracts.

pub mod board;
pub mod cursor;
pub mod point;
pub mod tile;
