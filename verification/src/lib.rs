//! Procedural board engine for a minesweeper played on an unbounded grid.
//!
//! Mines are never stored: a pure oracle decides, for any coordinate, whether
//! a mine lies there. The board remembers which cells have been shown to the
//! player, and a budgeted flood fill uncovers regions free of mines.

pub mod coord;
pub mod oracle;
pub mod board;
pub mod flood;
pub mod theorems;
pub mod tile;
