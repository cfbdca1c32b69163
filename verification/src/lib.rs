//! A text-based minesweeper engine: a square grid of cells, each a mine or
//! safe, with a recursive reveal operation, win detection, and rendering.

pub mod board;
pub mod cell;
pub mod generator;
pub mod neighborhood;
pub mod position;
