//! Conway's Game of Life on a fixed-size toroidal board: the board with its neighbour
//! lookup, patches and generation step, and a loader for text patterns.
pub mod board;
pub mod components;
pub mod loader;
