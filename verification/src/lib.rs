//! Exact-cover packing of tetrominoes into a rectangular grid.

pub mod cells;
pub mod field;
pub mod grid;
pub mod regions;
pub mod search;
pub mod solver;
pub mod tetris;
pub mod text;
pub mod tiling;
