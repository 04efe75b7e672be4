//! Conway's Game of Life on a self-growing board, with a verified codec for
//! the run-length-encoded (RLE) pattern format.

pub mod cell_map;
pub mod error;
pub mod rle;
pub mod round_trip;
pub mod simulation;
pub mod text;
