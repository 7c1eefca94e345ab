//! A terminal paint-by-number toy, verified.
//!
//! A board is a grid of cells, each holding an index into a palette of
//! colors. The user selects a palette entry and fills cells whose color
//! index matches the selection. This crate holds the board, palette and
//! input state together with the rules that update them; drawing to the
//! terminal and reading terminal events live outside it.

pub mod board;
pub mod counting;
pub mod input;
pub mod palette;
pub mod ppm;
