//! The game 2048: a 4×4 board of power-of-two squares that merge when slid
//! together, and an incremental renderer that draws only what changed.
pub mod board;
pub mod laws;
mod random;
pub mod render;

pub use board::{Board, Move, Square};
pub use render::{RenderError, Renderer, Rgb, TermOp, TextColor};
