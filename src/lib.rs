//! A double-buffered, diff-emitting renderer for a character-cell display,
//! together with the snake game that drives it.

pub mod geometry;
pub mod render;
pub mod game;
pub mod laws;
pub mod input;
