//! Dots-and-Boxes endgame engine: a strings-and-coins position model, a
//! Nimstring solver and a minimax evaluator, with machine-checked contracts.

pub mod board;
pub mod game;
pub mod zobrist;
pub mod position;
pub mod model;
pub mod simple;
pub mod compound;
pub mod equality;
pub mod splitter;
pub mod nimstring;
pub mod eval;
pub mod examples;
pub mod render;
pub mod laws;
pub mod cli;
pub mod memo;
