//! A verified Reversi (Othello) board engine.
//!
//! The engine owns a square grid of cells, the active player, and the rule
//! logic: which cells are legal moves, how a placement flips opponent
//! pieces, how the turn passes, and when the game ends.  A small move
//! advisor picks a legal move at random, preferring corners.

pub mod advisor;
pub mod board;
pub mod laws;
