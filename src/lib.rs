//! Rule engine of a sliding-tile puzzle in the style of 2048: shifting and
//! merging tiles, spawning new ones, scoring, and detecting the end of a game.
pub mod position;
pub mod tiles;
pub mod shift;
mod outside;
pub mod spawn;
pub mod terminal;
pub mod score;
pub mod game;
