//! A single-room dungeon: a perfect maze carved over a square grid, the walls derived
//! from it, a door, a player and a key placed far apart, and the moves that play it.
pub mod constants;
pub mod grid;
pub mod random;
pub mod tally;
pub mod maze;
pub mod walls;
pub mod room;
pub mod game;
pub mod render;
