//! A perfect maze on a rectangular grid.
//!
//! The maze is carved by a randomized depth-first search ([`maze_map`],
//! modelled in [`carve`]), walked by moves that slide through unbranching
//! corridors ([`movement`]), and solved by a breadth-first search for a
//! shortest walk to the end ([`solve`], modelled in [`search`]). The random
//! source is seeded, and everything it decides is a function of its state
//! ([`random`]).
//!
//! [`game`] says what a game on a maze is, [`console_game`] and [`display`]
//! give the game that is played by commands. [`grid`] holds the mathematical
//! model of the grid, [`perfect`] the proof that a carved maze is perfect, and
//! [`laws`] what holds of the library as a whole.

pub mod carve;
pub mod console_game;
pub mod display;
pub mod errors;
pub mod game;
pub mod game_value;
pub mod grid;
pub mod laws;
pub mod map_value;
pub mod maze_map;
pub mod move_status;
pub mod movement;
pub mod perfect;
pub mod player;
pub mod point;
pub mod random;
pub mod search;
pub mod solve;
