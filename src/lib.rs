//! Simulation core of a falling-block puzzle game: pieces and their
//! rotations, the board with its collision and line-clear engine, animation
//! scheduling, input state and the frame-driven game state machine.
//!
//! All times are integer milliseconds; all fractions of an animation are
//! integer thousandths (`0..=1000`).

pub mod util;
pub mod gfx;
pub mod piece;
pub mod board;
pub mod input;
pub mod ease;
pub mod game;
