//! A turn-based two-player grid game engine.
//!
//! The engine supports variable board geometry (a 3x3 three-in-a-row variant
//! and a 15x15 five-in-a-row variant) with a win condition parameterized by a
//! run length. Boards are immutable snapshots: every successful move produces
//! a new board value. A small state machine sequences play; any driver
//! (console, test harness) can run the loop around it.

pub mod board;
pub mod coordinates;
pub mod error;
pub mod game;
pub mod player;
pub mod render;
pub mod state;
pub mod text;
