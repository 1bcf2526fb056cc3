//! A rules engine and search-based move advisor for the board game Octi.
//!
//! Octagonal pieces place directional arrows and use them to step or
//! multi-jump across a bounded grid; a side wins by reaching the
//! opponent's home cells or eliminating the opponent's pieces.
//!
//! - [`board`] holds the geometry, the event-based state machine that
//!   validates and applies moves, and the textual move syntax.
//! - [`ai`] holds the flat search board, move generation with its
//!   termination guard, the evaluator, the move prioritizer, and the
//!   fixed-depth alpha-beta search.
//! - [`game`] wraps a board in a navigable move history.
//! - [`ui`] holds the pure parts of the terminal presentation.

pub mod ai;
pub mod board;
pub mod game;
pub mod ui;
