//! A solver for tic-tac-toe on square boards.
//!
//! A board is stored as a base-3 number with one digit per cell. The crate
//! offers the conversion between boards and such numbers, the game's rules
//! on them, a compiler that walks every position of a game and scores it by
//! backward induction, and an engine that plays from the compiled table.
//!
//! - [`codec`]: boards as numbers.
//! - [`rules`]: the winner of a board, and the boards one move on.
//! - [`node`]: the record that the compiler keeps of a board; errors.
//! - [`compilation`]: what the compiler asks of a game, and tic-tac-toe's
//!   answer.
//! - [`graph`]: the boards of a game and the moves between them; what it
//!   means for a table to be the table of a game.
//! - [`state`], [`steps`], [`outcome`]: the invariant of a compilation, why
//!   each step keeps it, and what it gives once the queues are empty.
//! - [`compiler`]: the compiler.
//! - [`ai`]: the engine.
//! - [`game`]: a game on the board of three rows, move by move.

pub mod codec;
pub mod rules;
pub mod node;
pub mod compilation;
pub mod graph;
pub mod state;
pub mod steps;
pub mod outcome;
pub mod compiler;
pub mod ai;
pub mod game;
