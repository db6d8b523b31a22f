//! An exhaustive solver for 3x3 tic-tac-toe.
//!
//! The board is held as two 9-bit fields, one per player ([`bit_board`]).
//! A negamax search over the full game tree ([`engine`]) scores every
//! reachable position exactly, memoising results in a dense transposition
//! table indexed by the raw board encoding ([`board`]). A small state
//! machine for interactive play sits in [`game`]; the terminal loop around
//! it lives outside the library.

pub mod bit_board;
pub mod board;
pub mod engine;
pub mod game;
