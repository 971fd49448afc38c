//! A verified playing engine for Ultimate Tic-Tac-Toe: a 9x9 board of nine
//! 3x3 sub-boards ("blocks"), where the cell just played forces which block
//! the opponent must answer in.
//!
//! The crate provides the bit-packed board model (`board`), the block
//! classification table (`block`), the static evaluator (`eval`), a
//! cancellable alpha-beta search (`search`) and a Monte-Carlo tree search
//! (`mcts`), together with text import/export of positions (`format`).

pub mod bits;
pub mod block;
pub mod board;
pub mod eval;
pub mod format;
pub mod mcts;
pub mod search;
