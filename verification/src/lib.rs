//! Exact solver for a two-player gravity-drop connection game on a fixed
//! 7-column, 6-row grid. A position is a pair of bitboards; the solver is a
//! negamax search with alpha-beta pruning, a direct-mapped transposition
//! cache, heuristic move ordering and an iterative-deepening null-window
//! driver. The score convention is signed half-moves remaining: a positive
//! score `n` means the side to move wins with its `n`-th-to-last stone, `0`
//! means a draw, a negative score means the side to move loses.

pub mod bitops;
pub mod position;
pub mod solve;
pub mod solver;
