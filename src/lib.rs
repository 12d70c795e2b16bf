//! Generic solver for two-player, deterministic, perfect-information games:
//! the game-state abstraction, the minimax family of searches, and two games
//! (Tic-Tac-Toe, Connect Four) that implement the abstraction.

pub mod game;
pub mod games;
pub mod solvers;
pub mod utils;
