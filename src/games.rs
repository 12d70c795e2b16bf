//! Concrete games implementing [`crate::game::GameState`].

pub mod c4;
pub mod c4_bitboard;
pub mod ttt;
