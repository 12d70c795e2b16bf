//! Search algorithms that work through [`crate::game::GameState`] alone.

pub mod minimax;
