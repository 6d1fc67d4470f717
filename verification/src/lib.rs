pub mod game;
pub mod minimax;
