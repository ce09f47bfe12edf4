//! Policies that search a tree.

pub mod alphazero;
pub mod evaluation;
pub mod expectimax;
pub mod mcts;
pub mod minimax;
