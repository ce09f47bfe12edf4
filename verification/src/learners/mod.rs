//! Training-record production.

pub mod alphazero;
pub mod dqn;
pub mod frame;
pub mod needs;
pub mod outcomes;
pub mod ppo;
pub mod strapped;
pub mod treestrap;
