//! Batched best-first selective expectimax.

pub mod alike;
pub mod answers;
pub mod backup;
pub mod evaluate;
pub mod fan;
pub mod frontier;
pub mod joint;
pub mod odds;
pub mod paths;
pub mod plies;
pub mod policy;
pub mod pure;
pub mod queue;
pub mod search;
pub mod tree;
pub mod worth;
