//! Acting policies.

pub mod acting;
pub mod modelfree;
pub mod planner;
pub mod tree;
