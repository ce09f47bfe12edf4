//! Pooled UCT and PUCT search over sequential, simultaneous, and chance nodes.

pub mod act;
pub mod backup;
pub mod chances;
pub mod descent;
pub mod fan;
pub mod fates;
pub mod grow;
pub mod guided;
pub mod keep;
pub mod leaves;
pub mod passed;
pub mod policy;
pub mod pool;
pub mod read;
pub mod round;
pub mod search;
pub mod select;
pub mod simulate;
pub mod sound;
pub mod told;
pub mod tree;
pub mod worth;
