//! The rollout collector: many games, advanced together.

pub mod accounts;
pub mod advance;
pub mod decide;
pub mod earned;
pub mod ends;
pub mod flush;
pub mod live;
pub mod resume;
pub mod run;
pub mod seat;
pub mod snapshot;
pub mod steady;
pub mod streams;
pub mod telemetry;
pub mod tick;
pub mod turns;
