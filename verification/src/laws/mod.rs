//! What the channels promise across calls.

pub mod delivery;
pub mod lifecycle;
pub mod claims;
pub mod exclusive;
pub mod queue;
pub mod history;
pub mod basics;
pub mod permits;
pub mod batches;
pub mod single;
pub mod competing;
