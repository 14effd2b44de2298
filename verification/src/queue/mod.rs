//! Channels whose receivers compete for the items.

pub mod mpmc;
