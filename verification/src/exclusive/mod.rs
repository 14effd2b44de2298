//! Channels with one endpoint on each side.

pub mod spsc;
