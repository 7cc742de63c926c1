//! The feeder client: Beast input, traffic engine, server sessions.

pub mod beast;
pub mod engine;
pub mod session;
pub mod stats;
