//! The multilateration server: receivers, grouping, publication, sharding.

pub mod candidate;
pub mod cluster;
pub mod gates;
pub mod grouping;
pub mod output;
pub mod pairs;
pub mod publish;
pub mod receivers;
pub mod rows;
pub mod session;
pub mod shard;
pub mod state;
pub mod status;
