//! Multilateration bench: Mode S frames, the feeder wire protocol, the feeder
//! client's engine, the server's receiver table and grouping rules, the capture
//! container and the scorer, as verified functions on plain values.

pub mod text;
pub mod bench;
pub mod capture;
pub mod client;
pub mod icao;
pub mod metrics;
pub mod modes;
pub mod order;
pub mod proto;
pub mod reading;
pub mod seed;
pub mod server;
pub mod sim;
