//! Mode S frames: parity, altitude fields, frame builders and decoders.

pub mod alt;
pub mod cpr;
pub mod crc;
pub mod decode;
pub mod frames;
