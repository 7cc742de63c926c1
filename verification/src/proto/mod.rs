//! The feeder wire protocol: messages, framing and position lines.

pub mod fields;
pub mod framing;
pub mod json;
pub mod messages;
pub mod sbs;
