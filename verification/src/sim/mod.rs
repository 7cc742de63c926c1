//! Scenarios and the message streams that they generate.

pub mod clock;
pub mod scenario;
pub mod gen;
