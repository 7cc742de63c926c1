//! The bench itself: importing, recording, replaying and sharing captures.

pub mod import;
pub mod replay;
pub mod scoring;
pub mod fuzz;
pub mod generate;
