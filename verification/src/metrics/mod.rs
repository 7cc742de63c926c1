//! Scoring: results against ground truth.

pub mod rows;
pub mod truth;
pub mod score;
pub mod shuffle;
pub mod report;
