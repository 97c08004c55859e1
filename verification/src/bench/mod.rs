//! Accuracy evaluation: ground truth, scoring counts, golden snapshots and a
//! seeded generator.

pub mod case;
pub mod eval;
pub mod golden;
pub mod rng;
pub mod score;

