//! Small shared utilities.

pub mod frozen;
pub mod rng;
pub mod text;
