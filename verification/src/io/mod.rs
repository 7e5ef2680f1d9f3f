//! What output backends decide and compute: row order, row groups, schemas, file
//! names, cadence and field statistics. Writing files and terminals is left to the
//! backends.

pub mod progress;
pub mod table;
