//! Block-structured adaptive mesh refinement.

pub mod adapt;
pub mod cluster;
pub mod cuts;
pub mod exchange;
pub mod grid;
pub mod intergrid;
pub mod linear;
pub mod means;
pub mod migrate;
pub mod plan;
pub mod restriction;
pub mod sync;
pub mod tag;
pub mod walk;
