//! Grids and topology.

pub mod amr;
pub mod boundary;
pub mod cartesian;
pub mod error;
pub mod grid;
pub mod halo;
pub mod index;
pub mod placement;
pub mod sweep;
pub mod view;
