//! Numerical schemes as policies: operator tags, the policy trait, the stencil
//! abstraction, and concrete scheme families.

pub mod conservation;
pub mod consistency;
pub mod finite_difference;
pub mod finite_volume;
pub mod operators;
pub mod stencil;
