//! Time integration as schemes over model evaluations.

pub mod euler;
pub mod euler_maruyama;
pub mod imex;
pub mod increments;
pub mod modes;
pub mod monotone;
pub mod nesting;
pub mod pacing;
pub mod quadrature;
pub mod rk4;
pub mod scheme;
pub mod split;
pub mod subcycling;
pub mod tiling;
