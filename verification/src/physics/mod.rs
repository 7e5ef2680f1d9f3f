//! Models: dynamics as driver-indexed vector fields.

pub mod inventory;
pub mod market_making;
pub mod model;
pub mod path_dynamics;
pub mod paths;
pub mod phasefield;
pub mod quoting;
pub mod seeding;
pub mod solidification;
pub mod stochastic_vol;
pub mod symmetric_book;
pub mod value_surface;
pub mod variance_transport;
