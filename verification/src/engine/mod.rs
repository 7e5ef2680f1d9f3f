//! State, storage, scheduling and the simulation loop.

pub mod driver;
pub mod exact;
pub mod measures;
pub mod monte_carlo;
pub mod observer;
pub mod scheduler;
pub mod scratch;
pub mod simulation;
pub mod state;
pub mod storage;
