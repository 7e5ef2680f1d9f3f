//! A framework for time-dependent partial and stochastic differential equations on
//! block-decomposed structured grids.
//!
//! Heat transport, phase-field solidification and market making are *models* here, not
//! the framework: they are expressed against the same small set of traits.
//!
//! 1. **Mathematical objects own no execution.** A [`physics::model::Model`] spawns no
//!    threads, a [`geometry::grid::Grid`] writes no files, a
//!    [`discretization::stencil::Stencil`] allocates nothing.
//! 2. **Execution is scheduler-driven.** Everything runs because the
//!    [`engine::scheduler::Scheduler`] requests it, and no scheduler changes a result.
//! 3. **Storage is separate from views.** Fields are views into an
//!    [`engine::storage::StorageBackend`], allocated once, up front.
//! 4. **Numerical methods are policies.** A grid and a discretization policy yield
//!    stencils; models state *which* operators they need and never learn *how* they
//!    are realized.
//!
//! The unit of computation is the **block**, not the grid: a uniform grid is a
//! collection of equal blocks, and a refined one a collection of patches.
//!
//! All computation is generic over the number type, [`engine::storage::Real`], whose
//! operations the contracts speak of one by one. What holds only without rounding is
//! stated over [`engine::exact`] arithmetic.

pub mod discretization;
pub mod engine;
pub mod geometry;
pub mod integrators;
pub mod io;
pub mod physics;
pub mod util;
