//! Operators as mathematical tags; discretizations as policies.
//!
//! The universe of operators is *open*: each combination of policy, operator and
//! grid is a separate impl of [`Discretizes`]. A model states its requirements as
//! bounds and never learns which scheme satisfied them; there is no operator
//! registry and no dynamic dispatch.
//!
//! Operator tags may carry mathematical parameters but never numerical ones;
//! those belong to the policy.

use vstd::prelude::*;

use crate::discretization::stencil::Stencil;
use crate::engine::storage::Real;
use crate::geometry::grid::Grid;

verus! {

/// The Laplacian.
#[derive(Debug, Clone, Copy, Default)]
pub struct Laplacian;

/// The derivative along one axis: one component of the gradient.
#[derive(Debug, Clone, Copy)]
pub struct Gradient(pub usize);

/// The divergence of a face-flux function (the finite-volume workhorse).
#[derive(Debug, Clone, Copy, Default)]
pub struct Divergence;

/// The anisotropic surface-energy divergence of phase-field models: the
/// divergence of `A^2 grad(phi) - A A' perp(phi)`, with 4-fold anisotropy
/// `A(theta) = m (1 + d cos 4 theta)`, mean and depth given by the strength.
///
/// The anisotropy strength is a *mathematical* parameter, so it lives on the tag;
/// regularization thresholds are numerical and belong to the policy.
#[derive(Debug, Clone, Copy)]
pub struct AnisotropicDivergence<T> {
    /// 4-fold anisotropy strength.
    pub eps4: T,
}

/// A discretization policy that knows how to realize operator `Op` on grid `G` as
/// a concrete [`Stencil`].
pub trait Discretizes<T: Real, G: Grid<T, D>, Op, const D: usize>: Send + Sync {
    /// The stencil type realizing `Op` on `G` under this policy.
    type Stencil: Stencil<T, G, D>;

    /// The stencil this policy realizes `op` by.
    open spec fn built(&self, op: Op) -> Self::Stencil {
        arbitrary()
    }

    /// Build the stencil.
    fn build(&self, grid: &G, op: Op) -> (r: Self::Stencil)
        ensures
            r == self.built(op),
    ;
}

} // verus!
