//! The [`Model`] trait: dynamics as driver-indexed vector fields.
//!
//! A model is the system `dY = V_0(Y, t) dt + sum_j V_j(Y, t) dW_j`: a *family of
//! vector fields*, one per [`Driver`]. A deterministic system is the member of
//! the family without stochastic drivers, not a different kind of object.
//!
//! - A model evaluates the vector field conjugate to one driver into an output
//!   buffer and never mutates simulation state; the integrator owns state updates
//!   and the measure-correct scaling. Stochastic fields are evaluated at the
//!   pre-update state.
//! - The driver set is a type, so pairing a deterministic-only scheme with a
//!   stochastic model does not compile. Fields declare at registration which
//!   drivers move them, and per-driver buffers carry storage for exactly those.
//! - The scheduler drives the evaluation once per block; the model sees one
//!   block's output and the whole (read-only) state.
//! - Boundary conditions belong to the model: `fill_ghosts` runs once per
//!   evaluation over the whole state.
//!
//! Each method has a spec twin that says what it computes; a caller's contract
//! names the twins. The twins have default bodies, so that a model written in
//! ordinary Rust can supply the executable methods only: the fields as they are for
//! `filled`, `vector_field` and `projected`, no stiff part, no limit. A model that
//! overrides an executable method without its twin does not meet the contract, and
//! what is proved holds of it with the twin read as what the method does; a verified
//! model overrides both together.
use vstd::prelude::*;

use crate::engine::driver::{Driver, DriverSet};
use crate::engine::scratch::{Scratch, ScratchSpec};
use crate::engine::state::{
    allocated_on, interiors_fit, layout_fits, tailored, BlockStateMut, BlockValues, FieldHandle,
    FieldSpec, State, StateBuilder,
};
use crate::engine::storage::{Real, StorageBackend};
use crate::geometry::grid::{BlockId, Grid};
use crate::geometry::index::volume;

verus! {

/// Everything a model may consult while evaluating one block's vector field.
/// Deliberately read-only and allocation-free.
pub struct RhsContext<'a, T, G, P> {
    /// The grid the simulation runs on.
    pub grid: &'a G,
    /// The discretization policy (build stencils from it).
    pub disc: &'a P,
    /// The block being evaluated.
    pub block: BlockId,
    /// Evaluation time (the stage time for multi-stage schemes).
    pub t: T,
}

/// A system of differential equations, deterministic or stochastic; see the
/// module docs for the contract.
pub trait Model<T: Real, G: Grid<T, D>, P, const D: usize>: Send + Sync + Sized {
    /// The stochastic driver set of this model's dynamics (time is always
    /// implicit).
    type Drivers: DriverSet;

    /// The model, its fields not yet registered, can run on this grid under this
    /// policy.
    open spec fn accepts(&self, grid: &G, disc: &P) -> bool {
        true
    }

    /// The model, its fields registered in this layout, can run on this grid
    /// under this policy.
    open spec fn supports(&self, grid: &G, disc: &P, fields: Seq<FieldSpec>) -> bool {
        true
    }

    /// Registering the fields of this model leads to `after` and to this layout.
    open spec fn registers(&self, after: &Self, fields: Seq<FieldSpec>) -> bool {
        true
    }

    /// Scratch requirements on a grid.
    open spec fn scratch_of(&self, grid: &G) -> ScratchSpec {
        arbitrary()
    }

    /// The state with every ghost cell made consistent at time `t`.
    open spec fn filled(
        &self,
        grid: &G,
        fields: Seq<FieldSpec>,
        values: Seq<BlockValues<T>>,
        t: T,
    ) -> Seq<BlockValues<T>> {
        values
    }

    /// What evaluating the vector field conjugate to `driver` on block `b` makes
    /// of the output buffer.
    open spec fn vector_field(
        &self,
        driver: Driver,
        grid: &G,
        disc: &P,
        t: T,
        b: int,
        fields: Seq<FieldSpec>,
        values: Seq<BlockValues<T>>,
        out: BlockValues<T>,
    ) -> BlockValues<T> {
        out
    }

    /// The state with pointwise constraints enforced.
    open spec fn projected(
        &self,
        grid: &G,
        fields: Seq<FieldSpec>,
        values: Seq<BlockValues<T>>,
    ) -> Seq<BlockValues<T>> {
        values
    }

    /// The stiff rows of a field on a block, if it has a stiff part there.
    open spec fn stiff_part(&self, grid: &G, b: int, f: int) -> Option<Seq<[T; 3]>> {
        None
    }

    /// Stable timestep of the nonstiff remainder at a spacing.
    open spec fn nonstiff_limit(&self, spacing: [T; D]) -> Option<T> {
        None
    }

    /// Largest stable explicit timestep at a spacing.
    open spec fn explicit_limit(&self, spacing: [T; D]) -> Option<T> {
        None
    }

    /// Declare fields (name and ghost width = max stencil support) and stash the
    /// returned handles. Called exactly once, before allocation; the only
    /// mutating model method.
    fn register_fields(&mut self, builder: &mut StateBuilder<T>)
        requires
            old(builder).fields().len() == 0,
        ensures
            old(self).registers(final(self), final(builder).fields()),
            forall|grid: &G, disc: &P| #[trigger]
                old(self).accepts(grid, disc) ==> final(self).supports(
                    grid,
                    disc,
                    final(builder).fields(),
                ) && layout_fits::<T, G, D>(final(builder).fields(), grid) && interiors_fit::<
                    T,
                    G,
                    D,
                >(grid),
    ;

    /// Per-worker scratch requirements (block-sized slabs).
    fn scratch_spec(&self, grid: &G) -> (r: ScratchSpec)
        requires
            grid.valid(),
        ensures
            r == self.scratch_of(grid),
    ;

    /// Make every ghost cell of every field consistent: interior halos and
    /// physical boundary conditions. Called by the integrator before each
    /// evaluation sweep with the evaluation time `t` (stage time for multi-stage
    /// schemes), so time-dependent boundary forcing is expressible.
    fn fill_ghosts<S: StorageBackend<T>>(
        &self,
        grid: &G,
        disc: &P,
        state: &mut State<T, S>,
        t: T,
    )
        requires
            grid.valid(),
            self.supports(grid, disc, old(state).fields()),
            allocated_on::<T, T, G, D>(old(state).fields(), grid, old(state).values()),
        ensures
            final(state).fields() == old(state).fields(),
            final(state).values() == self.filled(
                grid,
                old(state).fields(),
                old(state).values(),
                t,
            ),
            allocated_on::<T, T, G, D>(old(state).fields(), grid, final(state).values()),
    ;

    /// Evaluate the vector field conjugate to `driver` on one block into `out`,
    /// reading the ghost-filled `state`.
    ///
    /// For [`Driver::Time`], write dY/dt into the interior cells of every
    /// time-driven field (`out` arrives with unspecified contents). For a
    /// [`Driver::Wiener`] driver, write the *amplitude* into the interior cells of
    /// the fields registered as driven by it (`out` arrives zeroed and carries
    /// storage only for those fields). For a [`Driver::Jump`] driver, write the
    /// per-field *increment* into those same slabs **and** the per-cell firing
    /// intensity into the intensity slab. The conversion of rates to
    /// probabilities is the driver kernel's, never the model's.
    fn vector_field_block<S: StorageBackend<T>>(
        &self,
        driver: Driver,
        ctx: &RhsContext<'_, T, G, P>,
        state: &State<T, S>,
        out: &mut BlockStateMut<'_, T, S>,
        scratch: &mut Scratch<T, S>,
    )
        requires
            ctx.grid.valid(),
            ctx.block.id() < ctx.grid.blocks(),
            self.supports(ctx.grid, ctx.disc, state.fields()),
            allocated_on::<T, T, G, D>(state.fields(), ctx.grid, state.values()),
            old(out).layout.fields() == state.fields(),
            tailored(
                state.fields(),
                ctx.grid.extent_of(ctx.block.id()),
                driver,
                old(out).storage.values(),
            ),
            old(scratch).meets(self.scratch_of(ctx.grid)),
            driver is Time || exists|i: int|
                0 <= i < Self::Drivers::size() && driver == #[trigger] Self::Drivers::member(i),
        ensures
            final(out).storage.values() == self.vector_field(
                driver,
                ctx.grid,
                ctx.disc,
                ctx.t,
                ctx.block.id(),
                state.fields(),
                state.values(),
                old(out).storage.values(),
            ),
            tailored(
                state.fields(),
                ctx.grid.extent_of(ctx.block.id()),
                driver,
                final(out).storage.values(),
            ),
            *final(final(out).storage) == *final(old(out).storage),
    ;

    /// Enforce pointwise state constraints after each completed step (e.g.
    /// positivity of a variance, clamping an order parameter). Called by the
    /// simulation over the whole state between the integrator update and observer
    /// notification: once per step, *after* the full advance, so under subcycling
    /// it sees the synchronized state. Multi-stage intermediate states are never
    /// projected.
    fn project<S: StorageBackend<T>>(&self, grid: &G, disc: &P, state: &mut State<T, S>)
        requires
            grid.valid(),
            self.supports(grid, disc, old(state).fields()),
            allocated_on::<T, T, G, D>(old(state).fields(), grid, old(state).values()),
        ensures
            final(state).fields() == old(state).fields(),
            final(state).values() == self.projected(
                grid,
                old(state).fields(),
                old(state).values(),
            ),
            allocated_on::<T, T, G, D>(old(state).fields(), grid, final(state).values()),
    ;

    /// The stiff linear tridiagonal part (along dimension 0) of this model's time
    /// vector field on one block of `field`: row `i` holds the coefficients of the
    /// lower neighbor, the cell and the upper neighbor.
    ///
    /// Write one row per interior cell into `rows` and return `true`. Rows at
    /// *physical domain boundaries* must fold the model's boundary condition into
    /// the coefficients: the implicit solve sees no ghosts. Returning `false`
    /// declares the field has no stiff part there.
    fn stiff_rows(
        &self,
        grid: &G,
        disc: &P,
        block: BlockId,
        field: FieldHandle<T>,
        rows: &mut [[T; 3]],
    ) -> (r: bool)
        requires
            grid.valid(),
            block.id() < grid.blocks(),
            interiors_fit::<T, G, D>(grid),
            old(rows)@.len() == volume(grid.extent_of(block.id())),
        ensures
            final(rows)@.len() == old(rows)@.len(),
            r <==> self.stiff_part(grid, block.id(), field.pos()) is Some,
            self.stiff_part(grid, block.id(), field.pos()) matches Some(s) ==> final(rows)@ == s,
    ;

    /// Stable timestep of the **nonstiff remainder** alone: the bound an
    /// implicit-explicit scheme must respect once the stiff part is integrated
    /// implicitly.
    fn stable_dt_nonstiff(&self, spacing: [T; D]) -> (r: Option<T>)
        ensures
            r == self.nonstiff_limit(spacing),
    ;

    /// Largest stable explicit timestep for a cell of the given `spacing`, if the
    /// model knows one.
    ///
    /// A *pure function of spacing*, so an integrator can evaluate it at whichever
    /// resolution it needs: the finest cell for a global-step scheme, or per level
    /// for subcycling, where the ratio of the limits gives the substep count
    /// directly. Advisory; drivers may use it to pick the step.
    fn stable_dt(&self, spacing: [T; D]) -> (r: Option<T>)
        ensures
            r == self.explicit_limit(spacing),
    ;
}

} // verus!
