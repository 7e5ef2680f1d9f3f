//! The simulation loop and its adaptivity policy.
use vstd::prelude::*;

use crate::engine::driver::DriverSet;
use crate::engine::exact::exact;
use crate::engine::observer::{Observer, Sighting};
use crate::engine::scheduler::Scheduler;
use crate::engine::scratch::ScratchPool;
use crate::engine::state::{
    all_values, allocated_on, fresh_block, full_block, interiors_fit, layout_fits, tailored,
    BlockValues, FieldSpec, State, StateBuilder,
};
use crate::engine::storage::{Allocator, Real, StorageBackend};
use crate::geometry::grid::{ghosted, Grid};
use crate::geometry::index::volume;
use crate::integrators::scheme::{
    stage_ready, stages_ready, Advanced, Integrator, StageKind, StepCtx,
};
use crate::physics::model::Model;

verus! {

/// An adaptivity policy: decides whether and how to rebuild the grid.
///
/// All refinement knowledge (tagging, clustering, nesting, state migration)
/// lives in implementations of this trait, none in the simulation: `regrid`
/// returns the new grid **and the already migrated state**, so the simulation
/// only swaps values and rebuilds its stage buffers. `state` is borrowed mutably
/// so policies may make it consistent (restriction, ghost fills) before tagging;
/// the returned state replaces it either way.
pub trait Adapt<G: Grid<T, D>, T: Real, S: StorageBackend<T>, A, const D: usize>: Sized {
    /// The policy can serve states of this layout over the grid.
    open spec fn admits(&self, grid: &G, fields: Seq<FieldSpec>) -> bool {
        true
    }

    /// Grids that the policy may replace a grid by.
    open spec fn leads_to(from: G, to: G) -> bool {
        true
    }

    /// What a consultation may lead to: the policy afterwards, the new grid and
    /// its contents (if any), and what is left in the old state.
    open spec fn outcome(
        self,
        after: Self,
        grid: &G,
        fields: Seq<FieldSpec>,
        before: Seq<BlockValues<T>>,
        step: u64,
        result: Option<(G, Seq<BlockValues<T>>)>,
        left: Seq<BlockValues<T>>,
    ) -> bool {
        true
    }

    /// Called at the top of every step with the number of completed steps.
    /// `None` means keep stepping on the current grid.
    fn regrid(&mut self, grid: &G, state: &mut State<T, S>, alloc: &A, step: u64) -> (r: Option<
        (G, State<T, S>),
    >)
        requires
            grid.valid(),
            allocated_on::<T, T, G, D>(old(state).fields(), grid, old(state).values()),
            old(self).admits(grid, old(state).fields()),
        ensures
            final(state).fields() == old(state).fields(),
            allocated_on::<T, T, G, D>(old(state).fields(), grid, final(state).values()),
            (r is None ==> final(self).admits(grid, old(state).fields())),
            (r matches Some((new_grid, new_state)) ==> new_grid.valid() && new_state.fields()
                == old(state).fields() && allocated_on::<T, T, G, D>(
                old(state).fields(),
                &new_grid,
                new_state.values(),
            ) && final(self).admits(&new_grid, old(state).fields()) && Self::leads_to(
                *grid,
                new_grid,
            ) && forall|other: G| #[trigger]
                Self::leads_to(new_grid, other) ==> Self::leads_to(*grid, other)),
            old(self).outcome(
                *final(self),
                grid,
                old(state).fields(),
                old(state).values(),
                step,
                regrid_view(r),
                final(state).values(),
            ),
    ;
}

/// A regrid result as grid and contents.
pub open spec fn regrid_view<G, T: Real, S: StorageBackend<T>>(
    r: Option<(G, State<T, S>)>,
) -> Option<(G, Seq<BlockValues<T>>)> {
    match r {
        Some((grid, state)) => Some((grid, state.values())),
        None => None,
    }
}

/// The default policy: never adapts.
#[derive(Debug, Clone, Copy)]
pub struct Static;

impl Default for Static {
    fn default() -> (r: Self) {
        Static
    }
}

impl<G: Grid<T, D>, T: Real, S: StorageBackend<T>, A, const D: usize> Adapt<
    G,
    T,
    S,
    A,
    D,
> for Static {
    open spec fn admits(&self, grid: &G, fields: Seq<FieldSpec>) -> bool {
        true
    }

    open spec fn leads_to(from: G, to: G) -> bool {
        false
    }

    open spec fn outcome(
        self,
        after: Self,
        grid: &G,
        fields: Seq<FieldSpec>,
        before: Seq<BlockValues<T>>,
        step: u64,
        result: Option<(G, Seq<BlockValues<T>>)>,
        left: Seq<BlockValues<T>>,
    ) -> bool {
        result is None && left == before
    }

    fn regrid(&mut self, grid: &G, state: &mut State<T, S>, alloc: &A, step: u64) -> (r: Option<
        (G, State<T, S>),
    >) {
        None
    }
}

/// Every stochastic driver of the set moves some field.
pub open spec fn drivers_used<N: DriverSet>(fields: Seq<FieldSpec>) -> bool {
    forall|i: int|
        0 <= i < N::size() ==> exists|f: int|
            0 <= f < fields.len() && (#[trigger] fields[f]).moved_by(#[trigger] N::member(i))
}

/// Model, scheme and policy can work together on states of this layout, on this
/// grid and on any grid the policy may lead to.
pub open spec fn compatible<
    T: Real,
    G: Grid<T, D>,
    P: Sync,
    M: Model<T, G, P, D>,
    I: Integrator<T, G, P, M, D>,
    S: StorageBackend<T>,
    A,
    R: Adapt<G, T, S, A, D>,
    const D: usize,
>(model: &M, integrator: &I, adapt: &R, grid: &G, disc: &P, fields: Seq<FieldSpec>) -> bool {
    &&& drivers_used::<M::Drivers>(fields)
    &&& model.supports(grid, disc, fields)
    &&& integrator.admits(model, grid, fields)
    &&& adapt.admits(grid, fields)
    &&& forall|other: G| #[trigger]
        R::leads_to(*grid, other) ==> model.supports(&other, disc, fields) && integrator.admits(
            model,
            &other,
            fields,
        )
}

/// A freshly allocated stage buffer.
pub open spec fn fresh_stage<T: Real, G: Grid<T, D>, const D: usize>(
    kind: StageKind,
    fields: Seq<FieldSpec>,
    grid: &G,
) -> Seq<BlockValues<T>> {
    Seq::new(
        grid.blocks(),
        |b: int|
            fresh_block::<T>(
                fields,
                grid.extent_of(b),
                match kind {
                    StageKind::Tendency(driver) => Some(driver),
                    StageKind::State => None,
                },
            ),
    )
}

/// Freshly allocated stage buffers.
pub open spec fn fresh_stages<T: Real, G: Grid<T, D>, const D: usize>(
    kinds: Seq<StageKind>,
    fields: Seq<FieldSpec>,
    grid: &G,
) -> Seq<Seq<BlockValues<T>>> {
    Seq::new(kinds.len(), |i: int| fresh_stage::<T, G, D>(kinds[i], fields, grid))
}

/// Sole owner of every simulation component.
///
/// Construction is the one place allocation happens: field registration, state
/// build, stage buffers. A step then delegates: the integrator drives the model
/// through the scheduler; observers are notified after the state update.
#[verifier::reject_recursive_types(T)]
#[verifier::reject_recursive_types(G)]
#[verifier::reject_recursive_types(A)]
pub struct Simulation<T: Real, G, P, M, I, Sch, A: Allocator<T>, R, const D: usize> {
    adapt: R,
    grid: G,
    disc: P,
    model: M,
    integrator: I,
    scheduler: Sch,
    alloc: A,
    state: State<T, A::Storage>,
    stages: Vec<State<T, A::Storage>>,
    pool: ScratchPool<T, A::Storage>,
    observers: Vec<Box<dyn Observer<G, T, A::Storage>>>,
    t: T,
    step_index: u64,
    epoch: u64,
}

impl<T: Real, G, P, M, I, Sch, A: Allocator<T>, R, const D: usize> Simulation<
    T,
    G,
    P,
    M,
    I,
    Sch,
    A,
    R,
    D,
> {
    /// The current grid.
    pub closed spec fn mesh(&self) -> G {
        self.grid
    }

    /// The discretization policy.
    pub closed spec fn policy(&self) -> P {
        self.disc
    }

    /// The model being integrated.
    pub closed spec fn dynamics(&self) -> M {
        self.model
    }

    /// The time-integration scheme.
    pub closed spec fn scheme(&self) -> I {
        self.integrator
    }

    /// The adaptivity policy.
    pub closed spec fn adaptivity(&self) -> R {
        self.adapt
    }

    /// The layout of the state.
    pub closed spec fn fields(&self) -> Seq<FieldSpec> {
        self.state.fields()
    }

    /// The contents of the state.
    pub closed spec fn values(&self) -> Seq<BlockValues<T>> {
        self.state.values()
    }

    /// The contents of the stage buffers.
    pub closed spec fn buffers(&self) -> Seq<Seq<BlockValues<T>>> {
        all_values(self.stages@)
    }

    /// Current simulation time.
    pub closed spec fn now(&self) -> T {
        self.t
    }

    /// Number of completed steps.
    pub closed spec fn steps(&self) -> u64 {
        self.step_index
    }

    /// Grid generation.
    pub closed spec fn generation(&self) -> u64 {
        self.epoch
    }

    /// The attached observers, in the order they are notified.
    pub closed spec fn audience(&self) -> Seq<Box<dyn Observer<G, T, A::Storage>>> {
        self.observers@
    }

    /// What observers are shown now.
    pub open spec fn scene(&self) -> Sighting<G, T> {
        Sighting {
            step: self.steps(),
            t: self.now(),
            epoch: self.generation(),
            grid: self.mesh(),
            fields: self.fields(),
            values: self.values(),
        }
    }

    /// Every observer of `before` is still attached, in its place, and has been
    /// shown the scene of `self` once.
    pub open spec fn shown_since(&self, before: &Self) -> bool {
        &&& self.audience().len() == before.audience().len()
        &&& forall|i: int|
            0 <= i < self.audience().len() ==> (#[trigger] self.audience()[i]).memory()
                == before.audience()[i].recalls(self.scene())
    }

    /// Everything but the state and the observers is as before.
    pub open spec fn same_setup(&self, other: &Self) -> bool {
        &&& self.mesh() == other.mesh()
        &&& self.policy() == other.policy()
        &&& self.dynamics() == other.dynamics()
        &&& self.scheme() == other.scheme()
        &&& self.adaptivity() == other.adaptivity()
        &&& self.buffers() == other.buffers()
        &&& self.now() == other.now()
        &&& self.steps() == other.steps()
        &&& self.generation() == other.generation()
    }
}

/// Allocate the integrator's stage buffers for `state` on `grid`: used at
/// construction and again after every regrid.
fn build_stages<
    T: Real,
    G: Grid<T, D>,
    P: Sync,
    M: Model<T, G, P, D>,
    I: Integrator<T, G, P, M, D>,
    A: Allocator<T>,
    const D: usize,
>(
    integrator: &I,
    state: &State<T, A::Storage>,
    grid: &G,
    alloc: &A,
) -> (r: Vec<State<T, A::Storage>>)
    requires
        grid.valid(),
        layout_fits::<T, G, D>(state.fields(), grid),
        interiors_fit::<T, G, D>(grid),
    ensures
        stages_ready::<T, G, A::Storage, D>(
            integrator.stages_of(grid),
            state.fields(),
            grid,
            r@,
        ),
        all_values(r@) == fresh_stages::<T, G, D>(
            integrator.stages_of(grid),
            state.fields(),
            grid,
        ),
{
    let ghost fields = state.fields();
    let layout = integrator.stage_layout(grid);
    let ghost kinds = layout.stages@;
    let n = layout.stages.len();
    let mut out: Vec<State<T, A::Storage>> = Vec::new();
    let mut i: usize = 0;
    while i < n
        invariant
            i <= n,
            n == kinds.len(),
            kinds == layout.stages@,
            grid.valid(),
            layout_fits::<T, G, D>(fields, grid),
            interiors_fit::<T, G, D>(grid),
            fields == state.fields(),
            out@.len() == i,
            forall|j: int|
                0 <= j < i ==> (#[trigger] out@[j]).fields() == fields && out@[j].values()
                    == fresh_stage::<T, G, D>(kinds[j], fields, grid),
        decreases n - i,
    {
        let stage = match layout.stages[i] {
            StageKind::Tendency(driver) => state.like_for(grid, alloc, driver),
            StageKind::State => state.like(grid, alloc),
        };
        proof {
            assert(stage.values() =~= fresh_stage::<T, G, D>(kinds[i as int], fields, grid));
        }
        out.push(stage);
        i += 1;
    }
    proof {
        assert forall|j: int| 0 <= j < out@.len() implies (#[trigger] out@[j]).fields() == fields
            && stage_ready::<T, G, D>(kinds[j], fields, grid, out@[j].values()) by {
            lemma_fresh_stage_ready::<T, G, D>(kinds[j], fields, grid);
        }
        assert(all_values(out@) =~= fresh_stages::<T, G, D>(kinds, fields, grid));
    }
    out
}

/// A freshly allocated buffer is what the scheme asked for.
proof fn lemma_fresh_stage_ready<T: Real, G: Grid<T, D>, const D: usize>(
    kind: StageKind,
    fields: Seq<FieldSpec>,
    grid: &G,
)
    requires
        grid.valid(),
        layout_fits::<T, G, D>(fields, grid),
        interiors_fit::<T, G, D>(grid),
    ensures
        stage_ready::<T, G, D>(kind, fields, grid, fresh_stage::<T, G, D>(kind, fields, grid)),
{
    let v = fresh_stage::<T, G, D>(kind, fields, grid);
    grid.lemma_blocks();
    assert forall|b: int| 0 <= b < v.len() implies (match kind {
        StageKind::Tendency(driver) => tailored(
            fields,
            grid.extent_of(b),
            driver,
            #[trigger] v[b],
        ),
        StageKind::State => full_block(fields, grid.extent_of(b), v[b]),
    }) by {
        let ext = grid.extent_of(b);
        crate::geometry::index::lemma_volume_positive(ext);
        assert forall|f: int| 0 <= f < fields.len() implies volume(
            ghosted(ext, (#[trigger] fields[f]).halo as int),
        ) >= 1 by {
            crate::geometry::grid::lemma_ghosted_positive(ext, fields[f].halo as int);
            crate::geometry::index::lemma_volume_positive(ghosted(ext, fields[f].halo as int));
        }
    }
}

impl<
    T: Real,
    G: Grid<T, D>,
    P: Sync,
    M: Model<T, G, P, D>,
    I: Integrator<T, G, P, M, D>,
    Sch: Scheduler,
    A: Allocator<T>,
    R: Adapt<G, T, A::Storage, A, D>,
    const D: usize,
> Simulation<T, G, P, M, I, Sch, A, R, D> {
    /// The components fit together: the state is allocated on the grid, the
    /// buffers are what the scheme asked for, and model, scheme and policy can go
    /// on.
    pub closed spec fn ready(&self) -> bool {
        &&& self.grid.valid()
        &&& compatible::<T, G, P, M, I, A::Storage, A, R, D>(
            &self.model,
            &self.integrator,
            &self.adapt,
            &self.grid,
            &self.disc,
            self.state.fields(),
        )
        &&& allocated_on::<T, T, G, D>(self.state.fields(), &self.grid, self.state.values())
        &&& stages_ready::<T, G, A::Storage, D>(
            self.integrator.stages_of(&self.grid),
            self.state.fields(),
            &self.grid,
            self.stages@,
        )
        &&& self.pool.spec() == self.model.scratch_of(&self.grid)
    }

    /// The state of a simulation is allocated on its grid.
    pub proof fn lemma_ready(&self)
        requires
            self.ready(),
        ensures
            self.mesh().valid(),
            self.dynamics().supports(&self.mesh(), &self.policy(), self.fields()),
            allocated_on::<T, T, G, D>(self.fields(), &self.mesh(), self.values()),
    {
    }

    /// A simulation with an adaptivity policy consulted at the top of every step;
    /// on a regrid the policy's migrated state replaces the current one and stage
    /// buffers and scratch are reallocated (the only allocating path after
    /// construction, amortized over the regrid interval).
    pub fn adaptive(
        grid: G,
        disc: P,
        model: M,
        integrator: I,
        scheduler: Sch,
        alloc: A,
        adapt: R,
    ) -> (r: Self)
        requires
            grid.valid(),
            model.accepts(&grid, &disc),
            forall|m: M, fields: Seq<FieldSpec>|
                model.registers(&m, fields) && #[trigger] m.supports(&grid, &disc, fields)
                    ==> compatible::<T, G, P, M, I, A::Storage, A, R, D>(
                    &m,
                    &integrator,
                    &adapt,
                    &grid,
                    &disc,
                    fields,
                ),
        ensures
            r.ready(),
            r.mesh() == grid,
            r.policy() == disc,
            r.scheme() == integrator,
            r.adaptivity() == adapt,
            model.registers(&r.dynamics(), r.fields()),
            r.dynamics().supports(&grid, &disc, r.fields()),
            r.values() == fresh_stage::<T, G, D>(StageKind::State, r.fields(), &grid),
            r.buffers() == fresh_stages::<T, G, D>(
                integrator.stages_of(&grid),
                r.fields(),
                &grid,
            ),
            r.now() == T::zero_spec(),
            r.steps() == 0,
            r.generation() == 0,
            r.audience() == Seq::<Box<dyn Observer<G, T, A::Storage>>>::empty(),
    {
        let ghost bare = model;
        let mut model = model;
        let mut builder: StateBuilder<T> = StateBuilder::new();
        model.register_fields(&mut builder);
        let ghost fields = builder.fields();
        proof {
            assert(bare.registers(&model, fields));
            assert(model.supports(&grid, &disc, fields));
        }
        let state = builder.build(&grid, &alloc);
        let stages = build_stages::<T, G, P, M, I, A, D>(&integrator, &state, &grid, &alloc);
        let pool = ScratchPool::allocate(
            model.scratch_spec(&grid),
            &alloc,
            scheduler.max_concurrency(),
        );
        proof {
            lemma_fresh_stage_ready::<T, G, D>(StageKind::State, fields, &grid);
            assert(state.values() =~= fresh_stage::<T, G, D>(StageKind::State, fields, &grid));
        }
        Simulation {
            adapt,
            grid,
            disc,
            model,
            integrator,
            scheduler,
            alloc,
            state,
            stages,
            pool,
            observers: Vec::new(),
            t: T::zero(),
            step_index: 0,
            epoch: 0,
        }
    }

    /// Register an observer to be notified after every completed step with the
    /// current grid and epoch.
    pub fn attach_observer(&mut self, observer: Box<dyn Observer<G, T, A::Storage>>)
        requires
            old(self).ready(),
        ensures
            final(self).ready(),
            final(self).same_setup(old(self)),
            final(self).fields() == old(self).fields(),
            final(self).values() == old(self).values(),
            final(self).audience() == old(self).audience().push(observer),
    {
        self.observers.push(observer);
    }

    /// Grid generation: 0 at construction, +1 per adaptive regrid.
    pub fn epoch(&self) -> (r: u64)
        ensures
            r == self.generation(),
    {
        self.epoch
    }

    /// The grid this simulation runs on.
    pub fn grid(&self) -> (r: &G)
        ensures
            *r == self.mesh(),
    {
        &self.grid
    }

    /// The model being integrated.
    pub fn model(&self) -> (r: &M)
        ensures
            *r == self.dynamics(),
    {
        &self.model
    }

    /// Current simulation time.
    pub fn time(&self) -> (r: T)
        ensures
            r == self.now(),
    {
        self.t
    }

    /// Number of completed steps.
    pub fn step_index(&self) -> (r: u64)
        ensures
            r == self.steps(),
    {
        self.step_index
    }

    /// Read access to state (observers, checks).
    pub fn state(&self) -> (r: &State<T, A::Storage>)
        ensures
            r.fields() == self.fields(),
            r.values() == self.values(),
    {
        &self.state
    }

    /// Mutable state access for setting initial conditions before stepping.
    pub fn state_mut(&mut self) -> (r: (&G, &mut State<T, A::Storage>))
        requires
            old(self).ready(),
        ensures
            *r.0 == old(self).mesh(),
            r.1.fields() == old(self).fields(),
            r.1.values() == old(self).values(),
            final(self).same_setup(old(self)),
            final(self).fields() == final(r.1).fields(),
            final(self).values() == final(r.1).values(),
            final(self).audience() == old(self).audience(),
            final(r.1).fields() == old(self).fields() && allocated_on::<T, T, G, D>(
                old(self).fields(),
                &old(self).mesh(),
                final(r.1).values(),
            ) ==> final(self).ready(),
    {
        (&self.grid, &mut self.state)
    }

    /// Congruent, zeroed state buffers for observers' snapshot rings.
    pub fn snapshot_buffers(&self, n: usize) -> (r: Vec<State<T, A::Storage>>)
        requires
            self.ready(),
        ensures
            r@.len() == n,
            forall|i: int|
                0 <= i < n ==> (#[trigger] r@[i]).fields() == self.fields() && r@[i].values()
                    == fresh_stage::<T, G, D>(StageKind::State, self.fields(), &self.mesh()),
    {
        let mut out: Vec<State<T, A::Storage>> = Vec::new();
        while out.len() < n
            invariant
                self.ready(),
                out@.len() <= n,
                forall|i: int|
                    0 <= i < out@.len() ==> (#[trigger] out@[i]).fields() == self.fields()
                        && out@[i].values() == fresh_stage::<T, G, D>(
                        StageKind::State,
                        self.fields(),
                        &self.mesh(),
                    ),
            decreases n - out.len(),
        {
            let b = self.state.like(&self.grid, &self.alloc);
            proof {
                assert(b.values() =~= fresh_stage::<T, G, D>(
                    StageKind::State,
                    self.fields(),
                    &self.mesh(),
                ));
            }
            out.push(b);
        }
        out
    }

    /// The step size the integrator suggests for the model on this grid, if the
    /// model declares a stability limit.
    pub fn stable_dt(&self) -> (r: Option<T>)
        requires
            self.ready(),
        ensures
            r == self.scheme().suggested(&self.dynamics(), &self.mesh()),
    {
        self.integrator.suggested_dt(&self.model, &self.grid)
    }
}

/// What one integrator step and the model's projection make of a state and its
/// stage buffers.
pub open spec fn integrated<
    T: Real,
    G: Grid<T, D>,
    P: Sync,
    M: Model<T, G, P, D>,
    I: Integrator<T, G, P, M, D>,
    const D: usize,
>(
    model: &M,
    integrator: &I,
    grid: &G,
    disc: &P,
    fields: Seq<FieldSpec>,
    state: Seq<BlockValues<T>>,
    stages: Seq<Seq<BlockValues<T>>>,
    t: T,
    dt: T,
) -> Advanced<T> {
    let next = integrator.advanced(model, grid, disc, fields, state, stages, t, dt);
    Advanced { state: model.projected(grid, fields, next.state), stages: next.stages }
}

impl<
    T: Real,
    G: Grid<T, D>,
    P: Sync,
    M: Model<T, G, P, D>,
    I: Integrator<T, G, P, M, D>,
    Sch: Scheduler,
    A: Allocator<T>,
    R: Adapt<G, T, A::Storage, A, D>,
    const D: usize,
> Simulation<T, G, P, M, I, Sch, A, R, D> {
    /// One step leads from `self` to `after`, the adaptivity policy having
    /// decided on `regrid` and left `left` in the old state: without a regrid the
    /// step continues on the current grid and buffers, after one it starts on the
    /// new grid, the migrated state and fresh buffers.
    pub open spec fn steps_to(
        &self,
        after: &Self,
        dt: T,
        regrid: Option<(G, Seq<BlockValues<T>>)>,
        left: Seq<BlockValues<T>>,
    ) -> bool {
        let fields = self.fields();
        &&& self.adaptivity().outcome(
            after.adaptivity(),
            &self.mesh(),
            fields,
            self.values(),
            self.steps(),
            regrid,
            left,
        )
        &&& after.policy() == self.policy()
        &&& after.dynamics() == self.dynamics()
        &&& after.scheme() == self.scheme()
        &&& after.fields() == fields
        &&& after.now() == self.now().add_spec(dt)
        &&& after.steps() == self.steps() + 1
        &&& match regrid {
            None => {
                &&& after.mesh() == self.mesh()
                &&& after.generation() == self.generation()
                &&& (Advanced { state: after.values(), stages: after.buffers() }) == integrated::<
                    T,
                    G,
                    P,
                    M,
                    I,
                    D,
                >(
                    &self.dynamics(),
                    &self.scheme(),
                    &self.mesh(),
                    &self.policy(),
                    fields,
                    left,
                    self.buffers(),
                    self.now(),
                    dt,
                )
            },
            Some((grid, values)) => {
                &&& after.mesh() == grid
                &&& after.generation() == self.generation() + 1
                &&& (Advanced { state: after.values(), stages: after.buffers() }) == integrated::<
                    T,
                    G,
                    P,
                    M,
                    I,
                    D,
                >(
                    &self.dynamics(),
                    &self.scheme(),
                    &grid,
                    &self.policy(),
                    fields,
                    values,
                    fresh_stages::<T, G, D>(self.scheme().stages_of(&grid), fields, &grid),
                    self.now(),
                    dt,
                )
            },
        }
    }

    /// Advance one step of size `dt`, project the state, then notify observers.
    /// Consults the adaptivity policy first; a regrid swaps grid and state and
    /// rebuilds stage buffers and scratch before stepping.
    pub fn step(&mut self, dt: T)
        requires
            old(self).ready(),
            old(self).steps() < u64::MAX,
            old(self).generation() < u64::MAX,
        ensures
            final(self).ready(),
            exists|regrid: Option<(G, Seq<BlockValues<T>>)>, left: Seq<BlockValues<T>>| #[trigger]
                old(self).steps_to(final(self), dt, regrid, left),
            final(self).shown_since(old(self)),
    {
        let ghost fields = self.state.fields();
        let r = self.adapt.regrid(&self.grid, &mut self.state, &self.alloc, self.step_index);
        let ghost regrid = regrid_view(r);
        let ghost left = self.state.values();
        if let Some((grid, state)) = r {
            self.grid = grid;
            self.state = state;
            self.epoch = self.epoch + 1;
            self.stages = build_stages::<T, G, P, M, I, A, D>(
                &self.integrator,
                &self.state,
                &self.grid,
                &self.alloc,
            );
            self.pool = ScratchPool::allocate(
                self.model.scratch_spec(&self.grid),
                &self.alloc,
                self.scheduler.max_concurrency(),
            );
        }
        let ctx = StepCtx {
            model: &self.model,
            grid: &self.grid,
            disc: &self.disc,
            scheduler: &self.scheduler,
            pool: &self.pool,
            alloc: &self.alloc,
        };
        self.integrator.step(&ctx, &mut self.state, self.stages.as_mut_slice(), self.t, dt);
        self.model.project(&self.grid, &self.disc, &mut self.state);
        self.t = self.t.add(dt);
        self.step_index = self.step_index + 1;
        self.notify();
        proof {
            assert(old(self).steps_to(self, dt, regrid, left));
        }
    }

    /// Hand the current grid and state to every observer, in order.
    fn notify(&mut self)
        requires
            old(self).ready(),
        ensures
            final(self).ready(),
            final(self).same_setup(old(self)),
            final(self).fields() == old(self).fields(),
            final(self).values() == old(self).values(),
            final(self).shown_since(old(self)),
    {
        let ghost start = *self;
        let n = self.observers.len();
        let mut i: usize = 0;
        while i < n
            invariant
                i <= n,
                n == self.observers@.len(),
                start.ready(),
                self.ready(),
                self.same_setup(&start),
                self.fields() == start.fields(),
                self.values() == start.values(),
                self.audience().len() == start.audience().len(),
                self.scene() == start.scene(),
                forall|j: int|
                    0 <= j < i ==> (#[trigger] self.audience()[j]).memory()
                        == start.audience()[j].recalls(start.scene()),
                forall|j: int|
                    i <= j < n ==> #[trigger] self.audience()[j] == start.audience()[j],
            decreases n - i,
        {
            self.observers[i].observe(
                self.step_index,
                self.t,
                self.epoch,
                &self.grid,
                &self.state,
            );
            i += 1;
        }
    }
}

/// Two simulations of the same dynamics, on the same grid and from the same state,
/// agree bit for bit after a step, whatever schedulers run them, in whatever order
/// and on however many workers.
pub proof fn steps_do_not_depend_on_the_scheduler<
    T: Real,
    G: Grid<T, D>,
    P: Sync,
    M: Model<T, G, P, D>,
    I: Integrator<T, G, P, M, D>,
    Sch1: Scheduler,
    Sch2: Scheduler,
    A1: Allocator<T>,
    A2: Allocator<T>,
    const D: usize,
>(
    a: &Simulation<T, G, P, M, I, Sch1, A1, Static, D>,
    a_after: &Simulation<T, G, P, M, I, Sch1, A1, Static, D>,
    b: &Simulation<T, G, P, M, I, Sch2, A2, Static, D>,
    b_after: &Simulation<T, G, P, M, I, Sch2, A2, Static, D>,
    dt: T,
    a_regrid: Option<(G, Seq<BlockValues<T>>)>,
    b_regrid: Option<(G, Seq<BlockValues<T>>)>,
    a_left: Seq<BlockValues<T>>,
    b_left: Seq<BlockValues<T>>,
)
    requires
        a.mesh() == b.mesh(),
        a.policy() == b.policy(),
        a.dynamics() == b.dynamics(),
        a.scheme() == b.scheme(),
        a.fields() == b.fields(),
        a.values() == b.values(),
        a.buffers() == b.buffers(),
        a.now() == b.now(),
        a.steps_to(a_after, dt, a_regrid, a_left),
        b.steps_to(b_after, dt, b_regrid, b_left),
    ensures
        a_after.mesh() == b_after.mesh(),
        a_after.values() == b_after.values(),
        a_after.buffers() == b_after.buffers(),
        a_after.now() == b_after.now(),
{
}

impl<
    T: Real,
    G: Grid<T, D>,
    P: Sync,
    M: Model<T, G, P, D>,
    I: Integrator<T, G, P, M, D>,
    Sch: Scheduler,
    A: Allocator<T>,
    const D: usize,
> Simulation<T, G, P, M, I, Sch, A, Static, D> {
    /// A non-adaptive simulation (the [`Static`] policy): register the model's
    /// fields, allocate state and stage buffers, and assemble.
    pub fn new(
        grid: G,
        disc: P,
        model: M,
        integrator: I,
        scheduler: Sch,
        alloc: A,
    ) -> (r: Self)
        requires
            grid.valid(),
            model.accepts(&grid, &disc),
            forall|m: M, fields: Seq<FieldSpec>|
                model.registers(&m, fields) && #[trigger] m.supports(&grid, &disc, fields)
                    ==> compatible::<T, G, P, M, I, A::Storage, A, Static, D>(
                    &m,
                    &integrator,
                    &Static,
                    &grid,
                    &disc,
                    fields,
                ),
        ensures
            r.ready(),
            r.mesh() == grid,
            r.policy() == disc,
            r.scheme() == integrator,
            model.registers(&r.dynamics(), r.fields()),
            r.dynamics().supports(&grid, &disc, r.fields()),
            r.values() == fresh_stage::<T, G, D>(StageKind::State, r.fields(), &grid),
            r.buffers() == fresh_stages::<T, G, D>(
                integrator.stages_of(&grid),
                r.fields(),
                &grid,
            ),
            r.now() == T::zero_spec(),
            r.steps() == 0,
            r.generation() == 0,
            r.audience() == Seq::<Box<dyn Observer<G, T, A::Storage>>>::empty(),
    {
        Self::adaptive(grid, disc, model, integrator, scheduler, alloc, Static)
    }
}

/// In exact arithmetic a step advances the clock by its size and the count by one, and
/// leaves model, scheme, policy and fields as they were; only a regrid changes the grid,
/// and it counts as one generation.
pub proof fn steps_advance_the_clock<
    T: Real,
    G: Grid<T, D>,
    P: Sync,
    M: Model<T, G, P, D>,
    I: Integrator<T, G, P, M, D>,
    Sch: Scheduler,
    A: Allocator<T>,
    R: Adapt<G, T, A::Storage, A, D>,
    const D: usize,
>(
    v: spec_fn(T) -> real,
    before: &Simulation<T, G, P, M, I, Sch, A, R, D>,
    after: &Simulation<T, G, P, M, I, Sch, A, R, D>,
    dt: T,
    regrid: Option<(G, Seq<BlockValues<T>>)>,
    left: Seq<BlockValues<T>>,
)
    requires
        exact(v),
        before.steps_to(after, dt, regrid, left),
    ensures
        v(after.now()) == v(before.now()) + v(dt),
        after.steps() == before.steps() + 1,
        after.dynamics() == before.dynamics(),
        after.scheme() == before.scheme(),
        after.policy() == before.policy(),
        after.fields() == before.fields(),
        regrid is None ==> after.mesh() == before.mesh() && after.generation()
            == before.generation(),
        regrid matches Some((grid, _)) ==> after.mesh() == grid && after.generation()
            == before.generation() + 1,
{
}

/// A step ends with the model's projection: what projecting again leaves alone, it has
/// left.
pub proof fn steps_end_projected<
    T: Real,
    G: Grid<T, D>,
    P: Sync,
    M: Model<T, G, P, D>,
    I: Integrator<T, G, P, M, D>,
    const D: usize,
>(
    model: &M,
    integrator: &I,
    grid: &G,
    disc: &P,
    fields: Seq<FieldSpec>,
    state: Seq<BlockValues<T>>,
    stages: Seq<Seq<BlockValues<T>>>,
    t: T,
    dt: T,
)
    requires
        forall|x: Seq<BlockValues<T>>|
            model.projected(grid, fields, #[trigger] model.projected(grid, fields, x))
                == model.projected(grid, fields, x),
    ensures
        ({
            let next = integrated::<T, G, P, M, I, D>(
                model,
                integrator,
                grid,
                disc,
                fields,
                state,
                stages,
                t,
                dt,
            );
            model.projected(grid, fields, next.state) == next.state
        }),
{
}

} // verus!
