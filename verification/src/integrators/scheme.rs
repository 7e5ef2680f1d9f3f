//! What a scheme is made of: stage buffers, and the evaluation of a model's
//! vector fields into them.
use vstd::prelude::*;

use crate::engine::driver::{Driver, DriverSet};
use crate::engine::scheduler::{BlockTask, Scheduler};
use crate::engine::scratch::ScratchPool;
use crate::engine::state::{
    all_values, allocated_on, block_values, selects, tailored, tailored_on, zeroed, BlockStorage,
    BlockValues, FieldSpec, State, StateLayout,
};
use crate::engine::storage::{Allocator, Real, StorageBackend};
use crate::geometry::grid::{BlockId, Grid};
use crate::physics::model::{Model, RhsContext};

verus! {

/// One stage buffer a scheme requests.
#[derive(Debug, Clone, Copy, PartialEq, Eq, Structural)]
pub enum StageKind {
    /// A tendency buffer conjugate to one driver: carries storage for exactly
    /// the fields that driver moves. `Tendency(Driver::Time)` is the classic
    /// dY/dt buffer; a stochastic driver's buffer holds its amplitudes.
    Tendency(Driver),
    /// A full stage-state buffer (an intermediate state models read like the
    /// real state): carries every field.
    State,
}

/// The stage buffers a scheme needs, in step order.
///
/// The simulation maps each kind to its allocation mechanically, so a new driver
/// kind needs no allocation plumbing. The per-kind storage split is what keeps a
/// static field out of tendency buffers, and a single-field noise term from
/// paying whole-state traffic.
#[derive(Debug, Clone)]
pub struct StageLayout {
    /// Requested buffers, in stage order.
    pub stages: Vec<StageKind>,
}

/// The buffer is what the scheme asked for.
pub open spec fn stage_ready<T: Real, G: Grid<T, D>, const D: usize>(
    kind: StageKind,
    fields: Seq<FieldSpec>,
    grid: &G,
    values: Seq<BlockValues<T>>,
) -> bool {
    match kind {
        StageKind::Tendency(driver) => tailored_on::<T, T, G, D>(fields, grid, driver, values),
        StageKind::State => allocated_on::<T, T, G, D>(fields, grid, values),
    }
}

/// The buffers are what the scheme asked for.
pub open spec fn stages_ready<T: Real, G: Grid<T, D>, S: StorageBackend<T>, const D: usize>(
    kinds: Seq<StageKind>,
    fields: Seq<FieldSpec>,
    grid: &G,
    stages: Seq<State<T, S>>,
) -> bool {
    &&& stages.len() == kinds.len()
    &&& forall|i: int|
        0 <= i < stages.len() ==> (#[trigger] stages[i]).fields() == fields && stage_ready::<
            T,
            G,
            D,
        >(kinds[i], fields, grid, stages[i].values())
}

/// Everything a scheme needs besides the state: the model and where and how to
/// evaluate it.
#[verifier::reject_recursive_types(T)]
#[verifier::reject_recursive_types(S)]
pub struct StepCtx<'a, T: Real, S: StorageBackend<T>, G, P, M, Sch, A> {
    /// The model being integrated.
    pub model: &'a M,
    /// The grid the simulation runs on.
    pub grid: &'a G,
    /// The discretization policy.
    pub disc: &'a P,
    /// Dispatches per-block work.
    pub scheduler: &'a Sch,
    /// Worker scratch.
    pub pool: &'a ScratchPool<T, S>,
    /// Where memory comes from.
    pub alloc: &'a A,
}

impl<
    'a,
    T: Real,
    S: StorageBackend<T>,
    G,
    P,
    M,
    Sch,
    A,
> StepCtx<'a, T, S, G, P, M, Sch, A> {
    /// The model can be evaluated on states of this layout.
    pub open spec fn ready<const D: usize>(&self, fields: Seq<FieldSpec>) -> bool where
        G: Grid<T, D>,
        M: Model<T, G, P, D>,
     {
        &&& self.grid.valid()
        &&& self.model.supports(self.grid, self.disc, fields)
        &&& self.pool.spec() == self.model.scratch_of(self.grid)
    }
}

/// What one block's buffer holds before the model writes it.
pub open spec fn primed<T: Real>(zero: bool, out: BlockValues<T>) -> BlockValues<T> {
    if zero {
        zeroed(out)
    } else {
        out
    }
}

/// A driver's vector field evaluated over the selected blocks.
pub open spec fn evaluated<
    T: Real,
    G: Grid<T, D>,
    P,
    M: Model<T, G, P, D>,
    const D: usize,
>(
    model: &M,
    driver: Driver,
    grid: &G,
    disc: &P,
    t: T,
    fields: Seq<FieldSpec>,
    values: Seq<BlockValues<T>>,
    outs: Seq<BlockValues<T>>,
    zero: bool,
    level: Option<u8>,
) -> Seq<BlockValues<T>> {
    Seq::new(
        outs.len(),
        |b: int|
            if selects::<T, G, D>(grid, level, b) {
                model.vector_field(
                    driver,
                    grid,
                    disc,
                    t,
                    b,
                    fields,
                    values,
                    primed(zero, outs[b]),
                )
            } else {
                outs[b]
            },
    )
}

/// The driver is the clock or belongs to the model's driver set.
pub open spec fn known_driver<N: DriverSet>(driver: Driver) -> bool {
    driver is Time || exists|i: int| 0 <= i < N::size() && driver == #[trigger] N::member(i)
}

/// Evaluates one driver's vector field on one block.
#[verifier::reject_recursive_types(T)]
#[verifier::reject_recursive_types(S)]
struct EvalTask<'a, T: Real, S: StorageBackend<T>, G, P, M, A, const D: usize> {
    model: &'a M,
    grid: &'a G,
    disc: &'a P,
    pool: &'a ScratchPool<T, S>,
    alloc: &'a A,
    state: &'a State<T, S>,
    layout: &'a StateLayout,
    t: T,
    driver: Driver,
    zero: bool,
    level: Option<u8>,
}

impl<
    'a,
    T: Real,
    S: StorageBackend<T>,
    G: Grid<T, D>,
    P: Sync,
    M: Model<T, G, P, D>,
    A: Allocator<T, Storage = S>,
    const D: usize,
> BlockTask<BlockStorage<T, S>, ()> for EvalTask<'a, T, S, G, P, M, A, D> {
    closed spec fn ready(&self, b: int, item: BlockStorage<T, S>) -> bool {
        &&& self.grid.valid()
        &&& 0 <= b < self.grid.blocks()
        &&& self.model.supports(self.grid, self.disc, self.state.fields())
        &&& self.pool.spec() == self.model.scratch_of(self.grid)
        &&& allocated_on::<T, T, G, D>(self.state.fields(), self.grid, self.state.values())
        &&& self.layout.fields() == self.state.fields()
        &&& known_driver::<M::Drivers>(self.driver)
        &&& tailored(self.state.fields(), self.grid.extent_of(b), self.driver, item.values())
    }

    closed spec fn done(
        &self,
        b: int,
        before: BlockStorage<T, S>,
        after: BlockStorage<T, S>,
    ) -> bool {
        &&& tailored(self.state.fields(), self.grid.extent_of(b), self.driver, after.values())
        &&& after.values() == if selects::<T, G, D>(self.grid, self.level, b) {
            self.model.vector_field(
                self.driver,
                self.grid,
                self.disc,
                self.t,
                b,
                self.state.fields(),
                self.state.values(),
                primed(self.zero, before.values()),
            )
        } else {
            before.values()
        }
    }

    fn run(&self, block: BlockId, item: &mut BlockStorage<T, S>, scratch: &mut ()) {
        if let Some(l) = self.level {
            if self.grid.level(block) != l {
                return;
            }
        }
        let ghost start = item.values();
        if self.zero {
            item.fill_zero();
        }
        proof {
            assert(tailored(
                self.state.fields(),
                self.grid.extent_of(block.id()),
                self.driver,
                item.values(),
            ));
        }
        let ctx = RhsContext { grid: self.grid, disc: self.disc, block, t: self.t };
        let mut lease = self.pool.checkout(self.alloc);
        let mut out = item.bind_mut(self.layout);
        self.model.vector_field_block(self.driver, &ctx, self.state, &mut out, &mut lease.scratch);
        self.pool.give_back(lease);
    }
}

/// Evaluate one driver's vector field over the selected blocks into `out`.
fn dispatch<
    T: Real,
    S: StorageBackend<T>,
    G: Grid<T, D>,
    P: Sync,
    M: Model<T, G, P, D>,
    Sch: Scheduler,
    A: Allocator<T, Storage = S>,
    const D: usize,
>(
    ctx: &StepCtx<'_, T, S, G, P, M, Sch, A>,
    state: &State<T, S>,
    out: &mut State<T, S>,
    t: T,
    driver: Driver,
    zero: bool,
    level: Option<u8>,
)
    requires
        ctx.grid.valid(),
        ctx.grid.blocks() <= u32::MAX,
        ctx.model.supports(ctx.grid, ctx.disc, state.fields()),
        ctx.pool.spec() == ctx.model.scratch_of(ctx.grid),
        allocated_on::<T, T, G, D>(state.fields(), ctx.grid, state.values()),
        old(out).fields() == state.fields(),
        known_driver::<M::Drivers>(driver),
        tailored_on::<T, T, G, D>(state.fields(), ctx.grid, driver, old(out).values()),
    ensures
        final(out).fields() == old(out).fields(),
        final(out).values() == evaluated::<T, G, P, M, D>(
            ctx.model,
            driver,
            ctx.grid,
            ctx.disc,
            t,
            state.fields(),
            state.values(),
            old(out).values(),
            zero,
            level,
        ),
        tailored_on::<T, T, G, D>(state.fields(), ctx.grid, driver, final(out).values()),
{
    let ghost v = out.values();
    let ghost fields = state.fields();
    let (layout, blocks) = out.split_blocks_mut();
    let ghost before = blocks@;
    let task: EvalTask<'_, T, S, G, P, M, A, D> = EvalTask {
        model: ctx.model,
        grid: ctx.grid,
        disc: ctx.disc,
        pool: ctx.pool,
        alloc: ctx.alloc,
        state,
        layout,
        t,
        driver,
        zero,
        level,
    };
    proof {
        assert(block_values(before) == v);
        assert forall|b: int| 0 <= b < before.len() implies task.ready(b, #[trigger] before[b]) by {
            assert(before[b].values() == v[b]);
        }
    }
    ctx.scheduler.for_each_block_mut(blocks, || -> (u: ()) { () }, &task);
    proof {
        let want = evaluated::<T, G, P, M, D>(
            ctx.model,
            driver,
            ctx.grid,
            ctx.disc,
            t,
            fields,
            state.values(),
            v,
            zero,
            level,
        );
        let after = out.values();
        assert(after.len() == v.len());
        assert forall|b: int| 0 <= b < v.len() implies #[trigger] after[b] == want[b] && tailored(
            fields,
            ctx.grid.extent_of(b),
            driver,
            after[b],
        ) by {
            assert(before[b].values() == v[b]);
        }
        assert(after =~= want);
    }
}

/// Fill ghosts of `state`, then evaluate the time (drift) field into `out`, block
/// by block. The building block shared by all explicit schemes.
pub fn eval_drift<
    T: Real,
    S: StorageBackend<T>,
    G: Grid<T, D>,
    P: Sync,
    M: Model<T, G, P, D>,
    Sch: Scheduler,
    A: Allocator<T, Storage = S>,
    const D: usize,
>(
    ctx: &StepCtx<'_, T, S, G, P, M, Sch, A>,
    state: &mut State<T, S>,
    out: &mut State<T, S>,
    t: T,
)
    requires
        ctx.ready::<D>(old(state).fields()),
        allocated_on::<T, T, G, D>(old(state).fields(), ctx.grid, old(state).values()),
        old(out).fields() == old(state).fields(),
        tailored_on::<T, T, G, D>(old(state).fields(), ctx.grid, Driver::Time, old(out).values()),
    ensures
        final(state).fields() == old(state).fields(),
        final(state).values() == ctx.model.filled(
            ctx.grid,
            old(state).fields(),
            old(state).values(),
            t,
        ),
        allocated_on::<T, T, G, D>(old(state).fields(), ctx.grid, final(state).values()),
        final(out).fields() == old(out).fields(),
        final(out).values() == evaluated::<T, G, P, M, D>(
            ctx.model,
            Driver::Time,
            ctx.grid,
            ctx.disc,
            t,
            old(state).fields(),
            final(state).values(),
            old(out).values(),
            false,
            None,
        ),
        tailored_on::<T, T, G, D>(old(state).fields(), ctx.grid, Driver::Time, final(out).values()),
{
    proof {
        ctx.grid.lemma_blocks();
    }
    ctx.model.fill_ghosts(ctx.grid, ctx.disc, state, t);
    dispatch(ctx, &*state, out, t, Driver::Time, false, None);
}

/// Zero `amp` and let the model write `driver`'s amplitude field into it, reading
/// `state`, which must be the pre-update, ghost-filled state. `amp` carries
/// storage only for the fields `driver` moves, so the zero pass and the
/// evaluation touch exactly that memory.
pub fn eval_tendency<
    T: Real,
    S: StorageBackend<T>,
    G: Grid<T, D>,
    P: Sync,
    M: Model<T, G, P, D>,
    Sch: Scheduler,
    A: Allocator<T, Storage = S>,
    const D: usize,
>(
    ctx: &StepCtx<'_, T, S, G, P, M, Sch, A>,
    state: &State<T, S>,
    amp: &mut State<T, S>,
    t: T,
    driver: Driver,
    level: Option<u8>,
)
    requires
        ctx.ready::<D>(state.fields()),
        allocated_on::<T, T, G, D>(state.fields(), ctx.grid, state.values()),
        old(amp).fields() == state.fields(),
        known_driver::<M::Drivers>(driver),
        tailored_on::<T, T, G, D>(state.fields(), ctx.grid, driver, old(amp).values()),
    ensures
        final(amp).fields() == old(amp).fields(),
        final(amp).values() == evaluated::<T, G, P, M, D>(
            ctx.model,
            driver,
            ctx.grid,
            ctx.disc,
            t,
            state.fields(),
            state.values(),
            old(amp).values(),
            true,
            level,
        ),
        tailored_on::<T, T, G, D>(state.fields(), ctx.grid, driver, final(amp).values()),
{
    proof {
        ctx.grid.lemma_blocks();
    }
    dispatch(ctx, state, amp, t, driver, true, level);
}

/// Evaluate the drift on one refinement level, reading `state` as it is.
pub fn eval_drift_level<
    T: Real,
    S: StorageBackend<T>,
    G: Grid<T, D>,
    P: Sync,
    M: Model<T, G, P, D>,
    Sch: Scheduler,
    A: Allocator<T, Storage = S>,
    const D: usize,
>(
    ctx: &StepCtx<'_, T, S, G, P, M, Sch, A>,
    state: &State<T, S>,
    out: &mut State<T, S>,
    t: T,
    level: u8,
)
    requires
        ctx.ready::<D>(state.fields()),
        allocated_on::<T, T, G, D>(state.fields(), ctx.grid, state.values()),
        old(out).fields() == state.fields(),
        tailored_on::<T, T, G, D>(state.fields(), ctx.grid, Driver::Time, old(out).values()),
    ensures
        final(out).fields() == old(out).fields(),
        final(out).values() == evaluated::<T, G, P, M, D>(
            ctx.model,
            Driver::Time,
            ctx.grid,
            ctx.disc,
            t,
            state.fields(),
            state.values(),
            old(out).values(),
            false,
            Some(level),
        ),
        tailored_on::<T, T, G, D>(state.fields(), ctx.grid, Driver::Time, final(out).values()),
{
    proof {
        ctx.grid.lemma_blocks();
    }
    dispatch(ctx, state, out, t, Driver::Time, false, Some(level));
}

/// Contents of state and stage buffers after a step.
pub struct Advanced<T> {
    /// The state.
    pub state: Seq<BlockValues<T>>,
    /// The stage buffers.
    pub stages: Seq<Seq<BlockValues<T>>>,
}

/// A time-integration scheme for a model. Schemes are implemented per driver set
/// of the model.
pub trait Integrator<T: Real, G: Grid<T, D>, P: Sync, M: Model<T, G, P, D>, const D: usize>: Send + Sync {
    /// Buffers this scheme needs on a grid.
    open spec fn stages_of(&self, grid: &G) -> Seq<StageKind> {
        arbitrary()
    }

    /// The scheme can advance this model on states of this layout.
    open spec fn admits(
        &self,
        model: &M,
        grid: &G,
        fields: Seq<FieldSpec>,
    ) -> bool {
        true
    }

    /// What a step of size `dt` at time `t` makes of state and stage buffers.
    open spec fn advanced(
        &self,
        model: &M,
        grid: &G,
        disc: &P,
        fields: Seq<FieldSpec>,
        state: Seq<BlockValues<T>>,
        stages: Seq<Seq<BlockValues<T>>>,
        t: T,
        dt: T,
    ) -> Advanced<T> {
        arbitrary()
    }

    /// The step size the scheme suggests.
    open spec fn suggested(&self, model: &M, grid: &G) -> Option<T> {
        arbitrary()
    }

    /// Buffers this scheme needs.
    fn stage_layout(&self, grid: &G) -> (r: StageLayout)
        requires
            grid.valid(),
        ensures
            r.stages@ == self.stages_of(grid),
    ;

    /// Advance `state` from `t` to `t + dt`. `stages` are the pre-allocated
    /// buffers from [`Integrator::stage_layout`].
    fn step<
        S: StorageBackend<T>,
        Sch: Scheduler,
        A: Allocator<T, Storage = S>,
    >(
        &self,
        ctx: &StepCtx<'_, T, S, G, P, M, Sch, A>,
        state: &mut State<T, S>,
        stages: &mut [State<T, S>],
        t: T,
        dt: T,
    )
        requires
            ctx.ready::<D>(old(state).fields()),
            self.admits(ctx.model, ctx.grid, old(state).fields()),
            allocated_on::<T, T, G, D>(old(state).fields(), ctx.grid, old(state).values()),
            stages_ready::<T, G, S, D>(
                self.stages_of(ctx.grid),
                old(state).fields(),
                ctx.grid,
                old(stages)@,
            ),
        ensures
            final(state).fields() == old(state).fields(),
            allocated_on::<T, T, G, D>(old(state).fields(), ctx.grid, final(state).values()),
            stages_ready::<T, G, S, D>(
                self.stages_of(ctx.grid),
                old(state).fields(),
                ctx.grid,
                final(stages)@,
            ),
            (Advanced { state: final(state).values(), stages: all_values(final(stages)@) })
                == self.advanced(
                ctx.model,
                ctx.grid,
                ctx.disc,
                old(state).fields(),
                old(state).values(),
                all_values(old(stages)@),
                t,
                dt,
            ),
    ;

    /// The step size the scheme suggests: the model's bound at the resolution
    /// that limits it.
    fn suggested_dt(&self, model: &M, grid: &G) -> (r: Option<T>)
        requires
            grid.valid(),
        ensures
            r == self.suggested(model, grid),
    ;
}

} // verus!
