//! The Euler-Maruyama scheme.
use vstd::prelude::*;

use crate::engine::driver::{Driver, DriverSet, NoNoise};
use crate::engine::scheduler::Scheduler;
use crate::engine::state::{
    all_values, allocated_on, axpy_values, driver_buffer, full_block, shaped, shaped_on,
    stepped_block, stepped_values, tailored, tailored_on, BlockValues, FieldSpec, State,
};
use crate::engine::storage::{Allocator, Real, StorageBackend};
use crate::geometry::grid::{finest_array, ghosted, slab_fits, Grid};
use crate::geometry::index::volume;
use crate::integrators::euler::{finest_spacing_of, ForwardEuler};
use crate::integrators::scheme::{
    eval_drift, eval_tendency, evaluated, stages_ready, Advanced, Integrator, StageKind,
    StageLayout, StepCtx,
};
use crate::physics::model::Model;

verus! {

/// The buffers of drift and stochastic drivers.
pub open spec fn driver_stages<N: DriverSet>() -> Seq<StageKind> {
    Seq::new(
        1 + N::size(),
        |i: int|
            if i == 0 {
                StageKind::Tendency(Driver::Time)
            } else {
                StageKind::Tendency(N::member(i - 1))
            },
    )
}

/// Drift and amplitudes evaluated at one state, buffer by buffer.
pub open spec fn driver_fields<T: Real, G: Grid<T, D>, P, M: Model<T, G, P, D>, const D: usize>(
    model: &M,
    grid: &G,
    disc: &P,
    t: T,
    fields: Seq<FieldSpec>,
    values: Seq<BlockValues<T>>,
    stages: Seq<Seq<BlockValues<T>>>,
    level: Option<u8>,
    n: nat,
) -> Seq<Seq<BlockValues<T>>> {
    Seq::new(
        stages.len(),
        |i: int|
            if i == 0 {
                evaluated::<T, G, P, M, D>(
                    model,
                    Driver::Time,
                    grid,
                    disc,
                    t,
                    fields,
                    values,
                    stages[0],
                    false,
                    level,
                )
            } else if i <= n {
                evaluated::<T, G, P, M, D>(
                    model,
                    M::Drivers::member(i - 1),
                    grid,
                    disc,
                    t,
                    fields,
                    values,
                    stages[i],
                    true,
                    level,
                )
            } else {
                stages[i]
            },
    )
}

/// A fully allocated state is shaped for its grid.
pub proof fn lemma_allocated_shaped<T: Real, G: Grid<T, D>, const D: usize>(
    fields: Seq<FieldSpec>,
    grid: &G,
    v: Seq<BlockValues<T>>,
)
    requires
        allocated_on::<T, T, G, D>(fields, grid, v),
    ensures
        shaped_on::<T, T, G, D>(fields, grid, v),
{
    assert forall|b: int| 0 <= b < v.len() implies shaped(
        fields,
        grid.extent_of(b),
        #[trigger] v[b],
    ) by {
        assert(full_block(fields, grid.extent_of(b), v[b]));
        assert forall|f: int|
            #![trigger v[b].fields[f]]
            #![trigger fields[f]]
            0 <= f < fields.len() && v[b].fields[f].len() != 0 implies slab_fits(
            grid.extent_of(b),
            fields[f].halo as int,
        ) && v[b].fields[f].len() == volume(ghosted(grid.extent_of(b), fields[f].halo as int)) by {
            assert(slab_fits(grid.extent_of(b), fields[f].halo as int));
        }
    }
}

/// A tailored buffer serves its driver.
pub proof fn lemma_tailored_serves<T: Real, G: Grid<T, D>, const D: usize>(
    fields: Seq<FieldSpec>,
    grid: &G,
    driver: Driver,
    v: Seq<BlockValues<T>>,
)
    requires
        tailored_on::<T, T, G, D>(fields, grid, driver, v),
        crate::engine::state::layout_fits::<T, G, D>(fields, grid),
    ensures
        driver_buffer::<T, T, G, D>(fields, grid, driver, v),
{
    assert forall|b: int| 0 <= b < v.len() implies shaped(
        fields,
        grid.extent_of(b),
        #[trigger] v[b],
    ) && crate::engine::state::rated(grid.extent_of(b), driver, v[b]) by {
        assert(tailored(fields, grid.extent_of(b), driver, v[b]));
        assert forall|f: int|
            #![trigger v[b].fields[f]]
            #![trigger fields[f]]
            0 <= f < fields.len() && v[b].fields[f].len() != 0 implies slab_fits(
            grid.extent_of(b),
            fields[f].halo as int,
        ) && v[b].fields[f].len() == volume(ghosted(grid.extent_of(b), fields[f].halo as int)) by {
            assert(slab_fits(grid.extent_of(b), fields[f].halo as int));
            assert(v[b].fields[f].len() == (if fields[f].moved_by(driver) {
                volume(ghosted(grid.extent_of(b), fields[f].halo as int))
            } else {
                0
            }));
        }
    }
}

/// A driver step keeps every slab length, so it keeps the allocation.
pub proof fn lemma_stepped_allocated<T: Real, G: Grid<T, D>, N: DriverSet, const D: usize>(
    fields: Seq<FieldSpec>,
    grid: &G,
    level: Option<u8>,
    dt: T,
    seed: u64,
    salt: u64,
    v: Seq<BlockValues<T>>,
    drift: Seq<BlockValues<T>>,
    amps: Seq<Seq<BlockValues<T>>>,
)
    requires
        allocated_on::<T, T, G, D>(fields, grid, v),
    ensures
        allocated_on::<T, T, G, D>(
            fields,
            grid,
            stepped_values::<T, G, N, D>(fields, grid, level, dt, seed, salt, v, drift, amps),
        ),
{
    let w = stepped_values::<T, G, N, D>(fields, grid, level, dt, seed, salt, v, drift, amps);
    assert forall|b: int| 0 <= b < w.len() implies full_block(
        fields,
        grid.extent_of(b),
        #[trigger] w[b],
    ) by {
        assert(full_block(fields, grid.extent_of(b), v[b]));
        lemma_stepped_lengths::<T, N>(
            fields,
            grid.extent_of(b),
            b,
            dt,
            seed,
            salt,
            v[b],
            drift[b],
            Seq::new(amps.len(), |i: int| amps[i][b]),
            N::size(),
        );
        assert forall|f: int| 0 <= f < fields.len() implies (#[trigger] w[b].fields[f]).len()
            == volume(ghosted(grid.extent_of(b), fields[f].halo as int)) by {
            assert(v[b].fields[f].len() == volume(
                ghosted(grid.extent_of(b), fields[f].halo as int),
            ));
        }
    }
}

proof fn lemma_stepped_lengths<T: Real, N: DriverSet>(
    fields: Seq<FieldSpec>,
    ext: Seq<int>,
    b: int,
    dt: T,
    seed: u64,
    salt: u64,
    v: BlockValues<T>,
    drift: BlockValues<T>,
    amps: Seq<BlockValues<T>>,
    n: nat,
)
    ensures
        ({
            let w = stepped_block::<T, N>(fields, ext, b, dt, seed, salt, v, drift, amps, n);
            &&& w.rate == v.rate
            &&& w.fields.len() == v.fields.len()
            &&& forall|f: int|
                0 <= f < v.fields.len() ==> (#[trigger] w.fields[f]).len() == v.fields[f].len()
        }),
    decreases n,
{
    if n == 0 {
        crate::engine::state::lemma_driven_shape(
            fields,
            ext,
            b,
            Driver::Time,
            dt,
            seed,
            salt,
            v,
            drift,
        );
    } else {
        lemma_stepped_lengths::<T, N>(
            fields,
            ext,
            b,
            dt,
            seed,
            salt,
            v,
            drift,
            amps,
            (n - 1) as nat,
        );
        let u = stepped_block::<T, N>(
            fields,
            ext,
            b,
            dt,
            seed,
            salt,
            v,
            drift,
            amps,
            (n - 1) as nat,
        );
        crate::engine::state::lemma_driven_shape(
            fields,
            ext,
            b,
            N::member(n - 1),
            dt,
            seed,
            salt,
            u,
            amps[n - 1],
        );
        let w = stepped_block::<T, N>(fields, ext, b, dt, seed, salt, v, drift, amps, n);
        assert forall|f: int| 0 <= f < v.fields.len() implies (#[trigger] w.fields[f]).len()
            == v.fields[f].len() by {
            assert(w.fields[f].len() == u.fields[f].len());
        }
    }
}

/// Euler-Maruyama: `Y <- Y + dt V_0(Y, t) + sum_d dmu_d V_d(Y, t)`.
///
/// Implemented for every driver set, and *kind-agnostic*: it evaluates one
/// amplitude field per driver at the pre-update state and applies the whole
/// update through the drivers' own kernels in a single fused dispatch, so any
/// first-order explicit measure composes here without a new scheme. Without
/// stochastic drivers it degenerates to forward Euler.
#[derive(Debug, Clone, Copy, Default)]
pub struct EulerMaruyama {
    /// Seed of the counter-based noise generator.
    pub seed: u64,
}

impl<
    T: Real,
    G: Grid<T, D>,
    P: Sync,
    M: Model<T, G, P, D>,
    const D: usize,
> Integrator<T, G, P, M, D> for EulerMaruyama {
    open spec fn stages_of(&self, grid: &G) -> Seq<StageKind> {
        driver_stages::<M::Drivers>()
    }

    open spec fn admits(&self, model: &M, grid: &G, fields: Seq<FieldSpec>) -> bool {
        true
    }

    open spec fn advanced(
        &self,
        model: &M,
        grid: &G,
        disc: &P,
        fields: Seq<FieldSpec>,
        state: Seq<BlockValues<T>>,
        stages: Seq<Seq<BlockValues<T>>>,
        t: T,
        dt: T,
    ) -> Advanced<T> {
        let y = model.filled(grid, fields, state, t);
        let k = driver_fields::<T, G, P, M, D>(
            model,
            grid,
            disc,
            t,
            fields,
            y,
            stages,
            None,
            M::Drivers::size(),
        );
        Advanced {
            state: stepped_values::<T, G, M::Drivers, D>(
                fields,
                grid,
                None,
                dt,
                self.seed,
                t.to_bits_spec(),
                y,
                k[0],
                k.skip(1),
            ),
            stages: k,
        }
    }

    open spec fn suggested(&self, model: &M, grid: &G) -> Option<T> {
        model.explicit_limit(finest_array::<T, G, D>(grid))
    }

    fn stage_layout(&self, grid: &G) -> (r: StageLayout) {
        StageLayout { stages: driver_stage_list::<M::Drivers>() }
    }

    fn step<S: StorageBackend<T>, Sch: Scheduler, A: Allocator<T, Storage = S>>(
        &self,
        ctx: &StepCtx<'_, T, S, G, P, M, Sch, A>,
        state: &mut State<T, S>,
        stages: &mut [State<T, S>],
        t: T,
        dt: T,
    ) {
        let ghost fields = state.fields();
        let ghost before = all_values(stages@);
        let ghost kinds = driver_stages::<M::Drivers>();
        let n = M::Drivers::len();
        proof {
            assert(stages@[0].fields() == fields);
            assert(kinds[0] == StageKind::Tendency(Driver::Time));
        }
        eval_drift(ctx, state, &mut stages[0], t);
        let ghost y = state.values();
        proof {
            assert(all_values(stages@) =~= driver_fields::<T, G, P, M, D>(
                ctx.model,
                ctx.grid,
                ctx.disc,
                t,
                fields,
                y,
                before,
                None,
                0,
            ));
        }
        let mut i: usize = 0;
        while i < n
            invariant
                i <= n,
                n == M::Drivers::size(),
                fields == state.fields(),
                y == state.values(),
                ctx.ready::<D>(fields),
                kinds == driver_stages::<M::Drivers>(),
                allocated_on::<T, T, G, D>(fields, ctx.grid, y),
                stages_ready::<T, G, S, D>(kinds, fields, ctx.grid, stages@),
                before.len() == kinds.len(),
                all_values(stages@) == driver_fields::<T, G, P, M, D>(
                    ctx.model,
                    ctx.grid,
                    ctx.disc,
                    t,
                    fields,
                    y,
                    before,
                    None,
                    i as nat,
                ),
            decreases n - i,
        {
            let ghost now = stages@;
            let driver = M::Drivers::driver(i);
            proof {
                assert(now[1 + i].fields() == fields);
                assert(kinds[1 + i] == StageKind::Tendency(driver));
                assert(all_values(now)[1 + i] == before[1 + i]);
            }
            eval_tendency(ctx, &*state, &mut stages[1 + i], t, driver, None);
            proof {
                let next = driver_fields::<T, G, P, M, D>(
                    ctx.model,
                    ctx.grid,
                    ctx.disc,
                    t,
                    fields,
                    y,
                    before,
                    None,
                    (i + 1) as nat,
                );
                assert forall|j: int| 0 <= j < next.len() implies all_values(stages@)[j]
                    == #[trigger] next[j] by {
                    if j != 1 + i {
                        assert(all_values(now)[j] == stages@[j].values());
                    }
                }
                assert(all_values(stages@) =~= next);
            }
            i += 1;
        }
        let ghost after = stages@;
        let ghost k = all_values(after);
        proof {
            assert(after[0].fields() == fields);
            lemma_allocated_shaped::<T, G, D>(fields, ctx.grid, y);
            lemma_tailored_serves::<T, G, D>(fields, ctx.grid, Driver::Time, after[0].values());
        }
        let (drift, amps) = stages.split_at_mut(1);
        proof {
            assert forall|j: int| 0 <= j < amps@.len() implies driver_buffer::<T, T, G, D>(
                fields,
                ctx.grid,
                M::Drivers::member(j),
                (#[trigger] amps@[j]).values(),
            ) by {
                assert(amps@[j] == after[1 + j]);
                assert(kinds[1 + j] == StageKind::Tendency(M::Drivers::member(j)));
                lemma_tailored_serves::<T, G, D>(
                    fields,
                    ctx.grid,
                    M::Drivers::member(j),
                    amps@[j].values(),
                );
            }
            assert(all_values(amps@) =~= k.skip(1));
            lemma_stepped_allocated::<T, G, M::Drivers, D>(
                fields,
                ctx.grid,
                None,
                dt,
                self.seed,
                t.to_bits_spec(),
                y,
                k[0],
                k.skip(1),
            );
        }
        state.apply_step_with::<G, M::Drivers, Sch, D>(
            ctx.scheduler,
            ctx.grid,
            &drift[0],
            amps,
            dt,
            self.seed,
            t.to_bits(),
        );
        proof {
            assert(stages@ =~= after);
        }
    }

    fn suggested_dt(&self, model: &M, grid: &G) -> (r: Option<T>) {
        model.stable_dt(finest_spacing_of(grid))
    }
}

/// The buffer kinds of drift and stochastic drivers.
pub fn driver_stage_list<N: DriverSet>() -> (r: Vec<StageKind>)
    ensures
        r@ == driver_stages::<N>(),
{
    let mut stages: Vec<StageKind> = Vec::new();
    stages.push(StageKind::Tendency(Driver::Time));
    let n = N::len();
    let mut i: usize = 0;
    while i < n
        invariant
            i <= n,
            n == N::size(),
            stages@.len() == 1 + i,
            forall|j: int| 0 <= j < stages@.len() ==> #[trigger] stages@[j] == driver_stages::<N>()[j],
        decreases n - i,
    {
        stages.push(StageKind::Tendency(N::driver(i)));
        i += 1;
    }
    proof {
        assert(stages@ =~= driver_stages::<N>());
    }
    stages
}

/// Without stochastic drivers the scheme is forward Euler: both make the same of
/// state and stage buffers.
pub proof fn noiseless_steps_are_forward_euler<
    T: Real,
    G: Grid<T, D>,
    P: Sync,
    M: Model<T, G, P, D, Drivers = NoNoise>,
    const D: usize,
>(
    scheme: &EulerMaruyama,
    model: &M,
    grid: &G,
    disc: &P,
    fields: Seq<FieldSpec>,
    state: Seq<BlockValues<T>>,
    stages: Seq<Seq<BlockValues<T>>>,
    t: T,
    dt: T,
)
    requires
        stages.len() == 1,
    ensures
        ({
            let a = Integrator::<T, G, P, M, D>::advanced(
                scheme,
                model,
                grid,
                disc,
                fields,
                state,
                stages,
                t,
                dt,
            );
            let b = Integrator::<T, G, P, M, D>::advanced(
                &ForwardEuler,
                model,
                grid,
                disc,
                fields,
                state,
                stages,
                t,
                dt,
            );
            a.state == b.state && a.stages == b.stages
        }),
{
    let y = model.filled(grid, fields, state, t);
    let k = driver_fields::<T, G, P, M, D>(
        model,
        grid,
        disc,
        t,
        fields,
        y,
        stages,
        None,
        0,
    );
    assert(k =~= stages.update(0, k[0]));
    let v = stepped_values::<T, G, NoNoise, D>(
        fields,
        grid,
        None,
        dt,
        scheme.seed,
        t.to_bits_spec(),
        y,
        k[0],
        k.skip(1),
    );
    let w = axpy_values(y, dt, k[0]);
    assert forall|b: int| 0 <= b < y.len() implies #[trigger] v[b] == w[b] by {
        assert forall|f: int| 0 <= f < y[b].fields.len() implies #[trigger] v[b].fields[f]
            == w[b].fields[f] by {
            assert(v[b].fields[f] =~= w[b].fields[f]);
        }
        assert(v[b].fields =~= w[b].fields);
    }
    assert(v =~= w);
}

} // verus!
