//! Explicit forward Euler.
use vstd::prelude::*;

use crate::engine::driver::{Driver, NoNoise};
use crate::engine::scheduler::Scheduler;
use crate::engine::state::{
    all_values, allocated_on, axpy_values, congruent, full_block, tailored, tailored_on,
    BlockValues, FieldSpec, State,
};
use crate::engine::storage::{Allocator, Real, StorageBackend};
use crate::geometry::grid::{finest_array, lemma_spread, Grid};
use crate::integrators::scheme::{
    eval_drift, evaluated, Advanced, Integrator, StageKind, StageLayout, StepCtx,
};
use crate::physics::model::Model;

verus! {

/// A full state and a driver's buffer pair up, and adding a multiple of the
/// buffer keeps the allocation.
pub proof fn lemma_axpy_fits<T: Real, G: Grid<T, D>, const D: usize>(
    fields: Seq<FieldSpec>,
    grid: &G,
    driver: Driver,
    v: Seq<BlockValues<T>>,
    k: Seq<BlockValues<T>>,
    alpha: T,
)
    requires
        allocated_on::<T, T, G, D>(fields, grid, v),
        tailored_on::<T, T, G, D>(fields, grid, driver, k),
    ensures
        congruent(v, k),
        allocated_on::<T, T, G, D>(fields, grid, axpy_values(v, alpha, k)),
{
    assert forall|b: int| 0 <= b < v.len() implies crate::engine::state::matched(v[b], k[b]) by {
        assert(full_block(fields, grid.extent_of(b), v[b]));
        assert(tailored(fields, grid.extent_of(b), driver, k[b]));
        assert forall|f: int|
            #![trigger v[b].fields[f]]
            #![trigger k[b].fields[f]]
            0 <= f < v[b].fields.len() implies v[b].fields[f].len() == k[b].fields[f].len()
            || v[b].fields[f].len() == 0 || k[b].fields[f].len() == 0 by {
            assert(v[b].fields[f].len() == crate::geometry::index::volume(
                crate::geometry::grid::ghosted(grid.extent_of(b), fields[f].halo as int),
            ));
            assert(k[b].fields[f].len() == (if fields[f].moved_by(driver) {
                crate::geometry::index::volume(
                    crate::geometry::grid::ghosted(grid.extent_of(b), fields[f].halo as int),
                )
            } else {
                0
            }));
        }
    }
    let w = axpy_values(v, alpha, k);
    assert forall|b: int| 0 <= b < w.len() implies full_block(
        fields,
        grid.extent_of(b),
        #[trigger] w[b],
    ) by {
        assert(full_block(fields, grid.extent_of(b), v[b]));
        assert forall|f: int| 0 <= f < fields.len() implies (#[trigger] w[b].fields[f]).len()
            == crate::geometry::index::volume(
            crate::geometry::grid::ghosted(grid.extent_of(b), fields[f].halo as int),
        ) by {
            assert(v[b].fields[f].len() == crate::geometry::index::volume(
                crate::geometry::grid::ghosted(grid.extent_of(b), fields[f].halo as int),
            ));
        }
    }
}

/// The finest spacing as the suggested-step specs see it.
pub fn finest_spacing_of<T: Real, G: Grid<T, D>, const D: usize>(grid: &G) -> (r: [T; D])
    requires
        grid.valid(),
    ensures
        r == finest_array::<T, G, D>(grid),
{
    let r = grid.finest_spacing();
    proof {
        lemma_spread::<T, D>(r, |d: int| grid.finest_of(d));
    }
    r
}

/// Explicit forward Euler: `Y <- Y + dt f(Y, t)`.
///
/// Deterministic models only; for a stochastic system use
/// [`crate::integrators::euler_maruyama::EulerMaruyama`], which degenerates to
/// this scheme when the model has no stochastic drivers.
#[derive(Debug, Clone, Copy, Default)]
pub struct ForwardEuler;

impl<
    T: Real,
    G: Grid<T, D>,
    P: Sync,
    M: Model<T, G, P, D, Drivers = NoNoise>,
    const D: usize,
> Integrator<T, G, P, M, D> for ForwardEuler {
    open spec fn stages_of(&self, grid: &G) -> Seq<StageKind> {
        seq![StageKind::Tendency(Driver::Time)]
    }

    open spec fn admits(
        &self,
        model: &M,
        grid: &G,
        fields: Seq<FieldSpec>,
    ) -> bool {
        true
    }

    open spec fn advanced(
        &self,
        model: &M,
        grid: &G,
        disc: &P,
        fields: Seq<FieldSpec>,
        state: Seq<BlockValues<T>>,
        stages: Seq<Seq<BlockValues<T>>>,
        t: T,
        dt: T,
    ) -> Advanced<T> {
        let y = model.filled(grid, fields, state, t);
        let k = evaluated::<T, G, P, M, D>(
            model,
            Driver::Time,
            grid,
            disc,
            t,
            fields,
            y,
            stages[0],
            false,
            None,
        );
        Advanced { state: axpy_values(y, dt, k), stages: stages.update(0, k) }
    }

    open spec fn suggested(
        &self,
        model: &M,
        grid: &G,
    ) -> Option<T> {
        model.explicit_limit(finest_array::<T, G, D>(grid))
    }

    fn stage_layout(&self, grid: &G) -> (r: StageLayout) {
        let mut stages: Vec<StageKind> = Vec::new();
        stages.push(StageKind::Tendency(Driver::Time));
        StageLayout { stages }
    }

    fn step<
        S: StorageBackend<T>,
        Sch: Scheduler,
        A: Allocator<T, Storage = S>,
    >(
        &self,
        ctx: &StepCtx<'_, T, S, G, P, M, Sch, A>,
        state: &mut State<T, S>,
        stages: &mut [State<T, S>],
        t: T,
        dt: T,
    ) {
        let ghost fields = state.fields();
        let ghost before = all_values(stages@);
        proof {
            assert(stages@[0].fields() == fields);
            ctx.grid.lemma_blocks();
        }
        eval_drift(ctx, state, &mut stages[0], t);
        proof {
            lemma_axpy_fits::<T, G, D>(
                fields,
                ctx.grid,
                Driver::Time,
                state.values(),
                stages@[0].values(),
                dt,
            );
        }
        state.axpy_with(ctx.scheduler, dt, &stages[0]);
        proof {
            assert(all_values(stages@) =~= before.update(0, stages@[0].values()));
        }
    }

    fn suggested_dt(&self, model: &M, grid: &G) -> (r:
        Option<T>) {
        model.stable_dt(finest_spacing_of(grid))
    }
}

} // verus!
