//! Classic fourth-order Runge-Kutta.
use vstd::prelude::*;

use crate::engine::driver::{Driver, NoNoise};
use crate::engine::scheduler::Scheduler;
use crate::engine::state::{
    all_values, allocated_on, axpy_values, congruent, copied_values, full_block, BlockValues,
    FieldSpec, State,
};
use crate::engine::storage::{Allocator, Real, StorageBackend};
use crate::geometry::grid::{finest_array, Grid};
use crate::integrators::euler::{finest_spacing_of, lemma_axpy_fits};
use crate::integrators::scheme::{
    eval_drift, evaluated, stage_ready, Advanced, Integrator, StageKind, StageLayout, StepCtx,
};
use crate::physics::model::Model;

verus! {

/// Classic fourth-order Runge-Kutta.
///
/// Deterministic models only: a stochastic term would reduce the scheme to weak
/// first order anyway, so stochastic systems pair with
/// [`crate::integrators::euler_maruyama::EulerMaruyama`] instead.
#[derive(Debug, Clone, Copy, Default)]
pub struct RungeKutta4;

/// Two full states pair up, and copying one over the other gives it.
pub proof fn lemma_copy_fits<T: Real, G: Grid<T, D>, const D: usize>(
    fields: Seq<FieldSpec>,
    grid: &G,
    v: Seq<BlockValues<T>>,
    w: Seq<BlockValues<T>>,
)
    requires
        allocated_on::<T, T, G, D>(fields, grid, v),
        allocated_on::<T, T, G, D>(fields, grid, w),
    ensures
        congruent(v, w),
        copied_values(v, w) == w,
{
    assert forall|b: int| 0 <= b < v.len() implies crate::engine::state::matched(v[b], w[b]) by {
        assert(full_block(fields, grid.extent_of(b), v[b]));
        assert(full_block(fields, grid.extent_of(b), w[b]));
    }
    let c = copied_values(v, w);
    assert forall|b: int| 0 <= b < v.len() implies #[trigger] c[b] == w[b] by {
        assert(full_block(fields, grid.extent_of(b), v[b]));
        assert(full_block(fields, grid.extent_of(b), w[b]));
        assert forall|f: int| 0 <= f < v[b].fields.len() implies #[trigger] c[b].fields[f]
            == w[b].fields[f] by {
            assert(v[b].fields[f].len() == w[b].fields[f].len());
            assert(c[b].fields[f] =~= w[b].fields[f]);
        }
        assert(c[b].fields =~= w[b].fields);
        assert(c[b].rate =~= w[b].rate);
    }
    assert(c =~= w);
}

/// Slope at one stage: the state is ghost-filled, then the drift evaluated there.
pub open spec fn slope<T: Real, G: Grid<T, D>, P, M: Model<T, G, P, D>, const D: usize>(
    model: &M,
    grid: &G,
    disc: &P,
    fields: Seq<FieldSpec>,
    y: Seq<BlockValues<T>>,
    out: Seq<BlockValues<T>>,
    t: T,
) -> Seq<BlockValues<T>> {
    evaluated::<T, G, P, M, D>(
        model,
        Driver::Time,
        grid,
        disc,
        t,
        fields,
        model.filled(grid, fields, y, t),
        out,
        false,
        None,
    )
}

/// Evaluate the slope at `base + scale * k` through the stage-state buffer.
fn stage_slope<
    T: Real,
    S: StorageBackend<T>,
    G: Grid<T, D>,
    P: Sync,
    M: Model<T, G, P, D>,
    Sch: Scheduler,
    A: Allocator<T, Storage = S>,
    const D: usize,
>(
    ctx: &StepCtx<'_, T, S, G, P, M, Sch, A>,
    base: &State<T, S>,
    scale: T,
    k: &State<T, S>,
    y_tmp: &mut State<T, S>,
    out: &mut State<T, S>,
    t: T,
)
    requires
        ctx.ready::<D>(base.fields()),
        allocated_on::<T, T, G, D>(base.fields(), ctx.grid, base.values()),
        k.fields() == base.fields(),
        stage_ready::<T, G, D>(
            StageKind::Tendency(Driver::Time),
            base.fields(),
            ctx.grid,
            k.values(),
        ),
        old(y_tmp).fields() == base.fields(),
        allocated_on::<T, T, G, D>(base.fields(), ctx.grid, old(y_tmp).values()),
        old(out).fields() == base.fields(),
        stage_ready::<T, G, D>(
            StageKind::Tendency(Driver::Time),
            base.fields(),
            ctx.grid,
            old(out).values(),
        ),
    ensures
        final(y_tmp).fields() == base.fields(),
        allocated_on::<T, T, G, D>(base.fields(), ctx.grid, final(y_tmp).values()),
        final(y_tmp).values() == ctx.model.filled(
            ctx.grid,
            base.fields(),
            axpy_values(base.values(), scale, k.values()),
            t,
        ),
        final(out).fields() == base.fields(),
        stage_ready::<T, G, D>(
            StageKind::Tendency(Driver::Time),
            base.fields(),
            ctx.grid,
            final(out).values(),
        ),
        final(out).values() == slope::<T, G, P, M, D>(
            ctx.model,
            ctx.grid,
            ctx.disc,
            base.fields(),
            axpy_values(base.values(), scale, k.values()),
            old(out).values(),
            t,
        ),
{
    proof {
        ctx.grid.lemma_blocks();
        lemma_copy_fits::<T, G, D>(base.fields(), ctx.grid, y_tmp.values(), base.values());
        lemma_axpy_fits::<T, G, D>(
            base.fields(),
            ctx.grid,
            Driver::Time,
            base.values(),
            k.values(),
            scale,
        );
    }
    y_tmp.copy_from_with(ctx.scheduler, base);
    y_tmp.axpy_with(ctx.scheduler, scale, k);
    eval_drift(ctx, y_tmp, out, t);
}

/// The four slopes of a step, and the last stage state.
pub struct Slopes<T> {
    pub k1: Seq<BlockValues<T>>,
    pub k2: Seq<BlockValues<T>>,
    pub k3: Seq<BlockValues<T>>,
    pub k4: Seq<BlockValues<T>>,
    pub last: Seq<BlockValues<T>>,
}

/// The four slopes from the ghost-filled state `y`.
pub open spec fn slopes<T: Real, G: Grid<T, D>, P, M: Model<T, G, P, D>, const D: usize>(
    model: &M,
    grid: &G,
    disc: &P,
    fields: Seq<FieldSpec>,
    y: Seq<BlockValues<T>>,
    stages: Seq<Seq<BlockValues<T>>>,
    t: T,
    dt: T,
) -> Slopes<T> {
    let half = T::half_spec().mul_spec(dt);
    let mid = T::half_spec().mul_add_spec(dt, t);
    let end = t.add_spec(dt);
    let k1 = evaluated::<T, G, P, M, D>(
        model,
        Driver::Time,
        grid,
        disc,
        t,
        fields,
        y,
        stages[0],
        false,
        None,
    );
    let k2 = slope::<T, G, P, M, D>(
        model,
        grid,
        disc,
        fields,
        axpy_values(y, half, k1),
        stages[1],
        mid,
    );
    let k3 = slope::<T, G, P, M, D>(
        model,
        grid,
        disc,
        fields,
        axpy_values(y, half, k2),
        stages[2],
        mid,
    );
    let y4 = axpy_values(y, dt, k3);
    let k4 = slope::<T, G, P, M, D>(model, grid, disc, fields, y4, stages[3], end);
    Slopes { k1, k2, k3, k4, last: model.filled(grid, fields, y4, end) }
}

impl<
    T: Real,
    G: Grid<T, D>,
    P: Sync,
    M: Model<T, G, P, D, Drivers = NoNoise>,
    const D: usize,
> Integrator<T, G, P, M, D> for RungeKutta4 {
    open spec fn stages_of(&self, grid: &G) -> Seq<StageKind> {
        seq![
            StageKind::Tendency(Driver::Time),
            StageKind::Tendency(Driver::Time),
            StageKind::Tendency(Driver::Time),
            StageKind::Tendency(Driver::Time),
            StageKind::State,
        ]
    }

    open spec fn admits(&self, model: &M, grid: &G, fields: Seq<FieldSpec>) -> bool {
        true
    }

    open spec fn advanced(
        &self,
        model: &M,
        grid: &G,
        disc: &P,
        fields: Seq<FieldSpec>,
        state: Seq<BlockValues<T>>,
        stages: Seq<Seq<BlockValues<T>>>,
        t: T,
        dt: T,
    ) -> Advanced<T> {
        let y = model.filled(grid, fields, state, t);
        let k = slopes::<T, G, P, M, D>(model, grid, disc, fields, y, stages, t, dt);
        let sixth = dt.div_spec(T::from_u64_spec(6));
        let third = dt.div_spec(T::from_u64_spec(3));
        Advanced {
            state: axpy_values(
                axpy_values(
                    axpy_values(axpy_values(y, sixth, k.k1), third, k.k2),
                    third,
                    k.k3,
                ),
                sixth,
                k.k4,
            ),
            stages: seq![k.k1, k.k2, k.k3, k.k4, k.last],
        }
    }

    open spec fn suggested(&self, model: &M, grid: &G) -> Option<T> {
        model.explicit_limit(finest_array::<T, G, D>(grid))
    }

    fn stage_layout(&self, grid: &G) -> (r: StageLayout) {
        let mut stages: Vec<StageKind> = Vec::new();
        stages.push(StageKind::Tendency(Driver::Time));
        stages.push(StageKind::Tendency(Driver::Time));
        stages.push(StageKind::Tendency(Driver::Time));
        stages.push(StageKind::Tendency(Driver::Time));
        stages.push(StageKind::State);
        let r = StageLayout { stages };
        proof {
            assert(r.stages@ =~= Integrator::<T, G, P, M, D>::stages_of(self, grid));
        }
        r
    }

    fn step<S: StorageBackend<T>, Sch: Scheduler, A: Allocator<T, Storage = S>>(
        &self,
        ctx: &StepCtx<'_, T, S, G, P, M, Sch, A>,
        state: &mut State<T, S>,
        stages: &mut [State<T, S>],
        t: T,
        dt: T,
    ) {
        let ghost fields = state.fields();
        let ghost before = all_values(stages@);
        let ghost start = stages@;
        proof {
            assert(start[0].fields() == fields);
            assert(start[1].fields() == fields);
            assert(start[2].fields() == fields);
            assert(start[3].fields() == fields);
            assert(start[4].fields() == fields);
            ctx.grid.lemma_blocks();
        }
        let half = T::half().mul(dt);
        let mid = T::half().mul_add(dt, t);
        let (k1s, rest) = stages.split_at_mut(1);
        let (k2s, rest) = rest.split_at_mut(1);
        let (k3s, rest) = rest.split_at_mut(1);
        let (k4s, y_tmps) = rest.split_at_mut(1);
        eval_drift(ctx, state, &mut k1s[0], t);
        let ghost y = state.values();
        stage_slope(ctx, &*state, half, &k1s[0], &mut y_tmps[0], &mut k2s[0], mid);
        stage_slope(ctx, &*state, half, &k2s[0], &mut y_tmps[0], &mut k3s[0], mid);
        stage_slope(ctx, &*state, dt, &k3s[0], &mut y_tmps[0], &mut k4s[0], t.add(dt));
        let sixth = dt.div(T::from_u64(6));
        let third = dt.div(T::from_u64(3));
        proof {
            let a = axpy_values(y, sixth, k1s@[0].values());
            let b = axpy_values(a, third, k2s@[0].values());
            let c = axpy_values(b, third, k3s@[0].values());
            lemma_axpy_fits::<T, G, D>(
                fields,
                ctx.grid,
                Driver::Time,
                y,
                k1s@[0].values(),
                sixth,
            );
            lemma_axpy_fits::<T, G, D>(
                fields,
                ctx.grid,
                Driver::Time,
                a,
                k2s@[0].values(),
                third,
            );
            lemma_axpy_fits::<T, G, D>(
                fields,
                ctx.grid,
                Driver::Time,
                b,
                k3s@[0].values(),
                third,
            );
            lemma_axpy_fits::<T, G, D>(
                fields,
                ctx.grid,
                Driver::Time,
                c,
                k4s@[0].values(),
                sixth,
            );
        }
        state.axpy_with(ctx.scheduler, sixth, &k1s[0]);
        state.axpy_with(ctx.scheduler, third, &k2s[0]);
        state.axpy_with(ctx.scheduler, third, &k3s[0]);
        state.axpy_with(ctx.scheduler, sixth, &k4s[0]);
        proof {
            let k = slopes::<T, G, P, M, D>(ctx.model, ctx.grid, ctx.disc, fields, y, before, t, dt);
            assert(all_values(stages@) =~= seq![k.k1, k.k2, k.k3, k.k4, k.last]);
        }
    }

    fn suggested_dt(&self, model: &M, grid: &G) -> (r: Option<T>) {
        model.stable_dt(finest_spacing_of(grid))
    }
}

} // verus!
