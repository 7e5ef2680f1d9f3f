//! What the explicit schemes make of a source: a drift that depends on the time alone.
use vstd::prelude::*;

use crate::engine::driver::{Driver, NoNoise};
use crate::engine::exact::{exact, lemma_associates, lemma_commutes, lemma_distributes};
use crate::engine::state::{axpy_block, axpy_slab, axpy_values, BlockValues, FieldSpec};
use crate::engine::storage::Real;
use crate::geometry::grid::Grid;
use crate::integrators::euler::ForwardEuler;
use crate::integrators::rk4::{slopes, RungeKutta4};
use crate::integrators::scheme::{evaluated, stage_ready, Integrator, StageKind};
use crate::physics::model::Model;

verus! {

/// The contents hold an entry at this block, field and offset.
pub open spec fn has_entry<T>(u: Seq<BlockValues<T>>, b: int, f: int, i: int) -> bool {
    &&& 0 <= b < u.len()
    &&& 0 <= f < u[b].fields.len()
    &&& 0 <= i < u[b].fields[f].len()
}

/// The drift of an entry is a source: at every state it is this function of the time.
pub open spec fn is_source<T: Real, G: Grid<T, D>, P, M: Model<T, G, P, D>, const D: usize>(
    w: spec_fn(T) -> real,
    source: spec_fn(real) -> real,
    model: &M,
    grid: &G,
    disc: &P,
    fields: Seq<FieldSpec>,
    b: int,
    f: int,
    i: int,
) -> bool {
    forall|u: Seq<BlockValues<T>>, out: Seq<BlockValues<T>>, t: T|
        stage_ready::<T, G, D>(StageKind::Tendency(Driver::Time), fields, grid, out) ==> {
            let k = #[trigger] evaluated::<T, G, P, M, D>(
                model,
                Driver::Time,
                grid,
                disc,
                t,
                fields,
                u,
                out,
                false,
                None,
            );
            has_entry(k, b, f, i) && w(k[b].fields[f][i]) == source(w(t))
        }
}

proof fn lemma_entry_axpy<T: Real>(
    w: spec_fn(T) -> real,
    u: Seq<BlockValues<T>>,
    alpha: T,
    k: Seq<BlockValues<T>>,
    b: int,
    f: int,
    i: int,
)
    requires
        exact(w),
        has_entry(u, b, f, i),
        has_entry(k, b, f, i),
    ensures
        has_entry(axpy_values(u, alpha, k), b, f, i),
        w(axpy_values(u, alpha, k)[b].fields[f][i]) == w(u[b].fields[f][i]) + w(alpha) * w(
            k[b].fields[f][i],
        ),
{
    let v = axpy_values(u, alpha, k);
    assert(v[b] == axpy_block(u[b], alpha, k[b]));
    assert(v[b].fields[f] == axpy_slab(u[b].fields[f], alpha, k[b].fields[f]));
}

/// In exact arithmetic a forward Euler step adds to an entry driven by a source the step
/// times the source at its start.
pub proof fn euler_integrates_sources_to_first_order<
    T: Real,
    G: Grid<T, D>,
    P: Sync,
    M: Model<T, G, P, D, Drivers = NoNoise>,
    const D: usize,
>(
    w: spec_fn(T) -> real,
    source: spec_fn(real) -> real,
    model: &M,
    grid: &G,
    disc: &P,
    fields: Seq<FieldSpec>,
    state: Seq<BlockValues<T>>,
    stages: Seq<Seq<BlockValues<T>>>,
    t: T,
    dt: T,
    b: int,
    f: int,
    i: int,
)
    requires
        exact(w),
        is_source::<T, G, P, M, D>(w, source, model, grid, disc, fields, b, f, i),
        has_entry(model.filled(grid, fields, state, t), b, f, i),
        stage_ready::<T, G, D>(StageKind::Tendency(Driver::Time), fields, grid, stages[0]),
    ensures
        ({
            let y = model.filled(grid, fields, state, t);
            let next = Integrator::<T, G, P, M, D>::advanced(
                &ForwardEuler,
                model,
                grid,
                disc,
                fields,
                state,
                stages,
                t,
                dt,
            ).state;
            w(next[b].fields[f][i]) - w(y[b].fields[f][i]) == w(dt) * source(w(t))
        }),
{
    let y = model.filled(grid, fields, state, t);
    let k = evaluated::<T, G, P, M, D>(
        model,
        Driver::Time,
        grid,
        disc,
        t,
        fields,
        y,
        stages[0],
        false,
        None,
    );
    lemma_entry_axpy(w, y, dt, k, b, f, i);
}

proof fn lemma_simpson(h: real, half: real, sixth: real, third: real, a: real, m: real, e: real)
    requires
        half + half == 1 as real,
        sixth * (6 as real) == h,
        third * (3 as real) == h,
    ensures
        half * h == h / (2 as real),
        (sixth * a + third * m + third * m + sixth * e) * (6 as real) == h * (a + 4 as real * m
            + e),
{
    lemma_distributes(h, half, half);
    assert(1 as real * h == h) by (nonlinear_arith);
    assert(third == 2 as real * sixth);
    assert(h == 6 as real * sixth);
    let x = sixth;
    let total = a + 4 as real * m + e;
    lemma_associates(2 as real, x, m);
    lemma_associates(6 as real, x, total);
    lemma_distributes(x, a + 4 as real * m, e);
    lemma_distributes(x, a, 4 as real * m);
    lemma_associates(x, 4 as real, m);
    lemma_commutes(x, 4 as real);
    lemma_associates(4 as real, x, m);
}

/// In exact arithmetic a Runge-Kutta step integrates a source by Simpson's rule: the
/// start, four times the middle and the end, times a sixth of the step.
pub proof fn runge_kutta_integrates_sources_by_simpson<
    T: Real,
    G: Grid<T, D>,
    P: Sync,
    M: Model<T, G, P, D, Drivers = NoNoise>,
    const D: usize,
>(
    w: spec_fn(T) -> real,
    source: spec_fn(real) -> real,
    model: &M,
    grid: &G,
    disc: &P,
    fields: Seq<FieldSpec>,
    state: Seq<BlockValues<T>>,
    stages: Seq<Seq<BlockValues<T>>>,
    t: T,
    dt: T,
    b: int,
    f: int,
    i: int,
)
    requires
        exact(w),
        is_source::<T, G, P, M, D>(w, source, model, grid, disc, fields, b, f, i),
        has_entry(model.filled(grid, fields, state, t), b, f, i),
        forall|j: int|
            0 <= j < 4 ==> stage_ready::<T, G, D>(
                StageKind::Tendency(Driver::Time),
                fields,
                grid,
                #[trigger] stages[j],
            ),
    ensures
        ({
            let y = model.filled(grid, fields, state, t);
            let next = Integrator::<T, G, P, M, D>::advanced(
                &RungeKutta4,
                model,
                grid,
                disc,
                fields,
                state,
                stages,
                t,
                dt,
            ).state;
            (w(next[b].fields[f][i]) - w(y[b].fields[f][i])) * (6 as real) == w(dt) * (source(w(t))
                + 4 as real * source(w(t) + w(dt) / (2 as real)) + source(w(t) + w(dt)))
        }),
{
    let y = model.filled(grid, fields, state, t);
    let k = slopes::<T, G, P, M, D>(model, grid, disc, fields, y, stages, t, dt);
    let sixth = dt.div_spec(T::from_u64_spec(6));
    let third = dt.div_spec(T::from_u64_spec(3));
    let half = w(T::half_spec());
    assert(w(T::from_u64_spec(6)) == 6 as real);
    assert(w(T::from_u64_spec(3)) == 3 as real);
    assert(stage_ready::<T, G, D>(
        StageKind::Tendency(Driver::Time),
        fields,
        grid,
        stages[0],
    ));
    assert(stage_ready::<T, G, D>(
        StageKind::Tendency(Driver::Time),
        fields,
        grid,
        stages[1],
    ));
    assert(stage_ready::<T, G, D>(
        StageKind::Tendency(Driver::Time),
        fields,
        grid,
        stages[2],
    ));
    assert(stage_ready::<T, G, D>(
        StageKind::Tendency(Driver::Time),
        fields,
        grid,
        stages[3],
    ));
    let mid = T::half_spec().mul_add_spec(dt, t);
    let end = t.add_spec(dt);
    let (a, m, e) = (source(w(t)), source(w(mid)), source(w(end)));
    lemma_simpson(w(dt), half, w(sixth), w(third), a, m, e);
    assert(w(mid) == w(t) + w(dt) / (2 as real));
    assert(has_entry(k.k1, b, f, i) && w(k.k1[b].fields[f][i]) == a);
    assert(has_entry(k.k2, b, f, i) && w(k.k2[b].fields[f][i]) == m);
    assert(has_entry(k.k3, b, f, i) && w(k.k3[b].fields[f][i]) == m);
    assert(has_entry(k.k4, b, f, i) && w(k.k4[b].fields[f][i]) == e);
    let v1 = axpy_values(y, sixth, k.k1);
    lemma_entry_axpy(w, y, sixth, k.k1, b, f, i);
    let v2 = axpy_values(v1, third, k.k2);
    lemma_entry_axpy(w, v1, third, k.k2, b, f, i);
    let v3 = axpy_values(v2, third, k.k3);
    lemma_entry_axpy(w, v2, third, k.k3, b, f, i);
    lemma_entry_axpy(w, v3, sixth, k.k4, b, f, i);
}

} // verus!
