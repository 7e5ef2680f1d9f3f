//! Subcycled time integration for refined hierarchies.
//!
//! Coarse levels take large steps; each finer level takes several small substeps
//! within one coarse step, so the finest grid's restrictive step is never imposed
//! on the whole domain. One step of a level:
//!
//! - snapshot the level, for its children's interpolation in time;
//! - fill the level's ghosts, the coarse source interpolated in time;
//! - step the level (Euler-Maruyama, restricted to its blocks);
//! - subcycle the next finer level and restrict it back: the fine solution wins
//!   beneath its patches.
//!
//! Substep counts are derived from the model's stability limits at the two
//! spacings: the square of the ratio for a parabolic model, the ratio for a
//! hyperbolic one.
use vstd::prelude::*;

use crate::engine::driver::{Driver, DriverSet};
use crate::engine::scheduler::Scheduler;
use crate::engine::state::{
    all_values, allocated_on, copied_values, driver_buffer, stepped_values, BlockValues, FieldSpec,
    State,
};
use crate::engine::storage::{Allocator, Real, StorageBackend};
use crate::geometry::amr::grid::{level_step, AmrGrid};
use crate::geometry::amr::intergrid::{fill_level, level_filled, ring_reaches};
use crate::geometry::amr::migrate::lemma_allocated_field;
use crate::geometry::amr::restriction::{restrict_level, restricted};
use crate::geometry::sweep::lemma_replaced_allocated;
use crate::geometry::grid::{lemma_spread, spread, Grid};
use crate::geometry::halo::{field_slabs, with_field};
use crate::integrators::euler_maruyama::{
    driver_fields, driver_stage_list, driver_stages, lemma_allocated_shaped,
    lemma_stepped_allocated, lemma_tailored_serves,
};
use crate::integrators::rk4::lemma_copy_fits;
use crate::integrators::scheme::{
    eval_drift_level, eval_tendency, stages_ready, Advanced, Integrator, StageKind, StageLayout,
    StepCtx,
};
use crate::physics::model::Model;

verus! {

/// Some driver moves the field.
pub open spec fn dynamic(spec: FieldSpec) -> bool {
    exists|driver: Driver| #[trigger] spec.moved_by(driver)
}

/// The state with the ghosts of a level filled for the first `n` fields; static
/// fields are left alone.
pub open spec fn fields_filled<T: Real, const D: usize>(
    grid: &AmrGrid<T, D>,
    fields: Seq<FieldSpec>,
    v: Seq<BlockValues<T>>,
    interp: Option<(Seq<BlockValues<T>>, T)>,
    level: int,
    n: nat,
) -> Seq<BlockValues<T>>
    decreases n,
{
    if n == 0 {
        v
    } else {
        let f = n - 1;
        let before = fields_filled(grid, fields, v, interp, level, f as nat);
        if dynamic(fields[f]) {
            with_field(
                before,
                f,
                level_filled(
                    grid,
                    fields[f].halo as int,
                    field_slabs(before, f),
                    match interp {
                        Some((old_values, alpha)) => Some((field_slabs(old_values, f), alpha)),
                        None => None,
                    },
                    level,
                ),
            )
        } else {
            before
        }
    }
}

/// The state with a level restricted onto the one below for the first `n` fields.
pub open spec fn fields_restricted<T: Real, const D: usize>(
    grid: &AmrGrid<T, D>,
    fields: Seq<FieldSpec>,
    v: Seq<BlockValues<T>>,
    level: int,
    n: nat,
) -> Seq<BlockValues<T>>
    decreases n,
{
    if n == 0 {
        v
    } else {
        let f = n - 1;
        let before = fields_restricted(grid, fields, v, level, f as nat);
        if dynamic(fields[f]) {
            with_field(
                before,
                f,
                restricted(grid, fields[f].halo as int, field_slabs(before, f), level),
            )
        } else {
            before
        }
    }
}

/// Filling ghosts keeps the allocation.
pub proof fn lemma_filled_allocated<T: Real, const D: usize>(
    grid: &AmrGrid<T, D>,
    fields: Seq<FieldSpec>,
    v: Seq<BlockValues<T>>,
    interp: Option<(Seq<BlockValues<T>>, T)>,
    level: int,
    n: nat,
)
    requires
        allocated_on::<T, T, AmrGrid<T, D>, D>(fields, grid, v),
        n <= fields.len(),
    ensures
        allocated_on::<T, T, AmrGrid<T, D>, D>(
            fields,
            grid,
            fields_filled(grid, fields, v, interp, level, n),
        ),
    decreases n,
{
    if n > 0 {
        let f = n - 1;
        lemma_filled_allocated(grid, fields, v, interp, level, f as nat);
        let before = fields_filled(grid, fields, v, interp, level, f as nat);
        if dynamic(fields[f]) {
            let slabs = level_filled(
                grid,
                fields[f].halo as int,
                field_slabs(before, f),
                match interp {
                    Some((old_values, alpha)) => Some((field_slabs(old_values, f), alpha)),
                    None => None,
                },
                level,
            );
            lemma_replaced_allocated::<T, T, AmrGrid<T, D>, D>(fields, grid, before, f, slabs);
        }
    }
}

/// Restricting keeps the allocation.
pub proof fn lemma_restricted_allocated<T: Real, const D: usize>(
    grid: &AmrGrid<T, D>,
    fields: Seq<FieldSpec>,
    v: Seq<BlockValues<T>>,
    level: int,
    n: nat,
)
    requires
        allocated_on::<T, T, AmrGrid<T, D>, D>(fields, grid, v),
        n <= fields.len(),
    ensures
        allocated_on::<T, T, AmrGrid<T, D>, D>(
            fields,
            grid,
            fields_restricted(grid, fields, v, level, n),
        ),
    decreases n,
{
    if n > 0 {
        let f = n - 1;
        lemma_restricted_allocated(grid, fields, v, level, f as nat);
        let before = fields_restricted(grid, fields, v, level, f as nat);
        if dynamic(fields[f]) {
            lemma_replaced_allocated::<T, T, AmrGrid<T, D>, D>(
                fields,
                grid,
                before,
                f,
                restricted(grid, fields[f].halo as int, field_slabs(before, f), level),
            );
        }
    }
}

/// The earlier state and time fraction, as contents.
pub open spec fn blend_view<T: Real, S: StorageBackend<T>>(
    interp: Option<(&State<T, S>, T)>,
) -> Option<(Seq<BlockValues<T>>, T)> {
    match interp {
        Some((state, alpha)) => Some((state.values(), alpha)),
        None => None,
    }
}

/// Fill one level's ghosts of every dynamic field.
fn fill_fields<T: Real, S: StorageBackend<T>, const D: usize>(
    grid: &AmrGrid<T, D>,
    state: &mut State<T, S>,
    interp: Option<(&State<T, S>, T)>,
    level: u8,
)
    requires
        grid.sound(),
        level < grid.levels(),
        allocated_on::<T, T, AmrGrid<T, D>, D>(old(state).fields(), grid, old(state).values()),
        interp matches Some((earlier, _)) ==> earlier.fields() == old(state).fields()
            && allocated_on::<T, T, AmrGrid<T, D>, D>(
            old(state).fields(),
            grid,
            earlier.values(),
        ),
        forall|f: int|
            0 <= f < old(state).fields().len() && dynamic(#[trigger] old(state).fields()[f])
                ==> ring_reaches(grid, level as int, old(state).fields()[f].halo as int),
    ensures
        final(state).fields() == old(state).fields(),
        final(state).values() == fields_filled(
            grid,
            old(state).fields(),
            old(state).values(),
            blend_view(interp),
            level as int,
            old(state).fields().len(),
        ),
        allocated_on::<T, T, AmrGrid<T, D>, D>(old(state).fields(), grid, final(state).values()),
{
    let ghost fields = state.fields();
    let ghost v = state.values();
    let ghost iv = blend_view(interp);
    let nf = state.layout().num_fields();
    let mut f: usize = 0;
    while f < nf
        invariant
            f <= nf,
            nf == fields.len(),
            grid.sound(),
            level < grid.levels(),
            iv == blend_view(interp),
            allocated_on::<T, T, AmrGrid<T, D>, D>(fields, grid, v),
            interp matches Some((earlier, _)) ==> earlier.fields() == fields && allocated_on::<
                T,
                T,
                AmrGrid<T, D>,
                D,
            >(fields, grid, earlier.values()),
            forall|f: int|
                0 <= f < fields.len() && dynamic(#[trigger] fields[f]) ==> ring_reaches(
                    grid,
                    level as int,
                    fields[f].halo as int,
                ),
            state.fields() == fields,
            state.values() == fields_filled(grid, fields, v, iv, level as int, f as nat),
        decreases nf - f,
    {
        proof {
            lemma_filled_allocated(grid, fields, v, iv, level as int, f as nat);
            lemma_allocated_field(grid, state, f as int);
            if let Some((earlier, _)) = interp {
                lemma_allocated_field(grid, earlier, f as int);
            }
        }
        if !state.layout().specs()[f].is_static() {
            fill_level(grid, state, interp, State::<T, S>::handle_at(f), level);
        }
        f += 1;
    }
    proof {
        lemma_filled_allocated(grid, fields, v, iv, level as int, nf as nat);
    }
}

/// Restrict one level onto the one below, every dynamic field.
fn restrict_fields<T: Real, S: StorageBackend<T>, const D: usize>(
    grid: &AmrGrid<T, D>,
    state: &mut State<T, S>,
    level: u8,
)
    requires
        grid.sound(),
        1 <= level < grid.levels(),
        allocated_on::<T, T, AmrGrid<T, D>, D>(old(state).fields(), grid, old(state).values()),
    ensures
        final(state).fields() == old(state).fields(),
        final(state).values() == fields_restricted(
            grid,
            old(state).fields(),
            old(state).values(),
            level as int,
            old(state).fields().len(),
        ),
        allocated_on::<T, T, AmrGrid<T, D>, D>(old(state).fields(), grid, final(state).values()),
{
    let ghost fields = state.fields();
    let ghost v = state.values();
    let nf = state.layout().num_fields();
    let mut f: usize = 0;
    while f < nf
        invariant
            f <= nf,
            nf == fields.len(),
            grid.sound(),
            1 <= level < grid.levels(),
            allocated_on::<T, T, AmrGrid<T, D>, D>(fields, grid, v),
            state.fields() == fields,
            state.values() == fields_restricted(grid, fields, v, level as int, f as nat),
        decreases nf - f,
    {
        proof {
            lemma_restricted_allocated(grid, fields, v, level as int, f as nat);
            lemma_allocated_field(grid, state, f as int);
        }
        if !state.layout().specs()[f].is_static() {
            restrict_level(grid, state, State::<T, S>::handle_at(f), level);
        }
        f += 1;
    }
    proof {
        lemma_restricted_allocated(grid, fields, v, level as int, nf as nat);
    }
}

/// The model's stability limit at a level's spacing.
pub open spec fn limit_at<T: Real, P, M: Model<T, AmrGrid<T, D>, P, D>, const D: usize>(
    model: &M,
    grid: &AmrGrid<T, D>,
    level: nat,
) -> Option<T> {
    model.explicit_limit(
        spread::<T, D>(|d: int| level_step(grid.base_grid(), grid.ratio_list(), level, d)),
    )
}

/// Substeps the next finer level takes per step of `level`: the ratio of the
/// stability limits, at least one.
pub open spec fn substeps<T: Real, P, M: Model<T, AmrGrid<T, D>, P, D>, const D: usize>(
    model: &M,
    grid: &AmrGrid<T, D>,
    level: nat,
) -> u64 {
    limit_at::<T, P, M, D>(model, grid, level)->0.div_spec(
        limit_at::<T, P, M, D>(model, grid, level + 1)->0,
    ).round_spec().max_spec(T::one_spec()).to_u64_spec()
}

/// Stage slot of a level's snapshot.
pub open spec fn snapshot_slot<N: DriverSet>(level: int) -> int {
    1 + N::size() + level
}

/// One level's own step: snapshot, ghost fill, Euler-Maruyama on its blocks.
pub open spec fn stepped_level<T: Real, P, M: Model<T, AmrGrid<T, D>, P, D>, const D: usize>(
    seed: u64,
    model: &M,
    grid: &AmrGrid<T, D>,
    disc: &P,
    fields: Seq<FieldSpec>,
    cur: Advanced<T>,
    level: int,
    t: T,
    dt: T,
    alpha: T,
) -> Advanced<T> {
    let n = M::Drivers::size();
    let slot = snapshot_slot::<M::Drivers>(level);
    let stages = cur.stages.update(slot, copied_values(cur.stages[slot], cur.state));
    let interp = if level > 0 {
        Some((stages[slot - 1], alpha))
    } else {
        None
    };
    let y = fields_filled(grid, fields, cur.state, interp, level, fields.len());
    let k = driver_fields::<T, AmrGrid<T, D>, P, M, D>(
        model,
        grid,
        disc,
        t,
        fields,
        y,
        stages,
        Some(level as u8),
        n,
    );
    Advanced {
        state: stepped_values::<T, AmrGrid<T, D>, M::Drivers, D>(
            fields,
            grid,
            Some(level as u8),
            dt,
            seed,
            t.to_bits_spec(),
            y,
            k[0],
            k.subrange(1, 1 + n as int),
        ),
        stages: k,
    }
}

/// A level advanced by `dt`, its finer levels subcycled and restricted back.
/// `alpha` is the fraction of the parent's step already elapsed at `t`.
pub open spec fn advanced_level<T: Real, P, M: Model<T, AmrGrid<T, D>, P, D>, const D: usize>(
    seed: u64,
    model: &M,
    grid: &AmrGrid<T, D>,
    disc: &P,
    fields: Seq<FieldSpec>,
    cur: Advanced<T>,
    level: int,
    t: T,
    dt: T,
    alpha: T,
) -> Advanced<T>
    decreases grid.levels() - level, 1int, 0int,
{
    let own = stepped_level::<T, P, M, D>(
        seed,
        model,
        grid,
        disc,
        fields,
        cur,
        level,
        t,
        dt,
        alpha,
    );
    if level + 1 < grid.levels() {
        let n = substeps::<T, P, M, D>(model, grid, level as nat);
        let done = cycled::<T, P, M, D>(
            seed,
            model,
            grid,
            disc,
            fields,
            own,
            level,
            t,
            dt.div_spec(T::from_u64_spec(n)),
            n,
            n as nat,
        );
        Advanced {
            state: fields_restricted(grid, fields, done.state, level + 1, fields.len()),
            stages: done.stages,
        }
    } else {
        own
    }
}

/// The first `s` of `n` substeps of the level above `level`.
pub open spec fn cycled<T: Real, P, M: Model<T, AmrGrid<T, D>, P, D>, const D: usize>(
    seed: u64,
    model: &M,
    grid: &AmrGrid<T, D>,
    disc: &P,
    fields: Seq<FieldSpec>,
    cur: Advanced<T>,
    level: int,
    t: T,
    dt: T,
    n: u64,
    s: nat,
) -> Advanced<T>
    decreases grid.levels() - level, 0int, s,
{
    if s == 0 || level + 1 >= grid.levels() {
        cur
    } else {
        let at = T::from_u64_spec((s - 1) as u64);
        advanced_level::<T, P, M, D>(
            seed,
            model,
            grid,
            disc,
            fields,
            cycled::<T, P, M, D>(
                seed,
                model,
                grid,
                disc,
                fields,
                cur,
                level,
                t,
                dt,
                n,
                (s - 1) as nat,
            ),
            level + 1,
            at.mul_add_spec(dt, t),
            dt,
            at.div_spec(T::from_u64_spec(n)),
        )
    }
}

/// The scheme's buffers: drift, amplitudes, and one snapshot per level the ratios
/// allow (not only the populated ones, which keeps the buffer count stable across
/// regrids).
pub open spec fn cycle_stages<T: Real, N: DriverSet, const D: usize>(
    grid: &AmrGrid<T, D>,
) -> Seq<StageKind> {
    driver_stages::<N>() + Seq::new(grid.ratio_list().len() + 1, |i: int| StageKind::State)
}

/// The hierarchy can be subcycled: ghost rings reach no farther than a domain
/// length, and the model knows its stability limits.
pub open spec fn cyclable<T: Real, P, M: Model<T, AmrGrid<T, D>, P, D>, const D: usize>(
    model: &M,
    grid: &AmrGrid<T, D>,
    fields: Seq<FieldSpec>,
) -> bool {
    &&& forall|level: int, f: int|
        #![trigger grid.cells_at(level), fields[f]]
        0 <= level < grid.levels() && 0 <= f < fields.len() && dynamic(fields[f]) ==> ring_reaches(
            grid,
            level,
            fields[f].halo as int,
        )
    &&& grid.levels() > 1 ==> forall|level: nat|
        level < grid.levels() ==> (#[trigger] limit_at::<T, P, M, D>(model, grid, level)) is Some
}

/// Snapshot, fill and step one level.
fn step_level<
    T: Real,
    S: StorageBackend<T>,
    P: Sync,
    M: Model<T, AmrGrid<T, D>, P, D>,
    Sch: Scheduler,
    A: Allocator<T, Storage = S>,
    const D: usize,
>(
    seed: u64,
    ctx: &StepCtx<'_, T, S, AmrGrid<T, D>, P, M, Sch, A>,
    state: &mut State<T, S>,
    stages: &mut [State<T, S>],
    level: u8,
    t: T,
    dt: T,
    alpha: T,
)
    requires
        ctx.ready::<D>(old(state).fields()),
        level < ctx.grid.levels(),
        cyclable::<T, P, M, D>(ctx.model, ctx.grid, old(state).fields()),
        allocated_on::<T, T, AmrGrid<T, D>, D>(old(state).fields(), ctx.grid, old(state).values()),
        stages_ready::<T, AmrGrid<T, D>, S, D>(
            cycle_stages::<T, M::Drivers, D>(ctx.grid),
            old(state).fields(),
            ctx.grid,
            old(stages)@,
        ),
    ensures
        final(state).fields() == old(state).fields(),
        allocated_on::<T, T, AmrGrid<T, D>, D>(
            old(state).fields(),
            ctx.grid,
            final(state).values(),
        ),
        stages_ready::<T, AmrGrid<T, D>, S, D>(
            cycle_stages::<T, M::Drivers, D>(ctx.grid),
            old(state).fields(),
            ctx.grid,
            final(stages)@,
        ),
        (Advanced { state: final(state).values(), stages: all_values(final(stages)@) })
            == stepped_level::<T, P, M, D>(
            seed,
            ctx.model,
            ctx.grid,
            ctx.disc,
            old(state).fields(),
            (Advanced { state: old(state).values(), stages: all_values(old(stages)@) }),
            level as int,
            t,
            dt,
            alpha,
        ),
{
    let ghost fields = state.fields();
    let ghost kinds = cycle_stages::<T, M::Drivers, D>(ctx.grid);
    let ghost v = state.values();
    let ghost s0 = all_values(stages@);
    let ghost lv = level as int;
    let n = M::Drivers::len();
    let total = stages.len();
    let slot: usize = 1 + n + level as usize;
    proof {
        ctx.grid.lemma_blocks();
        assert(kinds[slot as int] == StageKind::State);
        assert(stages@[slot as int].fields() == fields);
        lemma_copy_fits::<T, AmrGrid<T, D>, D>(fields, ctx.grid, stages@[slot as int].values(), v);
        assert forall|f: int| 0 <= f < fields.len() && dynamic(#[trigger] fields[f]) implies ring_reaches(
            ctx.grid,
            lv,
            fields[f].halo as int,
        ) by {
            let cells = ctx.grid.cells_at(lv);
        }
    }
    stages[slot].copy_from_with(ctx.scheduler, &*state);
    let ghost s1 = all_values(stages@);
    proof {
        assert(s1 =~= s0.update(slot as int, copied_values(s0[slot as int], v)));
        if lv > 0 {
            assert(kinds[slot - 1] == StageKind::State);
            assert(stages@[slot - 1].fields() == fields);
        }
    }
    if level > 0 {
        fill_fields(ctx.grid, state, Some((&stages[slot - 1], alpha)), level);
    } else {
        fill_fields(ctx.grid, state, None, level);
    }
    let ghost y = state.values();
    proof {
        assert(kinds[0] == StageKind::Tendency(Driver::Time));
        assert(stages@[0].fields() == fields);
    }
    eval_drift_level(ctx, &*state, &mut stages[0], t, level);
    proof {
        assert(all_values(stages@) =~= driver_fields::<T, AmrGrid<T, D>, P, M, D>(
            ctx.model,
            ctx.grid,
            ctx.disc,
            t,
            fields,
            y,
            s1,
            Some(level),
            0,
        ));
    }
    let mut i: usize = 0;
    while i < n
        invariant
            i <= n,
            n == M::Drivers::size(),
            total == stages@.len(),
            1 + n < total,
            fields == state.fields(),
            y == state.values(),
            ctx.ready::<D>(fields),
            kinds == cycle_stages::<T, M::Drivers, D>(ctx.grid),
            allocated_on::<T, T, AmrGrid<T, D>, D>(fields, ctx.grid, y),
            stages_ready::<T, AmrGrid<T, D>, S, D>(kinds, fields, ctx.grid, stages@),
            s1.len() == kinds.len(),
            all_values(stages@) == driver_fields::<T, AmrGrid<T, D>, P, M, D>(
                ctx.model,
                ctx.grid,
                ctx.disc,
                t,
                fields,
                y,
                s1,
                Some(level),
                i as nat,
            ),
        decreases n - i,
    {
        let ghost now = stages@;
        let driver = M::Drivers::driver(i);
        proof {
            assert(now[1 + i].fields() == fields);
            assert(kinds[1 + i] == StageKind::Tendency(driver));
            assert(all_values(now)[1 + i] == s1[1 + i]);
        }
        eval_tendency(ctx, &*state, &mut stages[1 + i], t, driver, Some(level));
        proof {
            let next = driver_fields::<T, AmrGrid<T, D>, P, M, D>(
                ctx.model,
                ctx.grid,
                ctx.disc,
                t,
                fields,
                y,
                s1,
                Some(level),
                (i + 1) as nat,
            );
            assert forall|j: int| 0 <= j < next.len() implies all_values(stages@)[j]
                == #[trigger] next[j] by {
                if j != 1 + i {
                    assert(all_values(now)[j] == stages@[j].values());
                }
            }
            assert(all_values(stages@) =~= next);
        }
        i += 1;
    }
    let ghost after = stages@;
    let ghost k = all_values(after);
    proof {
        assert(after[0].fields() == fields);
        lemma_allocated_shaped::<T, AmrGrid<T, D>, D>(fields, ctx.grid, y);
        lemma_tailored_serves::<T, AmrGrid<T, D>, D>(
            fields,
            ctx.grid,
            Driver::Time,
            after[0].values(),
        );
    }
    let (tendency, snapshots) = stages.split_at_mut(1 + n);
    let (drift, amps) = tendency.split_at_mut(1);
    proof {
        assert forall|j: int| 0 <= j < amps@.len() implies driver_buffer::<
            T,
            T,
            AmrGrid<T, D>,
            D,
        >(fields, ctx.grid, M::Drivers::member(j), (#[trigger] amps@[j]).values()) by {
            assert(amps@[j] == after[1 + j]);
            assert(kinds[1 + j] == StageKind::Tendency(M::Drivers::member(j)));
            lemma_tailored_serves::<T, AmrGrid<T, D>, D>(
                fields,
                ctx.grid,
                M::Drivers::member(j),
                amps@[j].values(),
            );
        }
        assert(all_values(amps@) =~= k.subrange(1, 1 + n as int));
        lemma_stepped_allocated::<T, AmrGrid<T, D>, M::Drivers, D>(
            fields,
            ctx.grid,
            Some(level),
            dt,
            seed,
            t.to_bits_spec(),
            y,
            k[0],
            k.subrange(1, 1 + n as int),
        );
    }
    state.apply_step_level::<AmrGrid<T, D>, M::Drivers, Sch, D>(
        ctx.scheduler,
        ctx.grid,
        &drift[0],
        amps,
        dt,
        seed,
        t.to_bits(),
        level,
    );
    proof {
        assert(stages@ =~= after);
    }
}

/// Substeps the next finer level takes per step of `level`.
fn count_substeps<T: Real, P, M: Model<T, AmrGrid<T, D>, P, D>, const D: usize>(
    model: &M,
    grid: &AmrGrid<T, D>,
    level: u8,
) -> (n: u64)
    requires
        grid.sound(),
        level + 1 < grid.levels(),
        limit_at::<T, P, M, D>(model, grid, level as nat) is Some,
        limit_at::<T, P, M, D>(model, grid, (level + 1) as nat) is Some,
    ensures
        n == substeps::<T, P, M, D>(model, grid, level as nat),
{
    let coarse = grid.spacing_at_level(level);
    let fine = grid.spacing_at_level(level + 1);
    proof {
        lemma_spread::<T, D>(
            coarse,
            |d: int| level_step(grid.base_grid(), grid.ratio_list(), level as nat, d),
        );
        lemma_spread::<T, D>(
            fine,
            |d: int| level_step(grid.base_grid(), grid.ratio_list(), (level + 1) as nat, d),
        );
    }
    match (model.stable_dt(coarse), model.stable_dt(fine)) {
        (Some(a), Some(b)) => a.div(b).round().max(T::one()).to_u64(),
        _ => 0,
    }
}

/// Advance level `level` by `dt`, starting at time `t`; `alpha` is the fraction of
/// the *parent's* step already elapsed at `t`, used to interpolate this level's
/// coarse ghost source in time. Recurses into finer levels (subcycling them) and
/// restricts them back on completion.
fn advance<
    T: Real,
    S: StorageBackend<T>,
    P: Sync,
    M: Model<T, AmrGrid<T, D>, P, D>,
    Sch: Scheduler,
    A: Allocator<T, Storage = S>,
    const D: usize,
>(
    seed: u64,
    ctx: &StepCtx<'_, T, S, AmrGrid<T, D>, P, M, Sch, A>,
    state: &mut State<T, S>,
    stages: &mut [State<T, S>],
    level: u8,
    t: T,
    dt: T,
    alpha: T,
)
    requires
        ctx.ready::<D>(old(state).fields()),
        level < ctx.grid.levels(),
        cyclable::<T, P, M, D>(ctx.model, ctx.grid, old(state).fields()),
        allocated_on::<T, T, AmrGrid<T, D>, D>(old(state).fields(), ctx.grid, old(state).values()),
        stages_ready::<T, AmrGrid<T, D>, S, D>(
            cycle_stages::<T, M::Drivers, D>(ctx.grid),
            old(state).fields(),
            ctx.grid,
            old(stages)@,
        ),
    ensures
        final(state).fields() == old(state).fields(),
        allocated_on::<T, T, AmrGrid<T, D>, D>(
            old(state).fields(),
            ctx.grid,
            final(state).values(),
        ),
        stages_ready::<T, AmrGrid<T, D>, S, D>(
            cycle_stages::<T, M::Drivers, D>(ctx.grid),
            old(state).fields(),
            ctx.grid,
            final(stages)@,
        ),
        (Advanced { state: final(state).values(), stages: all_values(final(stages)@) })
            == advanced_level::<T, P, M, D>(
            seed,
            ctx.model,
            ctx.grid,
            ctx.disc,
            old(state).fields(),
            (Advanced { state: old(state).values(), stages: all_values(old(stages)@) }),
            level as int,
            t,
            dt,
            alpha,
        ),
    decreases ctx.grid.levels() - level,
{
    let ghost fields = state.fields();
    let ghost kinds = cycle_stages::<T, M::Drivers, D>(ctx.grid);
    step_level(seed, ctx, state, stages, level, t, dt, alpha);
    let ghost own = Advanced { state: state.values(), stages: all_values(stages@) };
    let levels = ctx.grid.num_levels();
    if (level as usize) + 1 < levels {
        let child: u8 = level + 1;
        let ghost lv = level as int;
        proof {
            assert(limit_at::<T, P, M, D>(ctx.model, ctx.grid, level as nat) is Some);
            assert(limit_at::<T, P, M, D>(ctx.model, ctx.grid, (level + 1) as nat) is Some);
        }
        let n = count_substeps::<T, P, M, D>(ctx.model, ctx.grid, level);
        let dt_child = dt.div(T::from_u64(n));
        let mut s: u64 = 0;
        while s < n
            invariant
                s <= n,
                lv == level,
                child == level + 1,
                child < ctx.grid.levels(),
                fields == state.fields(),
                kinds == cycle_stages::<T, M::Drivers, D>(ctx.grid),
                ctx.ready::<D>(fields),
                cyclable::<T, P, M, D>(ctx.model, ctx.grid, fields),
                allocated_on::<T, T, AmrGrid<T, D>, D>(fields, ctx.grid, state.values()),
                stages_ready::<T, AmrGrid<T, D>, S, D>(kinds, fields, ctx.grid, stages@),
                (Advanced { state: state.values(), stages: all_values(stages@) }) == cycled::<
                    T,
                    P,
                    M,
                    D,
                >(
                    seed,
                    ctx.model,
                    ctx.grid,
                    ctx.disc,
                    fields,
                    own,
                    lv,
                    t,
                    dt_child,
                    n,
                    s as nat,
                ),
            decreases n - s,
        {
            let at = T::from_u64(s);
            advance(
                seed,
                ctx,
                state,
                stages,
                child,
                at.mul_add(dt_child, t),
                dt_child,
                at.div(T::from_u64(n)),
            );
            s += 1;
        }
        restrict_fields(ctx.grid, state, child);
    }
}

/// Subcycling integrator; see the module docs.
#[derive(Debug, Clone, Copy, Default)]
pub struct Subcycling {
    /// Seed of the counter-based noise generator.
    pub seed: u64,
}

impl<
    T: Real,
    P: Sync,
    M: Model<T, AmrGrid<T, D>, P, D>,
    const D: usize,
> Integrator<T, AmrGrid<T, D>, P, M, D> for Subcycling {
    open spec fn stages_of(&self, grid: &AmrGrid<T, D>) -> Seq<StageKind> {
        cycle_stages::<T, M::Drivers, D>(grid)
    }

    open spec fn admits(
        &self,
        model: &M,
        grid: &AmrGrid<T, D>,
        fields: Seq<FieldSpec>,
    ) -> bool {
        cyclable::<T, P, M, D>(model, grid, fields)
    }

    open spec fn advanced(
        &self,
        model: &M,
        grid: &AmrGrid<T, D>,
        disc: &P,
        fields: Seq<FieldSpec>,
        state: Seq<BlockValues<T>>,
        stages: Seq<Seq<BlockValues<T>>>,
        t: T,
        dt: T,
    ) -> Advanced<T> {
        advanced_level::<T, P, M, D>(
            self.seed,
            model,
            grid,
            disc,
            fields,
            Advanced { state, stages },
            0,
            t,
            dt,
            T::zero_spec(),
        )
    }

    /// The coarsest level's stable step; finer levels are refined in time per
    /// level inside the step.
    open spec fn suggested(&self, model: &M, grid: &AmrGrid<T, D>) -> Option<T> {
        limit_at::<T, P, M, D>(model, grid, 0)
    }

    fn stage_layout(&self, grid: &AmrGrid<T, D>) -> (r: StageLayout) {
        let mut stages = driver_stage_list::<M::Drivers>();
        let ghost head = stages@;
        let deeper = grid.ratios().len();
        let mut i: usize = 0;
        while i < deeper
            invariant
                i <= deeper,
                stages@ == head + Seq::new(i as nat, |j: int| StageKind::State),
            decreases deeper - i,
        {
            stages.push(StageKind::State);
            i += 1;
            proof {
                assert(stages@ =~= head + Seq::new(i as nat, |j: int| StageKind::State));
            }
        }
        stages.push(StageKind::State);
        proof {
            assert(stages@ =~= head + Seq::new((deeper + 1) as nat, |j: int| StageKind::State));
        }
        StageLayout { stages }
    }

    fn step<S: StorageBackend<T>, Sch: Scheduler, A: Allocator<T, Storage = S>>(
        &self,
        ctx: &StepCtx<'_, T, S, AmrGrid<T, D>, P, M, Sch, A>,
        state: &mut State<T, S>,
        stages: &mut [State<T, S>],
        t: T,
        dt: T,
    ) {
        advance(self.seed, ctx, state, stages, 0, t, dt, T::zero());
    }

    fn suggested_dt(&self, model: &M, grid: &AmrGrid<T, D>) -> (r: Option<T>) {
        let h = grid.spacing_at_level(0);
        proof {
            lemma_spread::<T, D>(
                h,
                |d: int| level_step(grid.base_grid(), grid.ratio_list(), 0, d),
            );
        }
        model.stable_dt(h)
    }
}

} // verus!
