//! How the substeps of a subcycled step fit together: in time, in the ghosts they read,
//! and in the blocks they move.
use vstd::prelude::*;

use crate::engine::driver::{Driver, DriverSet};
use crate::engine::exact::{
    equality_exact, exact, growth_exact, growth_less_one_exact, lemma_commutes, order_exact,
    roots_exact,
};
use crate::engine::state::{
    allocated_on, copied_values, full_block, stepped_block, zeroed, BlockValues, FieldSpec,
};
use crate::engine::storage::Real;
use crate::geometry::amr::grid::AmrGrid;
use crate::geometry::amr::intergrid::level_filled;
use crate::geometry::grid::Grid;
use crate::geometry::halo::{field_slabs, with_field};
use crate::integrators::euler_maruyama::driver_fields;
use crate::integrators::increments::{contributions, steps_add_every_contribution};
use crate::integrators::rk4::lemma_copy_fits;
use crate::integrators::scheme::Advanced;
use crate::integrators::subcycling::{
    advanced_level, cycled, dynamic, fields_filled, fields_restricted, lemma_filled_allocated,
    snapshot_slot, stepped_level, substeps,
};
use crate::physics::model::Model;

verus! {

/// In exact arithmetic the substeps of a level tile the step of the level below. The
/// level is stepped first; then, `n` times over, the level above is advanced by one
/// `n`-th of the step, the `s`-th time from that many such parts after the start and with
/// as many `n`-ths of the step elapsed; then it is restricted back.
pub proof fn substeps_tile_the_step<
    T: Real,
    P,
    M: Model<T, AmrGrid<T, D>, P, D>,
    const D: usize,
>(
    v: spec_fn(T) -> real,
    seed: u64,
    model: &M,
    grid: &AmrGrid<T, D>,
    disc: &P,
    fields: Seq<FieldSpec>,
    cur: Advanced<T>,
    level: int,
    t: T,
    dt: T,
    alpha: T,
    s: nat,
) -> (parts: (T, T, T))
    requires
        exact(v),
        0 <= level,
        level + 1 < grid.levels(),
        s < substeps::<T, P, M, D>(model, grid, level as nat),
    ensures
        ({
            let n = substeps::<T, P, M, D>(model, grid, level as nat);
            let own = stepped_level::<T, P, M, D>(
                seed,
                model,
                grid,
                disc,
                fields,
                cur,
                level,
                t,
                dt,
                alpha,
            );
            let (part, at, elapsed) = parts;
            let before = cycled::<T, P, M, D>(
                seed,
                model,
                grid,
                disc,
                fields,
                own,
                level,
                t,
                part,
                n,
                s,
            );
            let after = cycled::<T, P, M, D>(
                seed,
                model,
                grid,
                disc,
                fields,
                own,
                level,
                t,
                part,
                n,
                s + 1,
            );
            &&& v(part) * n as int as real == v(dt)
            &&& v(at) == v(t) + s as real * v(part)
            &&& v(elapsed) * n as int as real == s as real
            &&& s == 0 ==> before == own
            &&& after == advanced_level::<T, P, M, D>(
                seed,
                model,
                grid,
                disc,
                fields,
                before,
                level + 1,
                at,
                part,
                elapsed,
            )
            &&& s + 1 == n ==> advanced_level::<T, P, M, D>(
                seed,
                model,
                grid,
                disc,
                fields,
                cur,
                level,
                t,
                dt,
                alpha,
            ).state == fields_restricted(grid, fields, after.state, level + 1, fields.len())
        }),
{
    let n = substeps::<T, P, M, D>(model, grid, level as nat);
    let part = dt.div_spec(T::from_u64_spec(n));
    let count = T::from_u64_spec(s as u64);
    let at = count.mul_add_spec(part, t);
    let elapsed = count.div_spec(T::from_u64_spec(n));
    assert(v(T::from_u64_spec(n)) == n as int as real);
    assert(v(count) == s as real);
    assert(n as int as real != 0 as real);
    (part, at, elapsed)
}

/// What filling the ghosts of the first `n` fields makes of one field.
proof fn lemma_filled_field<T: Real, const D: usize>(
    grid: &AmrGrid<T, D>,
    fields: Seq<FieldSpec>,
    v: Seq<BlockValues<T>>,
    interp: Option<(Seq<BlockValues<T>>, T)>,
    level: int,
    n: nat,
    f: int,
)
    requires
        allocated_on::<T, T, AmrGrid<T, D>, D>(fields, grid, v),
        n <= fields.len(),
        0 <= f < fields.len(),
    ensures
        field_slabs(fields_filled(grid, fields, v, interp, level, n), f) == (if f < n && dynamic(
            fields[f],
        ) {
            level_filled(
                grid,
                fields[f].halo as int,
                field_slabs(v, f),
                match interp {
                    Some((earlier, alpha)) => Some((field_slabs(earlier, f), alpha)),
                    None => None,
                },
                level,
            )
        } else {
            field_slabs(v, f)
        }),
    decreases n,
{
    if n > 0 {
        let e = n - 1;
        let before = fields_filled(grid, fields, v, interp, level, e as nat);
        let after = fields_filled(grid, fields, v, interp, level, n);
        lemma_filled_field(grid, fields, v, interp, level, e as nat, f);
        lemma_filled_field(grid, fields, v, interp, level, e as nat, e);
        lemma_filled_allocated(grid, fields, v, interp, level, e as nat);
        if dynamic(fields[e]) {
            let slabs = level_filled(
                grid,
                fields[e].halo as int,
                field_slabs(before, e),
                match interp {
                    Some((earlier, alpha)) => Some((field_slabs(earlier, e), alpha)),
                    None => None,
                },
                level,
            );
            assert(after == with_field(before, e, slabs));
            assert forall|b: int| 0 <= b < before.len() implies #[trigger] field_slabs(after, f)[b]
                == (if f == e {
                slabs[b]
            } else {
                field_slabs(before, f)[b]
            }) by {
                assert(full_block(fields, grid.extent_of(b), before[b]));
            }
            if f == e {
                assert(field_slabs(after, f) =~= slabs);
            } else {
                assert(field_slabs(after, f) =~= field_slabs(before, f));
            }
        }
    }
}

/// The state a level is stepped from: its ghosts filled, for a refined level from the
/// level below between the snapshot that took when its own step began and now.
pub open spec fn level_source<T: Real, N: DriverSet, const D: usize>(
    grid: &AmrGrid<T, D>,
    fields: Seq<FieldSpec>,
    cur: Advanced<T>,
    level: int,
    alpha: T,
    f: int,
) -> Seq<Seq<T>> {
    if dynamic(fields[f]) {
        level_filled(
            grid,
            fields[f].halo as int,
            field_slabs(cur.state, f),
            if level > 0 {
                Some((field_slabs(cur.stages[snapshot_slot::<N>(level) - 1], f), alpha))
            } else {
                None
            },
            level,
        )
    } else {
        field_slabs(cur.state, f)
    }
}

/// In exact arithmetic a level's own step moves its blocks, and no others, by the
/// contributions of the clock and the model's drivers, evaluated with the level's ghosts
/// filled in space and time; and keeps a snapshot of the state it started from.
pub proof fn levels_step_alone<
    T: Real,
    P,
    M: Model<T, AmrGrid<T, D>, P, D>,
    const D: usize,
>(
    v: spec_fn(T) -> real,
    seed: u64,
    model: &M,
    grid: &AmrGrid<T, D>,
    disc: &P,
    fields: Seq<FieldSpec>,
    cur: Advanced<T>,
    level: int,
    t: T,
    dt: T,
    alpha: T,
    root: real,
    b: int,
    f: int,
    k: int,
) -> (y: Seq<BlockValues<T>>)
    requires
        exact(v),
        order_exact(v),
        equality_exact(v),
        growth_exact(v),
        growth_less_one_exact(v),
        roots_exact(v),
        v(dt) >= 0 as real,
        root >= 0 as real,
        root * root == v(dt),
        0 <= level <= 255,
        allocated_on::<T, T, AmrGrid<T, D>, D>(fields, grid, cur.state),
        cur.stages.len() > snapshot_slot::<M::Drivers>(level),
        allocated_on::<T, T, AmrGrid<T, D>, D>(
            fields,
            grid,
            cur.stages[snapshot_slot::<M::Drivers>(level)],
        ),
        forall|j: int|
            0 <= j < 1 + M::Drivers::size() ==> (#[trigger] cur.stages[j]).len() == grid.blocks(),
        0 <= b < grid.blocks(),
        0 <= f < fields.len(),
        0 <= k < cur.state[b].fields[f].len(),
    ensures
        forall|e: int|
            0 <= e < fields.len() ==> #[trigger] field_slabs(y, e) == level_source::<
                T,
                M::Drivers,
                D,
            >(grid, fields, cur, level, alpha, e),
        ({
            let next = stepped_level::<T, P, M, D>(
                seed,
                model,
                grid,
                disc,
                fields,
                cur,
                level,
                t,
                dt,
                alpha,
            );
            let drift = model.vector_field(
                Driver::Time,
                grid,
                disc,
                t,
                b,
                fields,
                y,
                cur.stages[0][b],
            );
            let amps = Seq::new(
                M::Drivers::size(),
                |j: int|
                    model.vector_field(
                        M::Drivers::member(j),
                        grid,
                        disc,
                        t,
                        b,
                        fields,
                        y,
                        zeroed(cur.stages[1 + j][b]),
                    ),
            );
            &&& next.stages[snapshot_slot::<M::Drivers>(level)] == cur.state
            &&& if grid.level_of(b) == level {
                v(next.state[b].fields[f][k]) == v(y[b].fields[f][k]) + contributions::<
                    T,
                    M::Drivers,
                >(
                    v,
                    fields,
                    grid.extent_of(b),
                    b,
                    dt,
                    root,
                    seed,
                    t.to_bits_spec(),
                    drift,
                    amps,
                    f,
                    k,
                    M::Drivers::size(),
                )
            } else {
                next.state[b].fields[f][k] == cur.state[b].fields[f][k]
            }
        }),
{
    let n = M::Drivers::size();
    let slot = snapshot_slot::<M::Drivers>(level);
    let stages = cur.stages.update(slot, copied_values(cur.stages[slot], cur.state));
    lemma_copy_fits::<T, AmrGrid<T, D>, D>(fields, grid, cur.stages[slot], cur.state);
    let interp = if level > 0 {
        Some((stages[slot - 1], alpha))
    } else {
        None
    };
    let y = fields_filled(grid, fields, cur.state, interp, level, fields.len());
    lemma_filled_allocated(grid, fields, cur.state, interp, level, fields.len());
    assert forall|e: int| 0 <= e < fields.len() implies #[trigger] field_slabs(y, e)
        == level_source::<T, M::Drivers, D>(grid, fields, cur, level, alpha, e) by {
        lemma_filled_field(grid, fields, cur.state, interp, level, fields.len(), e);
    }
    let ks = driver_fields::<T, AmrGrid<T, D>, P, M, D>(
        model,
        grid,
        disc,
        t,
        fields,
        y,
        stages,
        Some(level as u8),
        n,
    );
    let drift = model.vector_field(Driver::Time, grid, disc, t, b, fields, y, cur.stages[0][b]);
    let amps = Seq::new(
        n,
        |j: int|
            model.vector_field(
                M::Drivers::member(j),
                grid,
                disc,
                t,
                b,
                fields,
                y,
                zeroed(cur.stages[1 + j][b]),
            ),
    );
    let next = stepped_level::<T, P, M, D>(
        seed,
        model,
        grid,
        disc,
        fields,
        cur,
        level,
        t,
        dt,
        alpha,
    );
    assert(field_slabs(y, f)[b] == level_source::<T, M::Drivers, D>(
        grid,
        fields,
        cur,
        level,
        alpha,
        f,
    )[b]);
    assert(full_block(fields, grid.extent_of(b), y[b]));
    assert(full_block(fields, grid.extent_of(b), cur.state[b]));
    assert(y[b].fields[f].len() == cur.state[b].fields[f].len());
    if grid.level_of(b) == level {
        assert(cur.stages[0].len() == grid.blocks());
        assert(ks[0][b] == drift);
        let later = ks.subrange(1, 1 + n as int);
        let used = Seq::new(later.len(), |j: int| later[j][b]);
        assert forall|j: int| 0 <= j < n implies #[trigger] used[j] == amps[j] by {
            assert(cur.stages[1 + j].len() == grid.blocks());
            assert(later[j] == ks[1 + j]);
        }
        assert(used =~= amps);
        assert(next.state[b] == stepped_block::<T, M::Drivers>(
            fields,
            grid.extent_of(b),
            b,
            dt,
            seed,
            t.to_bits_spec(),
            y[b],
            drift,
            amps,
            n,
        ));
        steps_add_every_contribution::<T, M::Drivers>(
            v,
            fields,
            grid.extent_of(b),
            b,
            dt,
            root,
            seed,
            t.to_bits_spec(),
            y[b],
            drift,
            amps,
            f,
            k,
            n,
        );
    } else {
        assert(next.state[b] == y[b]);
        assert(field_slabs(cur.state, f)[b] == cur.state[b].fields[f]);
    }
    y
}

} // verus!
