//! Subcycled steps leave the levels of a hierarchy nested: the fine solution wins
//! beneath its patches.
use vstd::prelude::*;

use crate::engine::driver::DriverSet;
use crate::engine::exact::{constants_exact, exact, order_exact, powers_exact};
use crate::engine::state::{allocated_on, copied_values, full_block, BlockValues, FieldSpec};
use crate::engine::storage::Real;
use crate::geometry::amr::grid::AmrGrid;
use crate::geometry::amr::intergrid::slabs_fit;
use crate::geometry::amr::means::{averages, restriction_averages};
use crate::geometry::amr::restriction::{
    child_mean, lemma_child_mean_same, lies_under, refined_at, restricted,
    restriction_is_idempotent,
};
use crate::geometry::grid::{ghosted, slab_fits, slab_index, Grid};
use crate::geometry::halo::{field_slabs, with_field};
use crate::geometry::index::{in_ext, ints, plus, volume};
use crate::integrators::euler_maruyama::{driver_fields, lemma_stepped_allocated};
use crate::integrators::scheme::{Advanced, Integrator};
use crate::integrators::subcycling::{
    advanced_level, cycled, dynamic, fields_filled, fields_restricted, lemma_filled_allocated,
    lemma_restricted_allocated, snapshot_slot, stepped_level, substeps, Subcycling,
};
use crate::physics::model::Model;

verus! {

/// Restricting a level onto the one below changes nothing in any dynamic field.
spec fn settled<T: Real, const D: usize>(
    grid: &AmrGrid<T, D>,
    fields: Seq<FieldSpec>,
    s: Seq<BlockValues<T>>,
    level: int,
) -> bool {
    forall|f: int|
        0 <= f < fields.len() && dynamic(#[trigger] fields[f]) ==> restricted(
            grid,
            fields[f].halo as int,
            field_slabs(s, f),
            level,
        ) == field_slabs(s, f)
}

proof fn lemma_slabs<T: Real, const D: usize>(
    grid: &AmrGrid<T, D>,
    fields: Seq<FieldSpec>,
    s: Seq<BlockValues<T>>,
    f: int,
)
    requires
        grid.sound(),
        allocated_on::<T, T, AmrGrid<T, D>, D>(fields, grid, s),
        0 <= f < fields.len(),
    ensures
        slabs_fit(grid, fields[f].halo as int, field_slabs(s, f)),
{
    let v = field_slabs(s, f);
    let g = fields[f].halo as int;
    assert forall|p: int| 0 <= p < v.len() implies #[trigger] slab_fits(grid.extent_of(p), g) by {
        assert(fields[f].halo == g);
    }
    assert forall|p: int| 0 <= p < v.len() implies (#[trigger] v[p]).len() == volume(
        ghosted(grid.extent_of(p), g),
    ) by {
        assert(full_block(fields, grid.extent_of(p), s[p]));
    }
}

/// What restricting the first `n` fields makes of one field.
proof fn lemma_restricted_field<T: Real, const D: usize>(
    grid: &AmrGrid<T, D>,
    fields: Seq<FieldSpec>,
    s: Seq<BlockValues<T>>,
    level: int,
    n: nat,
    f: int,
)
    requires
        allocated_on::<T, T, AmrGrid<T, D>, D>(fields, grid, s),
        n <= fields.len(),
        0 <= f < fields.len(),
    ensures
        field_slabs(fields_restricted(grid, fields, s, level, n), f) == (if f < n && dynamic(
            fields[f],
        ) {
            restricted(grid, fields[f].halo as int, field_slabs(s, f), level)
        } else {
            field_slabs(s, f)
        }),
    decreases n,
{
    if n > 0 {
        let e = n - 1;
        let before = fields_restricted(grid, fields, s, level, e as nat);
        let after = fields_restricted(grid, fields, s, level, n);
        lemma_restricted_field(grid, fields, s, level, e as nat, f);
        lemma_restricted_field(grid, fields, s, level, e as nat, e);
        lemma_restricted_allocated(grid, fields, s, level, e as nat);
        if dynamic(fields[e]) {
            let slabs = restricted(grid, fields[e].halo as int, field_slabs(before, e), level);
            assert(after == with_field(before, e, slabs));
            assert forall|b: int| 0 <= b < before.len() implies #[trigger] field_slabs(after, f)[b]
                == (if f == e {
                slabs[b]
            } else {
                field_slabs(before, f)[b]
            }) by {
                assert(full_block(fields, grid.extent_of(b), before[b]));
            }
            if f == e {
                assert(field_slabs(after, f) =~= slabs);
            } else {
                assert(field_slabs(after, f) =~= field_slabs(before, f));
            }
        }
    }
}

/// Restriction settles the level it restricts, and unsettles no finer one.
proof fn lemma_settles<T: Real, const D: usize>(
    grid: &AmrGrid<T, D>,
    fields: Seq<FieldSpec>,
    s: Seq<BlockValues<T>>,
    level: int,
    finer: int,
)
    requires
        grid.sound(),
        allocated_on::<T, T, AmrGrid<T, D>, D>(fields, grid, s),
        1 <= level <= finer < grid.levels(),
        level < finer ==> settled(grid, fields, s, finer),
    ensures
        settled(grid, fields, fields_restricted(grid, fields, s, level, fields.len()), finer),
{
    let t = fields_restricted(grid, fields, s, level, fields.len());
    assert forall|f: int| 0 <= f < fields.len() && dynamic(#[trigger] fields[f]) implies restricted(
        grid,
        fields[f].halo as int,
        field_slabs(t, f),
        finer,
    ) == field_slabs(t, f) by {
        let g = fields[f].halo as int;
        let v = field_slabs(s, f);
        let w = field_slabs(t, f);
        lemma_slabs(grid, fields, s, f);
        lemma_restricted_field(grid, fields, s, level, fields.len(), f);
        if level == finer {
            restriction_is_idempotent(grid, g, v, level);
        } else {
            let again = restricted(grid, g, w, finer);
            assert(restricted(grid, g, v, finer) == v);
            assert forall|p: int|
                0 <= p < v.len() && grid.level_of(p) != level - 1 implies #[trigger] w[p]
                == v[p] by {
                assert(w[p] =~= v[p]);
            }
            assert forall|b: int| 0 <= b < v.len() implies #[trigger] again[b] == w[b] by {
                assert forall|k: int| 0 <= k < v[b].len() implies #[trigger] again[b][k]
                    == w[b][k] by {
                    let idx = slab_index(k, grid.extent_of(b), g);
                    let c = plus(idx, ints(grid.patch_list()[b].bx.lo));
                    if grid.level_of(b) == finer - 1 && in_ext(idx, grid.extent_of(b))
                        && refined_at(grid, finer, c) {
                        let p = choose|p: int| lies_under(grid, p, finer, c);
                        assert(grid.level_of(p) == finer);
                        assert(w[p] == v[p]);
                        assert(w[b] == v[b]);
                        lemma_child_mean_same(grid, g, v, w, finer, p, c);
                        assert(restricted(grid, g, v, finer)[b][k] == v[b][k]);
                    }
                }
                assert(again[b] =~= w[b]);
            }
            assert(again =~= w);
        }
    }
}

/// A level's own step keeps the allocation.
proof fn lemma_own_allocated<T: Real, P, M: Model<T, AmrGrid<T, D>, P, D>, const D: usize>(
    seed: u64,
    model: &M,
    grid: &AmrGrid<T, D>,
    disc: &P,
    fields: Seq<FieldSpec>,
    cur: Advanced<T>,
    level: int,
    t: T,
    dt: T,
    alpha: T,
)
    requires
        allocated_on::<T, T, AmrGrid<T, D>, D>(fields, grid, cur.state),
    ensures
        allocated_on::<T, T, AmrGrid<T, D>, D>(
            fields,
            grid,
            stepped_level::<T, P, M, D>(
                seed,
                model,
                grid,
                disc,
                fields,
                cur,
                level,
                t,
                dt,
                alpha,
            ).state,
        ),
{
    let n = M::Drivers::size();
    let slot = snapshot_slot::<M::Drivers>(level);
    let stages = cur.stages.update(slot, copied_values(cur.stages[slot], cur.state));
    let interp = if level > 0 {
        Some((stages[slot - 1], alpha))
    } else {
        None
    };
    let y = fields_filled(grid, fields, cur.state, interp, level, fields.len());
    lemma_filled_allocated(grid, fields, cur.state, interp, level, fields.len());
    let k = driver_fields::<T, AmrGrid<T, D>, P, M, D>(
        model,
        grid,
        disc,
        t,
        fields,
        y,
        stages,
        Some(level as u8),
        n,
    );
    lemma_stepped_allocated::<T, AmrGrid<T, D>, M::Drivers, D>(
        fields,
        grid,
        Some(level as u8),
        dt,
        seed,
        t.to_bits_spec(),
        y,
        k[0],
        k.subrange(1, 1 + n as int),
    );
}

/// Advancing a level settles it and, where finer levels take substeps, every finer one.
proof fn lemma_advanced<T: Real, P, M: Model<T, AmrGrid<T, D>, P, D>, const D: usize>(
    seed: u64,
    model: &M,
    grid: &AmrGrid<T, D>,
    disc: &P,
    fields: Seq<FieldSpec>,
    cur: Advanced<T>,
    level: int,
    t: T,
    dt: T,
    alpha: T,
    finer: int,
)
    requires
        grid.sound(),
        0 <= level < grid.levels(),
        allocated_on::<T, T, AmrGrid<T, D>, D>(fields, grid, cur.state),
        level < finer < grid.levels() ==> forall|l: nat|
            level <= l && l + 1 < finer ==> #[trigger] substeps::<T, P, M, D>(model, grid, l) >= 1,
    ensures
        ({
            let next = advanced_level::<T, P, M, D>(
                seed,
                model,
                grid,
                disc,
                fields,
                cur,
                level,
                t,
                dt,
                alpha,
            ).state;
            &&& allocated_on::<T, T, AmrGrid<T, D>, D>(fields, grid, next)
            &&& level < finer < grid.levels() ==> settled(grid, fields, next, finer)
        }),
    decreases grid.levels() - level, 1int, 0int,
{
    let own = stepped_level::<T, P, M, D>(
        seed,
        model,
        grid,
        disc,
        fields,
        cur,
        level,
        t,
        dt,
        alpha,
    );
    lemma_own_allocated::<T, P, M, D>(
        seed,
        model,
        grid,
        disc,
        fields,
        cur,
        level,
        t,
        dt,
        alpha,
    );
    if level + 1 < grid.levels() {
        let n = substeps::<T, P, M, D>(model, grid, level as nat);
        let h = dt.div_spec(T::from_u64_spec(n));
        let done = cycled::<T, P, M, D>(
            seed,
            model,
            grid,
            disc,
            fields,
            own,
            level,
            t,
            h,
            n,
            n as nat,
        );
        lemma_cycled::<T, P, M, D>(
            seed,
            model,
            grid,
            disc,
            fields,
            own,
            level,
            t,
            h,
            n,
            n as nat,
            finer,
        );
        lemma_restricted_allocated(grid, fields, done.state, level + 1, fields.len());
        if level < finer < grid.levels() {
            if level + 1 < finer {
                assert(substeps::<T, P, M, D>(model, grid, level as nat) >= 1);
            }
            lemma_settles(grid, fields, done.state, level + 1, finer);
        }
    }
}

/// Substeps settle every level above the one they subcycle.
proof fn lemma_cycled<T: Real, P, M: Model<T, AmrGrid<T, D>, P, D>, const D: usize>(
    seed: u64,
    model: &M,
    grid: &AmrGrid<T, D>,
    disc: &P,
    fields: Seq<FieldSpec>,
    cur: Advanced<T>,
    level: int,
    t: T,
    dt: T,
    n: u64,
    s: nat,
    finer: int,
)
    requires
        grid.sound(),
        0 <= level,
        level + 1 < grid.levels(),
        allocated_on::<T, T, AmrGrid<T, D>, D>(fields, grid, cur.state),
        level + 1 < finer < grid.levels() ==> forall|l: nat|
            level + 1 <= l && l + 1 < finer ==> #[trigger] substeps::<T, P, M, D>(model, grid, l)
                >= 1,
    ensures
        ({
            let next = cycled::<T, P, M, D>(
                seed,
                model,
                grid,
                disc,
                fields,
                cur,
                level,
                t,
                dt,
                n,
                s,
            ).state;
            &&& allocated_on::<T, T, AmrGrid<T, D>, D>(fields, grid, next)
            &&& s > 0 && level + 1 < finer < grid.levels() ==> settled(grid, fields, next, finer)
        }),
    decreases grid.levels() - level, 0int, s,
{
    if s > 0 {
        let m = (s - 1) as nat;
        let at = T::from_u64_spec(m as u64);
        lemma_cycled::<T, P, M, D>(
            seed,
            model,
            grid,
            disc,
            fields,
            cur,
            level,
            t,
            dt,
            n,
            m,
            finer,
        );
        lemma_advanced::<T, P, M, D>(
            seed,
            model,
            grid,
            disc,
            fields,
            cycled::<T, P, M, D>(seed, model, grid, disc, fields, cur, level, t, dt, n, m),
            level + 1,
            at.mul_add_spec(dt, t),
            dt,
            at.div_spec(T::from_u64_spec(n)),
            finer,
        );
    }
}

/// After a subcycled step a cell of any level beneath a patch of the next finer one
/// holds, in every dynamic field, the mean of its fine children as the same step left
/// them. Levels beyond the second must have been substepped at all.
pub proof fn subcycled_levels_are_nested<
    T: Real,
    P: Sync,
    M: Model<T, AmrGrid<T, D>, P, D>,
    const D: usize,
>(
    scheme: &Subcycling,
    model: &M,
    grid: &AmrGrid<T, D>,
    disc: &P,
    fields: Seq<FieldSpec>,
    state: Seq<BlockValues<T>>,
    stages: Seq<Seq<BlockValues<T>>>,
    t: T,
    dt: T,
    level: int,
    f: int,
    b: int,
    k: int,
)
    requires
        grid.sound(),
        allocated_on::<T, T, AmrGrid<T, D>, D>(fields, grid, state),
        1 <= level < grid.levels(),
        forall|l: nat| l + 1 < level ==> #[trigger] substeps::<T, P, M, D>(model, grid, l) >= 1,
        0 <= f < fields.len(),
        dynamic(fields[f]),
        0 <= b < grid.blocks(),
        grid.level_of(b) == level - 1,
        0 <= k < volume(ghosted(grid.extent_of(b), fields[f].halo as int)),
        in_ext(slab_index(k, grid.extent_of(b), fields[f].halo as int), grid.extent_of(b)),
        refined_at(
            grid,
            level,
            plus(
                slab_index(k, grid.extent_of(b), fields[f].halo as int),
                ints(grid.patch_list()[b].bx.lo),
            ),
        ),
    ensures
        ({
            let g = fields[f].halo as int;
            let c = plus(slab_index(k, grid.extent_of(b), g), ints(grid.patch_list()[b].bx.lo));
            let next = scheme.advanced(model, grid, disc, fields, state, stages, t, dt).state;
            let x = next[b].fields[f][k];
            &&& x == child_mean(grid, g, field_slabs(next, f), level, c)
            &&& forall|w: spec_fn(T) -> real|
                exact(w) && #[trigger] powers_exact(w) && D <= i32::MAX ==> averages(
                    w,
                    grid,
                    g,
                    field_slabs(next, f),
                    level,
                    c,
                    x,
                )
        }),
{
    let cur = Advanced { state, stages };
    lemma_advanced::<T, P, M, D>(
        scheme.seed,
        model,
        grid,
        disc,
        fields,
        cur,
        0,
        t,
        dt,
        T::zero_spec(),
        level,
    );
    let next = scheme.advanced(model, grid, disc, fields, state, stages, t, dt).state;
    let g = fields[f].halo as int;
    let v = field_slabs(next, f);
    let c = plus(slab_index(k, grid.extent_of(b), g), ints(grid.patch_list()[b].bx.lo));
    assert(full_block(fields, grid.extent_of(b), next[b]));
    assert(restricted(grid, g, v, level) == v);
    assert(v[b][k] == restricted(grid, g, v, level)[b][k]);
    assert forall|w: spec_fn(T) -> real|
        exact(w) && #[trigger] powers_exact(w) && D <= i32::MAX implies averages(
        w,
        grid,
        g,
        v,
        level,
        c,
        v[b][k],
    ) by {
        restriction_averages(w, grid, g, v, level, b, k);
    }
}

/// A number of at least one counts at least one.
pub open spec fn counting_exact<T: Real>(v: spec_fn(T) -> real) -> bool {
    forall|a: T| v(a) >= 1 as real ==> #[trigger] a.to_u64_spec() >= 1
}

/// In exact arithmetic every level is substepped at least once per step of the level
/// below it.
pub proof fn levels_take_a_substep<
    T: Real,
    P,
    M: Model<T, AmrGrid<T, D>, P, D>,
    const D: usize,
>(v: spec_fn(T) -> real, model: &M, grid: &AmrGrid<T, D>, level: nat)
    requires
        constants_exact(v),
        order_exact(v),
        counting_exact(v),
    ensures
        substeps::<T, P, M, D>(model, grid, level) >= 1,
{
}

} // verus!
