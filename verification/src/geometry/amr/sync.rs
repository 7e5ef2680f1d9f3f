//! Making one field of a hierarchy consistent across levels.
use vstd::prelude::*;

use crate::engine::state::{allocated_on, full_block, BlockValues, FieldHandle, FieldSpec, State};
use crate::engine::storage::{Real, StorageBackend};
use crate::geometry::amr::grid::{lemma_domain_positive, AmrGrid};
use crate::geometry::amr::intergrid::{
    fill_ghosts_mirror, lemma_cells_refine, levels_filled, ring_reaches,
};
use crate::geometry::amr::migrate::lemma_allocated_field;
use crate::geometry::amr::restriction::{restrict, restricted_down};
use crate::geometry::grid::Grid;
use crate::geometry::halo::{field_slabs, with_field};
use crate::geometry::sweep::lemma_replaced_allocated;

verus! {

/// The state with field `f` restricted to the coarse cells beneath the patches,
/// then with its ghosts filled level by level.
pub open spec fn synchronized<T: Real, const D: usize>(
    grid: &AmrGrid<T, D>,
    fields: Seq<FieldSpec>,
    values: Seq<BlockValues<T>>,
    f: int,
) -> Seq<BlockValues<T>> {
    let g = fields[f].halo as int;
    let n = grid.levels() as nat;
    let down = restricted_down(grid, g, field_slabs(values, f), 0, n);
    with_field(with_field(values, f, down), f, levels_filled(grid, g, down, n))
}

/// A refined domain is at least as wide as the base domain.
pub proof fn lemma_cells_grow<R: Real, const D: usize>(grid: &AmrGrid<R, D>, level: int, d: int)
    requires
        grid.sound(),
        0 <= level < grid.levels(),
        0 <= d < D,
    ensures
        grid.base_grid().domain()[d] <= grid.cells_at(level)[d],
    decreases level,
{
    lemma_domain_positive(&grid.base_grid());
    if level > 0 {
        lemma_cells_grow(grid, level - 1, d);
        lemma_cells_refine(grid, level, d);
        let a = grid.cells_at(level - 1)[d];
        let r = grid.ratio_list()[level - 1] as int;
        assert(grid.base_grid().domain()[d] > 0);
        assert(a <= a * r) by (nonlinear_arith)
            requires
                a > 0,
                r >= 2,
        ;
    } else {
        assert(grid.base_grid().domain()[d] * 1 == grid.base_grid().domain()[d]);
    }
}

proof fn lemma_restricted_lengths<R: Real, T: Real, const D: usize>(
    grid: &AmrGrid<R, D>,
    g: int,
    v: Seq<Seq<T>>,
    to: nat,
    levels: nat,
)
    ensures
        restricted_down(grid, g, v, to, levels).len() == v.len(),
        forall|b: int|
            0 <= b < v.len() ==> (#[trigger] restricted_down(grid, g, v, to, levels)[b]).len()
                == v[b].len(),
    decreases levels - to,
{
    if to + 1 < levels {
        lemma_restricted_lengths(grid, g, v, (to + 1) as nat, levels);
        let w = restricted_down(grid, g, v, (to + 1) as nat, levels);
        assert forall|b: int| 0 <= b < v.len() implies (#[trigger] restricted_down(
            grid,
            g,
            v,
            to,
            levels,
        )[b]).len() == v[b].len() by {
            assert(w[b].len() == v[b].len());
        }
    }
}

proof fn lemma_filled_lengths<R: Real, T: Real, const D: usize>(
    grid: &AmrGrid<R, D>,
    g: int,
    v: Seq<Seq<T>>,
    n: nat,
)
    ensures
        levels_filled(grid, g, v, n).len() == v.len(),
        forall|b: int|
            0 <= b < v.len() ==> (#[trigger] levels_filled(grid, g, v, n)[b]).len() == v[b].len(),
    decreases n,
{
    if n > 0 {
        lemma_filled_lengths(grid, g, v, (n - 1) as nat);
        let w = levels_filled(grid, g, v, (n - 1) as nat);
        assert forall|b: int| 0 <= b < v.len() implies (#[trigger] levels_filled(
            grid,
            g,
            v,
            n,
        )[b]).len() == v[b].len() by {
            assert(w[b].len() == v[b].len());
        }
    }
}

/// Restrict a field to the coarse cells beneath the patches, then fill its ghosts.
pub fn synchronize<T: Real, S: StorageBackend<T>, const D: usize>(
    grid: &AmrGrid<T, D>,
    state: &mut State<T, S>,
    handle: FieldHandle<T>,
)
    requires
        grid.sound(),
        allocated_on::<T, T, AmrGrid<T, D>, D>(old(state).fields(), grid, old(state).values()),
        0 <= handle.pos() < old(state).fields().len(),
        forall|d: int|
            0 <= d < D ==> old(state).fields()[handle.pos()].halo
                <= #[trigger] grid.base_grid().domain()[d],
    ensures
        final(state).fields() == old(state).fields(),
        final(state).values() == synchronized(
            grid,
            old(state).fields(),
            old(state).values(),
            handle.pos(),
        ),
        allocated_on::<T, T, AmrGrid<T, D>, D>(old(state).fields(), grid, final(state).values()),
{
    let ghost f = handle.pos();
    let ghost fields = state.fields();
    let ghost g = fields[f].halo as int;
    let ghost all = state.values();
    let ghost v = field_slabs(all, f);
    let ghost n = grid.levels() as nat;
    let ghost down = restricted_down(grid, g, v, 0, n);
    let ghost up = levels_filled(grid, g, down, n);
    proof {
        lemma_allocated_field(grid, state, f);
        lemma_restricted_lengths(grid, g, v, 0, n);
        assert forall|b: int| 0 <= b < all.len() implies (#[trigger] down[b]).len()
            == all[b].fields[f].len() by {
            assert(v[b].len() == all[b].fields[f].len());
        }
        lemma_replaced_allocated::<T, T, AmrGrid<T, D>, D>(fields, grid, all, f, down);
    }
    restrict(grid, state, handle);
    let ghost mid = state.values();
    proof {
        lemma_allocated_field(grid, state, f);
        assert forall|b: int| 0 <= b < all.len() implies f < (
        #[trigger] all[b]).fields.len() by {
            assert(full_block(fields, grid.extent_of(b), all[b]));
        }
        assert(field_slabs(mid, f) =~= down);
        lemma_filled_lengths(grid, g, down, n);
        assert forall|b: int| 0 <= b < mid.len() implies (#[trigger] up[b]).len()
            == mid[b].fields[f].len() by {
            assert(down[b].len() == mid[b].fields[f].len());
        }
        lemma_replaced_allocated::<T, T, AmrGrid<T, D>, D>(fields, grid, mid, f, up);
        assert forall|level: int| 0 <= level < grid.levels() implies #[trigger] ring_reaches(
            grid,
            level,
            g,
        ) by {
            assert forall|d: int| 0 <= d < D implies g <= #[trigger] grid.cells_at(
                level,
            )[d] by {
                lemma_cells_grow(grid, level, d);
                assert(g <= grid.base_grid().domain()[d]);
            }
        }
    }
    fill_ghosts_mirror(grid, state, handle);
}

} // verus!
