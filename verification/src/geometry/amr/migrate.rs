//! Carrying a solution from one hierarchy to another.
use vstd::prelude::*;

use crate::engine::exact::exact;
use crate::engine::state::{
    allocated_on, fresh_block, full_block, layout_fits, with_slab, zeros, BlockValues, FieldHandle,
    FieldSpec, State,
};
use crate::engine::storage::{Real, Scalar, StorageBackend};
use crate::geometry::amr::grid::{is_tile, levels_fit, AmrGrid};
use crate::geometry::amr::intergrid::{
    field_fits, lemma_owner, owner_at, patch_holds, sample, sampled, value_in,
};
use crate::geometry::amr::linear::{
    affine, donors_are_linear, position, prolongation_reproduces_linear_fields,
};
use crate::geometry::grid::{
    ghosted, in_slab, lemma_extent_fits, lemma_interior_in_slab, lemma_slab_at, lemma_slab_index,
    shifted, slab_at, slab_fits, slab_index, BlockId, Grid,
};
use crate::geometry::halo::field_slabs;
use crate::geometry::index::{
    in_box, in_ext, ints, lemma_rank, minus, next_cell, plus, positive, rank, usizes, volume,
};

verus! {

/// One slab of the new hierarchy: level 0 verbatim (the base tiling never
/// changes), refined interiors sampled from the old solution, ghosts cleared.
pub open spec fn migrated_slab<R: Real, T: Real, const D: usize>(
    old_grid: &AmrGrid<R, D>,
    g: int,
    v: Seq<Seq<T>>,
    new_grid: &AmrGrid<R, D>,
    b: int,
) -> Seq<T> {
    if new_grid.level_of(b) == 0 {
        v[b]
    } else {
        Seq::new(
            volume(ghosted(new_grid.extent_of(b), g)) as nat,
            |k: int|
                {
                    let idx = slab_index(k, new_grid.extent_of(b), g);
                    if in_ext(idx, new_grid.extent_of(b)) {
                        sampled(
                            old_grid,
                            g,
                            v,
                            new_grid.level_of(b) as nat,
                            plus(idx, ints(new_grid.patch_list()[b].bx.lo)),
                        )
                    } else {
                        T::zero_spec()
                    }
                },
        )
    }
}

/// The old solution on the new hierarchy.
pub open spec fn migrated<R: Real, T: Real, const D: usize>(
    old_grid: &AmrGrid<R, D>,
    fields: Seq<FieldSpec>,
    values: Seq<BlockValues<T>>,
    new_grid: &AmrGrid<R, D>,
) -> Seq<BlockValues<T>> {
    Seq::new(
        new_grid.blocks(),
        |b: int|
            BlockValues {
                fields: Seq::new(
                    fields.len(),
                    |f: int|
                        migrated_slab(
                            old_grid,
                            fields[f].halo as int,
                            field_slabs(values, f),
                            new_grid,
                            b,
                        ),
                ),
                rate: Seq::empty(),
            },
    )
}

/// The two hierarchies refine the same base grid by the same ratios.
pub open spec fn kin<R: Real, const D: usize>(a: &AmrGrid<R, D>, b: &AmrGrid<R, D>) -> bool {
    &&& a.sound()
    &&& b.sound()
    &&& a.base_grid() == b.base_grid()
    &&& a.ratio_list() == b.ratio_list()
    &&& levels_fit(a.base_grid().domain(), a.ratio_list(), a.ratio_list().len())
}

/// A full allocation gives every field the slabs that grid transfers expect.
pub proof fn lemma_allocated_field<R: Real, T: Real, S: StorageBackend<T>, const D: usize>(
    grid: &AmrGrid<R, D>,
    state: &State<T, S>,
    f: int,
)
    requires
        grid.sound(),
        allocated_on::<T, R, AmrGrid<R, D>, D>(state.fields(), grid, state.values()),
        0 <= f < state.fields().len(),
    ensures
        field_fits(grid, state, f),
{
    let v = field_slabs(state.values(), f);
    let g = state.fields()[f].halo as int;
    assert forall|b: int| 0 <= b < state.values().len() implies f < (
    #[trigger] state.values()[b]).fields.len() by {
        assert(full_block(state.fields(), grid.extent_of(b), state.values()[b]));
    }
    assert forall|p: int| 0 <= p < v.len() implies #[trigger] slab_fits(grid.extent_of(p), g) by {
        assert(state.fields()[f].halo == g);
    }
    assert forall|p: int| 0 <= p < v.len() implies (#[trigger] v[p]).len() == volume(
        ghosted(grid.extent_of(p), g),
    ) by {
        assert(full_block(state.fields(), grid.extent_of(p), state.values()[p]));
    }
}

/// The base tiles of kindred hierarchies coincide.
pub proof fn lemma_base_tiles<R: Real, const D: usize>(
    a: &AmrGrid<R, D>,
    b: &AmrGrid<R, D>,
    p: int,
)
    requires
        kin(a, b),
        0 <= p < b.patch_list().len(),
        b.level_of(p) == 0,
    ensures
        p < a.patch_list().len(),
        a.extent_of(p) == b.extent_of(p),
{
    b.lemma_position(p);
    let k = p - b.starts()[0];
    assert(a.level_boxes(0).len() == b.level_boxes(0).len());
    a.lemma_level_box(0, k);
    let x = a.level_boxes(0)[k];
    let y = b.level_boxes(0)[k];
    assert(is_tile(&a.base_grid(), x, k));
    assert(is_tile(&b.base_grid(), y, k));
    assert(x.lo =~= y.lo) by {
        assert forall|d: int| 0 <= d < D implies x.lo[d] == y.lo[d] by {}
    }
    assert(x.hi =~= y.hi) by {
        assert forall|d: int| 0 <= d < D implies x.hi[d] == y.hi[d] by {
            assert(x.lo[d] == y.lo[d]);
        }
    }
}

/// Fill one refined slab of the new hierarchy from the old solution.
fn sample_slab<R: Real, T: Real, S: StorageBackend<T>, const D: usize>(
    old_grid: &AmrGrid<R, D>,
    old_state: &State<T, S>,
    handle: FieldHandle<T>,
    new_grid: &AmrGrid<R, D>,
    block: BlockId,
    slab: &mut [T],
)
    requires
        kin(old_grid, new_grid),
        field_fits(old_grid, old_state, handle.pos()),
        block.id() < new_grid.patch_list().len(),
        new_grid.level_of(block.id()) > 0,
        slab_fits(
            new_grid.extent_of(block.id()),
            old_state.fields()[handle.pos()].halo as int,
        ),
        old(slab)@ == zeros::<T>(
            volume(
                ghosted(
                    new_grid.extent_of(block.id()),
                    old_state.fields()[handle.pos()].halo as int,
                ),
            ),
        ),
    ensures
        final(slab)@ == migrated_slab(
            old_grid,
            old_state.fields()[handle.pos()].halo as int,
            field_slabs(old_state.values(), handle.pos()),
            new_grid,
            block.id(),
        ),
{
    let ghost b = block.id();
    let ghost f = handle.pos();
    let ghost g = old_state.fields()[f].halo as int;
    let ghost v = field_slabs(old_state.values(), f);
    let ghost ext = new_grid.extent_of(b);
    let ghost want = migrated_slab(old_grid, g, v, new_grid, b);
    let width = old_state.layout().ghost(handle.index());
    let w: i64 = width as i64;
    let level = new_grid.level(block);
    let bx = new_grid.patch(block).bx;
    let extent = new_grid.block_extent(block);
    proof {
        new_grid.lemma_patch(b);
        lemma_extent_fits(ext, g);
    }
    let (lo, hi) = slab_corners(&extent, w);
    let ghost l = ints(lo);
    let ghost h = ints(hi);
    let mut idx = lo;
    let mut k: usize = 0;
    proof {
        assert(minus(h, l) =~= ghosted(ext, g));
        assert(in_box(ints(idx), l, h)) by {
            assert forall|d: int| 0 <= d < D implies l[d] <= #[trigger] ints(idx)[d] < h[d] by {
                assert(ext[d] > 0);
            }
        }
        lemma_rank(ints(idx), l, h);
        crate::geometry::index::lemma_lin_zero(minus(l, l), minus(h, l));
    }
    let n = slab.len();
    while k < n
        invariant
            D > 0,
            kin(old_grid, new_grid),
            field_fits(old_grid, old_state, f),
            f == handle.pos(),
            b == block.id(),
            b < new_grid.patch_list().len(),
            bx == new_grid.patch_list()[b].bx,
            level == new_grid.level_of(b),
            level > 0,
            ext == new_grid.extent_of(b),
            ext == usizes(extent),
            positive(ext),
            g == old_state.fields()[f].halo,
            w == g,
            v == field_slabs(old_state.values(), f),
            want == migrated_slab(old_grid, g, v, new_grid, b),
            l == ints(lo),
            h == ints(hi),
            minus(h, l) == ghosted(ext, g),
            forall|d: int| 0 <= d < D ==> #[trigger] lo[d] == -w,
            n == volume(ghosted(ext, g)),
            slab@.len() == n,
            k <= n,
            k < n ==> in_box(ints(idx), l, h) && rank(ints(idx), l, h) == k,
            forall|j: int| 0 <= j < k ==> #[trigger] slab@[j] == want[j],
            forall|j: int| k <= j < n ==> #[trigger] slab@[j] == T::zero_spec(),
        decreases n - k,
    {
        let ghost i = ints(idx);
        proof {
            lemma_rank(i, l, h);
            assert(minus(i, l) =~= shifted(i, g));
            assert(slab_at(i, ext, g) == k);
            lemma_slab_index(k as int, ext, g);
            let j = slab_index(k as int, ext, g);
            assert(in_slab(i, ext, g)) by {
                assert forall|d: int| 0 <= d < ext.len() implies -g <= #[trigger] i[d] < ext[d]
                    + g by {
                    assert(l[d] <= i[d] < h[d]);
                    assert(ghosted(ext, g)[d] == minus(h, l)[d]);
                }
            }
            lemma_slab_at(i, ext, g);
            assert(j == i);
        }
        if is_interior(&idx, &extent) {
            let cell = global_cell(&*new_grid, block, &idx);
            proof {
                assert(ints(cell) =~= plus(i, ints(bx.lo)));
                new_grid.lemma_patch(b);
                assert(in_ext(ints(cell), old_grid.cells_at(level as int))) by {
                    assert forall|d: int| 0 <= d < D implies 0 <= #[trigger] ints(cell)[d]
                        < old_grid.cells_at(level as int)[d] by {
                        assert(0 <= i[d] < ext[d]);
                        assert(bx.width(d) == bx.hi[d] - bx.lo[d]);
                        assert(0 <= bx.lo[d] <= bx.hi[d] <= new_grid.cells_at(level as int)[d]);
                    }
                }
            }
            slab[k] = sample(old_grid, old_state, handle, level, cell);
        }
        k += 1;
        let more = next_cell(&mut idx, &lo, &hi);
    }
    proof {
        assert(slab@ =~= want);
    }
}

/// Corners of a ghost-inclusive slab, relative to its block.
fn slab_corners<const D: usize>(extent: &[usize; D], w: i64) -> (r: ([i64; D], [i64; D]))
    requires
        0 <= w,
        forall|e: int| 0 <= e < D ==> (#[trigger] usizes(*extent)[e]) + 2 * w <= isize::MAX,
    ensures
        forall|e: int| 0 <= e < D ==> #[trigger] r.0[e] == -w,
        forall|e: int| 0 <= e < D ==> #[trigger] r.1[e] == extent[e] + w,
{
    let mut lo = [0i64; D];
    let mut hi = [0i64; D];
    let mut d: usize = 0;
    while d < D
        invariant
            d <= D,
            0 <= w,
            forall|e: int| 0 <= e < D ==> (#[trigger] usizes(*extent)[e]) + 2 * w <= isize::MAX,
            forall|e: int| 0 <= e < d ==> #[trigger] lo[e] == -w,
            forall|e: int| 0 <= e < d ==> #[trigger] hi[e] == extent[e] + w,
        decreases D - d,
    {
        assert(usizes(*extent)[d as int] + 2 * w <= isize::MAX);
        lo[d] = -w;
        hi[d] = extent[d] as i64 + w;
        d += 1;
    }
    (lo, hi)
}

/// Whether a block-relative index lies in the interior.
fn is_interior<const D: usize>(idx: &[i64; D], extent: &[usize; D]) -> (r: bool)
    ensures
        r == in_ext(ints(*idx), usizes(*extent)),
{
    let mut d: usize = 0;
    while d < D
        invariant
            d <= D,
            forall|e: int| 0 <= e < d ==> 0 <= #[trigger] idx[e] < extent[e],
        decreases D - d,
    {
        if idx[d] < 0 || idx[d] as u64 >= extent[d] as u64 {
            proof {
                assert(!(0 <= ints(*idx)[d as int] < usizes(*extent)[d as int]));
            }
            return false;
        }
        d += 1;
    }
    proof {
        assert forall|e: int| 0 <= e < D implies 0 <= #[trigger] ints(*idx)[e] < usizes(
            *extent,
        )[e] by {
            assert(0 <= idx[e] < extent[e]);
        }
    }
    true
}

/// Global coordinates of an interior cell of a patch.
fn global_cell<R: Real, const D: usize>(
    grid: &AmrGrid<R, D>,
    block: BlockId,
    idx: &[i64; D],
) -> (cell: [i64; D])
    requires
        grid.sound(),
        block.id() < grid.patch_list().len(),
        in_ext(ints(*idx), grid.extent_of(block.id())),
    ensures
        forall|e: int|
            0 <= e < D ==> #[trigger] cell[e] == idx[e] + grid.patch_list()[block.id()].bx.lo[e],
{
    let bx = grid.patch(block).bx;
    proof {
        grid.lemma_patch(block.id());
    }
    let mut cell = [0i64; D];
    let mut d: usize = 0;
    while d < D
        invariant
            d <= D,
            in_ext(ints(*idx), bx.widths()),
            forall|e: int| 0 <= e < D ==> bx.width(e) == (#[trigger] bx.hi[e]) - bx.lo[e],
            forall|e: int| 0 <= e < d ==> #[trigger] cell[e] == idx[e] + bx.lo[e],
        decreases D - d,
    {
        assert(0 <= ints(*idx)[d as int] < bx.widths()[d as int]);
        assert(bx.width(d as int) == bx.hi[d as int] - bx.lo[d as int]);
        cell[d] = idx[d] + bx.lo[d];
        d += 1;
    }
    cell
}

/// The new hierarchy with the first `f` fields, and field `f` on the first `n`
/// blocks, migrated.
spec fn migrating<R: Real, T: Real, const D: usize>(
    old_grid: &AmrGrid<R, D>,
    fields: Seq<FieldSpec>,
    values: Seq<BlockValues<T>>,
    new_grid: &AmrGrid<R, D>,
    f: int,
    n: int,
) -> Seq<BlockValues<T>> {
    let all = migrated(old_grid, fields, values, new_grid);
    Seq::new(
        new_grid.blocks(),
        |b: int|
            BlockValues {
                fields: Seq::new(
                    fields.len(),
                    |e: int|
                        if e < f || (e == f && b < n) {
                            all[b].fields[e]
                        } else {
                            zeros::<T>(volume(ghosted(new_grid.extent_of(b), fields[e].halo as int)))
                        },
                ),
                rate: Seq::empty(),
            },
    )
}

/// Copy the old solution onto the new hierarchy: level 0 verbatim, refined cells
/// from the same-level old patch when one covers them, otherwise by multilinear
/// interpolation of the finest old data beneath (recursing down levels as
/// needed).
pub fn migrate<R: Real, T: Real, S: StorageBackend<T>, const D: usize>(
    old_grid: &AmrGrid<R, D>,
    old_state: &State<T, S>,
    new_grid: &AmrGrid<R, D>,
    new_state: &mut State<T, S>,
)
    requires
        kin(old_grid, new_grid),
        allocated_on::<T, R, AmrGrid<R, D>, D>(old_state.fields(), old_grid, old_state.values()),
        layout_fits::<R, AmrGrid<R, D>, D>(old_state.fields(), new_grid),
        old(new_state).fields() == old_state.fields(),
        old(new_state).values() == Seq::new(
            new_grid.blocks(),
            |b: int| fresh_block::<T>(old_state.fields(), new_grid.extent_of(b), None),
        ),
    ensures
        final(new_state).fields() == old_state.fields(),
        final(new_state).values() == migrated(
            old_grid,
            old_state.fields(),
            old_state.values(),
            new_grid,
        ),
{
    let ghost fields = old_state.fields();
    let ghost ov = old_state.values();
    let nf = old_state.layout().num_fields();
    let nb = new_grid.num_blocks();
    proof {
        let w = migrating(old_grid, fields, ov, new_grid, 0, 0);
        assert forall|b: int| 0 <= b < w.len() implies #[trigger] w[b] == new_state.values()[b] by {
            assert(w[b] =~~= new_state.values()[b]);
        }
        assert(new_state.values() =~= w);
    }
    let mut f: usize = 0;
    while f < nf
        invariant
            f <= nf,
            nf == fields.len(),
            nb == new_grid.blocks(),
            kin(old_grid, new_grid),
            fields == old_state.fields(),
            ov == old_state.values(),
            allocated_on::<T, R, AmrGrid<R, D>, D>(fields, old_grid, ov),
            layout_fits::<R, AmrGrid<R, D>, D>(fields, new_grid),
            new_state.fields() == fields,
            new_state.values() == migrating(old_grid, fields, ov, new_grid, f as int, 0),
        decreases nf - f,
    {
        let handle = State::<T, S>::handle_at(f);
        let ghost g = fields[f as int].halo as int;
        proof {
            lemma_allocated_field(old_grid, old_state, f as int);
        }
        let mut b: usize = 0;
        while b < nb
            invariant
                f < nf,
                b <= nb,
                nf == fields.len(),
                nb == new_grid.blocks(),
                kin(old_grid, new_grid),
                fields == old_state.fields(),
                ov == old_state.values(),
                field_fits(old_grid, old_state, f as int),
                layout_fits::<R, AmrGrid<R, D>, D>(fields, new_grid),
                handle.pos() == f,
                g == fields[f as int].halo,
                new_state.fields() == fields,
                new_state.values() == migrating(
                    old_grid,
                    fields,
                    ov,
                    new_grid,
                    f as int,
                    b as int,
                ),
            decreases nb - b,
        {
            let ghost cur = new_state.values();
            let ghost next = migrating(old_grid, fields, ov, new_grid, f as int, b + 1);
            let ghost want = migrated_slab(old_grid, g, field_slabs(ov, f as int), new_grid, b as int);
            let block = BlockId(b as u32);
            proof {
                assert(new_grid.patch_list().len() < u32::MAX);
                assert(slab_fits(new_grid.extent_of(b as int), g));
            }
            if new_grid.level(block) == 0 {
                proof {
                    lemma_base_tiles(old_grid, new_grid, b as int);
                }
                let slab = new_state.slab_mut(block, handle);
                copy_slab(old_state.slab(block, handle), slab);
            } else {
                let slab = new_state.slab_mut(block, handle);
                sample_slab(old_grid, old_state, handle, new_grid, block, slab);
            }
            proof {
                lemma_migrating_step(old_grid, fields, ov, new_grid, f as int, b as int);
                assert(new_state.values() =~~= with_slab(cur, b as int, f as int, want));
            }
            b += 1;
        }
        proof {
            let x = migrating(old_grid, fields, ov, new_grid, f as int, nb as int);
            let y = migrating(old_grid, fields, ov, new_grid, f + 1, 0);
            assert forall|c: int| 0 <= c < x.len() implies #[trigger] x[c] == y[c] by {
                assert(x[c].fields =~= y[c].fields);
            }
            assert(x =~= y);
        }
        f += 1;
    }
    proof {
        let x = migrating(old_grid, fields, ov, new_grid, nf as int, 0);
        let y = migrated(old_grid, fields, ov, new_grid);
        assert forall|c: int| 0 <= c < x.len() implies #[trigger] x[c] == y[c] by {
            assert(x[c].fields =~= y[c].fields);
        }
        assert(x =~= y);
    }
}

proof fn lemma_migrating_step<R: Real, T: Real, const D: usize>(
    old_grid: &AmrGrid<R, D>,
    fields: Seq<FieldSpec>,
    values: Seq<BlockValues<T>>,
    new_grid: &AmrGrid<R, D>,
    f: int,
    b: int,
)
    requires
        0 <= f < fields.len(),
        0 <= b < new_grid.blocks(),
    ensures
        migrating(old_grid, fields, values, new_grid, f, b + 1) == with_slab(
            migrating(old_grid, fields, values, new_grid, f, b),
            b,
            f,
            migrated_slab(
                old_grid,
                fields[f].halo as int,
                field_slabs(values, f),
                new_grid,
                b,
            ),
        ),
{
    let x = migrating(old_grid, fields, values, new_grid, f, b);
    let y = migrating(old_grid, fields, values, new_grid, f, b + 1);
    let z = with_slab(
        x,
        b,
        f,
        migrated_slab(old_grid, fields[f].halo as int, field_slabs(values, f), new_grid, b),
    );
    assert forall|c: int| 0 <= c < y.len() implies #[trigger] y[c] == z[c] by {
        assert(y[c].fields =~= z[c].fields);
    }
    assert(y =~= z);
}

fn copy_slab<T: Scalar>(from: &[T], to: &mut [T])
    requires
        from@.len() == old(to)@.len(),
    ensures
        final(to)@ == from@,
{
    let n = to.len();
    let mut i: usize = 0;
    while i < n
        invariant
            i <= n,
            from@.len() == n,
            to@.len() == n,
            forall|j: int| 0 <= j < i ==> #[trigger] to@[j] == from@[j],
        decreases n - i,
    {
        to[i] = from[i];
        i += 1;
    }
    proof {
        assert(to@ =~= from@);
    }
}

/// Cells that both hierarchies resolve at the same level keep their values: an
/// interior cell of a refined new patch that lies in an old patch of its level
/// carries that patch's value over.
pub proof fn migration_keeps_resolved_cells<R: Real, T: Real, const D: usize>(
    old_grid: &AmrGrid<R, D>,
    fields: Seq<FieldSpec>,
    values: Seq<BlockValues<T>>,
    new_grid: &AmrGrid<R, D>,
    b: int,
    f: int,
    idx: Seq<int>,
    p: int,
)
    requires
        kin(old_grid, new_grid),
        0 <= b < new_grid.patch_list().len(),
        new_grid.level_of(b) > 0,
        0 <= f < fields.len(),
        in_ext(idx, new_grid.extent_of(b)),
        patch_holds(
            old_grid,
            p,
            new_grid.level_of(b),
            plus(idx, ints(new_grid.patch_list()[b].bx.lo)),
        ),
    ensures
        migrated(old_grid, fields, values, new_grid)[b].fields[f][slab_at(
            idx,
            new_grid.extent_of(b),
            fields[f].halo as int,
        )] == value_in(
            old_grid,
            fields[f].halo as int,
            field_slabs(values, f),
            p,
            plus(idx, ints(new_grid.patch_list()[b].bx.lo)),
        ),
{
    let ext = new_grid.extent_of(b);
    let g = fields[f].halo as int;
    new_grid.lemma_patch(b);
    lemma_interior_in_slab(idx, ext, g);
    lemma_slab_at(idx, ext, g);
    lemma_owner(
        old_grid,
        p,
        new_grid.level_of(b),
        plus(idx, ints(new_grid.patch_list()[b].bx.lo)),
    );
}

/// Base tiles carry over whole, and a refined cell that no old patch of its level held is
/// prolonged: where the coarser cells it is made from hold a linear function at their
/// centers, it gets the function's value at its own, in exact arithmetic.
pub proof fn migration_prolongs_new_cells<R: Real, T: Real, const D: usize>(
    w: spec_fn(T) -> real,
    old_grid: &AmrGrid<R, D>,
    fields: Seq<FieldSpec>,
    values: Seq<BlockValues<T>>,
    new_grid: &AmrGrid<R, D>,
    b: int,
    f: int,
    idx: Seq<int>,
    offset: real,
    slope: Seq<real>,
)
    requires
        exact(w),
        kin(old_grid, new_grid),
        0 <= b < new_grid.patch_list().len(),
        0 <= f < fields.len(),
        in_ext(idx, new_grid.extent_of(b)),
        new_grid.level_of(b) > 0 ==> ({
            let level = new_grid.level_of(b);
            let x = plus(idx, ints(new_grid.patch_list()[b].bx.lo));
            &&& level <= old_grid.ratio_list().len()
            &&& owner_at(old_grid, level, x) is None
            &&& in_ext(x, old_grid.cells_at(level))
            &&& donors_are_linear(
                w,
                old_grid,
                fields[f].halo as int,
                field_slabs(values, f),
                level as nat,
                x,
                offset,
                slope,
            )
        }),
    ensures
        ({
            let g = fields[f].halo as int;
            let level = new_grid.level_of(b);
            let next = migrated(old_grid, fields, values, new_grid)[b].fields[f];
            if level == 0 {
                next == field_slabs(values, f)[b]
            } else {
                let x = plus(idx, ints(new_grid.patch_list()[b].bx.lo));
                w(next[slab_at(idx, new_grid.extent_of(b), g)]) == affine(
                    offset,
                    slope,
                    position(w, x, old_grid.ratio_list()[level - 1] as int),
                    D as nat,
                )
            }
        }),
{
    let g = fields[f].halo as int;
    let level = new_grid.level_of(b);
    if level > 0 {
        let ext = new_grid.extent_of(b);
        let x = plus(idx, ints(new_grid.patch_list()[b].bx.lo));
        lemma_interior_in_slab(idx, ext, g);
        lemma_slab_at(idx, ext, g);
        assert(levels_fit(
            old_grid.base_grid().domain(),
            old_grid.ratio_list(),
            level as nat,
        ));
        prolongation_reproduces_linear_fields(
            w,
            old_grid,
            g,
            field_slabs(values, f),
            level as nat,
            x,
            offset,
            slope,
        );
    }
}

} // verus!
