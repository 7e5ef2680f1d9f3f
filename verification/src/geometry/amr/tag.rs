//! Refinement criteria.
use vstd::prelude::*;

use crate::engine::state::{allocated_on, BlockValues, FieldHandle, FieldSpec, State};
use crate::engine::storage::{Real, StorageBackend};
use crate::geometry::amr::grid::AmrGrid;
use crate::geometry::amr::intergrid::{cell_of, field_fits, lemma_cell_of};
use crate::geometry::amr::migrate::lemma_allocated_field;
use crate::geometry::amr::sync::{synchronize, synchronized};
use crate::geometry::cartesian::CartesianGrid;
use crate::geometry::grid::{
    ghosted, in_slab, lemma_extent_fits, linearize, slab_at, slab_fits, BlockId, Grid,
};
use crate::geometry::halo::field_slabs;

use crate::geometry::index::{
    box_cells, in_box, in_ext, ints, isizes, lemma_rank, minus, next_cell, positive, rank, usizes,
    volume,
};

verus! {

/// A refinement criterion: flags the cells of one level that need finer
/// resolution.
pub trait TagCells<T: Real, const D: usize> {
    /// The criterion can be evaluated on states of this layout over any
    /// hierarchy on this base grid.
    open spec fn suits(
        &self,
        base: CartesianGrid<T, D>,
        ratios: Seq<u32>,
        fields: Seq<FieldSpec>,
    ) -> bool {
        true
    }

    /// The state made consistent for tagging.
    open spec fn prepared(
        &self,
        grid: &AmrGrid<T, D>,
        fields: Seq<FieldSpec>,
        values: Seq<BlockValues<T>>,
    ) -> Seq<BlockValues<T>> {
        values
    }

    /// The cells of a level that need refinement.
    open spec fn tagged(
        &self,
        grid: &AmrGrid<T, D>,
        fields: Seq<FieldSpec>,
        values: Seq<BlockValues<T>>,
        level: int,
    ) -> Seq<[i64; D]> {
        Seq::empty()
    }

    /// Make the state consistent for tagging (restriction, ghost fills of the
    /// fields the criterion reads). Called once per regrid.
    fn prepare<S: StorageBackend<T>>(&self, grid: &AmrGrid<T, D>, state: &mut State<T, S>)
        requires
            grid.sound(),
            self.suits(grid.base_grid(), grid.ratio_list(), old(state).fields()),
            allocated_on::<T, T, AmrGrid<T, D>, D>(old(state).fields(), grid, old(state).values()),
        ensures
            final(state).fields() == old(state).fields(),
            final(state).values() == self.prepared(grid, old(state).fields(), old(state).values()),
            allocated_on::<T, T, AmrGrid<T, D>, D>(
                final(state).fields(),
                grid,
                final(state).values(),
            ),
    ;

    /// Append the level-`level` cells needing refinement, in level-`level` cell
    /// coordinates.
    fn tag_level<S: StorageBackend<T>>(
        &self,
        grid: &AmrGrid<T, D>,
        state: &State<T, S>,
        level: u8,
        flags: &mut Vec<[i64; D]>,
    )
        requires
            grid.sound(),
            self.suits(grid.base_grid(), grid.ratio_list(), state.fields()),
            allocated_on::<T, T, AmrGrid<T, D>, D>(state.fields(), grid, state.values()),
            level < grid.levels(),
        ensures
            final(flags)@ == old(flags)@ + self.tagged(
                grid,
                state.fields(),
                state.values(),
                level as int,
            ),
            forall|i: int|
                0 <= i < self.tagged(grid, state.fields(), state.values(), level as int).len()
                    ==> in_ext(
                    ints(
                        #[trigger] self.tagged(
                            grid,
                            state.fields(),
                            state.values(),
                            level as int,
                        )[i],
                    ),
                    grid.cells_at(level as int),
                ),
    ;
}

/// Tag where the undivided central-difference gradient of one field exceeds a
/// threshold: the pragmatic criterion for interface-tracking problems (the
/// gradient times the spacing is scale-free across levels).
///
/// The field is named, not handled: taggers are constructed before the
/// simulation registers fields, so the handle is resolved from the state's
/// layout at regrid time.
#[derive(Debug, Clone, Copy)]
pub struct GradientTagger<R> {
    /// Registered name of the field whose gradient drives refinement.
    pub field: &'static str,
    /// Flag where `max_d |u(i+e_d) - u(i-e_d)| / 2` exceeds this.
    pub threshold: R,
}

/// The first field of that name.
pub open spec fn first_named(fields: Seq<FieldSpec>, name: Seq<char>, f: int) -> bool {
    &&& 0 <= f < fields.len()
    &&& fields[f].name@ == name
    &&& forall|e: int| 0 <= e < f ==> (#[trigger] fields[e]).name@ != name
}

/// Position of the first field of that name.
pub open spec fn position_of(fields: Seq<FieldSpec>, name: Seq<char>) -> int {
    choose|f: int| first_named(fields, name, f)
}

/// The index with one coordinate moved.
pub open spec fn moved(idx: Seq<int>, d: int, by: int) -> Seq<int> {
    idx.update(d, idx[d] + by)
}

/// Largest undivided central difference over the first `n` axes.
pub open spec fn steepness<T: Real>(slab: Seq<T>, ext: Seq<int>, g: int, idx: Seq<int>, n: nat) -> T
    decreases n,
{
    if n == 0 {
        T::zero_spec()
    } else {
        let d = n - 1;
        steepness(slab, ext, g, idx, d as nat).max_spec(
            slab[slab_at(moved(idx, d, 1), ext, g)].sub_spec(
                slab[slab_at(moved(idx, d, -1), ext, g)],
            ).mul_spec(T::half_spec()).abs_spec(),
        )
    }
}

/// Tags among the first `k` cells of patch `p`, first axis fastest.
pub open spec fn patch_tags<T: Real, const D: usize>(
    grid: &AmrGrid<T, D>,
    g: int,
    slab: Seq<T>,
    threshold: T,
    p: int,
    k: nat,
) -> Seq<[i64; D]>
    decreases k,
{
    if k == 0 {
        Seq::empty()
    } else {
        let bx = grid.patch_list()[p].bx;
        let before = patch_tags(grid, g, slab, threshold, p, (k - 1) as nat);
        let x = box_cells(ints(bx.lo), ints(bx.hi))[k - 1];
        if threshold.lt_spec(
            steepness(slab, grid.extent_of(p), g, minus(x, ints(bx.lo)), D as nat),
        ) {
            before.push(cell_of::<D>(x))
        } else {
            before
        }
    }
}

/// Tags of a level's patches before patch `n`, in patch order.
pub open spec fn tags_before<T: Real, const D: usize>(
    grid: &AmrGrid<T, D>,
    g: int,
    v: Seq<Seq<T>>,
    threshold: T,
    level: int,
    n: int,
) -> Seq<[i64; D]>
    decreases n - grid.starts()[level],
{
    if n <= grid.starts()[level] {
        Seq::empty()
    } else {
        let bx = grid.patch_list()[n - 1].bx;
        tags_before(grid, g, v, threshold, level, n - 1) + patch_tags(
            grid,
            g,
            v[n - 1],
            threshold,
            n - 1,
            volume(minus(ints(bx.hi), ints(bx.lo))) as nat,
        )
    }
}

/// Handle of the tagger's field.
fn tagger_handle<T: Real, S: StorageBackend<T>>(name: &'static str, state: &State<T, S>) -> (r:
    FieldHandle<T>)
    requires
        exists|f: int| first_named(state.fields(), name@, f),
    ensures
        r.pos() == position_of(state.fields(), name@),
        first_named(state.fields(), name@, r.pos()),
{
    let ghost f = position_of(state.fields(), name@);
    proof {
        assert(first_named(state.fields(), name@, f));
    }
    match state.field(name) {
        Some(h) => {
            proof {
                if h.pos() < f {
                    assert(state.fields()[h.pos()].name@ != name@);
                }
                if f < h.pos() {
                    assert(state.fields()[f].name@ != name@);
                }
            }
            h
        },
        None => {
            proof {
                assert(state.fields()[f].name@ != name@);
            }
            State::<T, S>::handle_at(0)
        },
    }
}

/// Largest undivided central difference at one cell of a slab.
fn slab_steepness<T: Real, const D: usize>(
    slab: &[T],
    extent: &[usize; D],
    width: u32,
    idx: &[isize; D],
) -> (r: T)
    requires
        positive(usizes(*extent)),
        width >= 1,
        slab_fits(usizes(*extent), width as int),
        slab@.len() == volume(ghosted(usizes(*extent), width as int)),
        in_ext(isizes(*idx), usizes(*extent)),
    ensures
        r == steepness(slab@, usizes(*extent), width as int, isizes(*idx), D as nat),
{
    let ghost ext = usizes(*extent);
    let ghost g = width as int;
    let ghost i = isizes(*idx);
    proof {
        lemma_extent_fits(ext, g);
    }
    let mut best = T::zero();
    let mut d: usize = 0;
    while d < D
        invariant
            d <= D,
            ext == usizes(*extent),
            g == width,
            g >= 1,
            i == isizes(*idx),
            positive(ext),
            slab_fits(ext, g),
            slab@.len() == volume(ghosted(ext, g)),
            in_ext(i, ext),
            forall|e: int| 0 <= e < ext.len() ==> (#[trigger] ext[e]) + 2 * g <= isize::MAX,
            best == steepness(slab@, ext, g, i, d as nat),
        decreases D - d,
    {
        proof {
            assert(0 <= i[d as int] < ext[d as int]);
            assert(ext[d as int] + 2 * g <= isize::MAX);
        }
        let mut up = *idx;
        up[d] = up[d] + 1;
        let mut down = *idx;
        down[d] = down[d] - 1;
        proof {
            assert(isizes(up) =~= moved(i, d as int, 1));
            assert(isizes(down) =~= moved(i, d as int, -1));
            assert(in_slab(isizes(up), ext, g)) by {
                assert forall|e: int| 0 <= e < ext.len() implies -g <= #[trigger] isizes(up)[e]
                    < ext[e] + g by {
                    assert(0 <= i[e] < ext[e]);
                }
            }
            assert(in_slab(isizes(down), ext, g)) by {
                assert forall|e: int| 0 <= e < ext.len() implies -g <= #[trigger] isizes(down)[e]
                    < ext[e] + g by {
                    assert(0 <= i[e] < ext[e]);
                }
            }
        }
        let a = slab[linearize(up, *extent, width)];
        let b = slab[linearize(down, *extent, width)];
        best = best.max(a.sub(b).mul(T::half()).abs());
        d += 1;
    }
    best
}

/// Append the tags of one patch.
fn tag_patch<T: Real, S: StorageBackend<T>, const D: usize>(
    grid: &AmrGrid<T, D>,
    state: &State<T, S>,
    handle: FieldHandle<T>,
    threshold: T,
    block: BlockId,
    flags: &mut Vec<[i64; D]>,
)
    requires
        grid.sound(),
        field_fits(grid, state, handle.pos()),
        state.fields()[handle.pos()].halo >= 1,
        block.id() < grid.patch_list().len(),
    ensures
        ({
            let bx = grid.patch_list()[block.id()].bx;
            final(flags)@ == old(flags)@ + patch_tags(
                grid,
                state.fields()[handle.pos()].halo as int,
                field_slabs(state.values(), handle.pos())[block.id()],
                threshold,
                block.id(),
                volume(minus(ints(bx.hi), ints(bx.lo))) as nat,
            )
        }),
{
    let ghost f = handle.pos();
    let ghost g = state.fields()[f].halo as int;
    let ghost p = block.id();
    let ghost ext = grid.extent_of(p);
    let ghost data = field_slabs(state.values(), f)[p];
    let width = state.layout().ghost(handle.index());
    let bx = grid.patch(block).bx;
    let extent = grid.block_extent(block);
    let slab = state.slab(block, handle);
    let ghost start = flags@;
    proof {
        grid.lemma_patch(p);
        assert(slab_fits(ext, g));
        lemma_extent_fits(ext, g);
        assert(data.len() == volume(ghosted(ext, g)));
    }
    let lo = bx.lo;
    let hi = bx.hi;
    let ghost l = ints(lo);
    let ghost h = ints(hi);
    let mut c = lo;
    let mut more = true;
    let ghost mut k: nat = 0;
    proof {
        assert(in_box(ints(c), l, h)) by {
            assert forall|d: int| 0 <= d < D implies l[d] <= #[trigger] ints(c)[d] < h[d] by {
                assert(bx.lo[d] < bx.hi[d]);
            }
        }
        lemma_rank(ints(c), l, h);
        crate::geometry::index::lemma_lin_zero(minus(l, l), minus(h, l));
        assert(start + Seq::<[i64; D]>::empty() =~= start);
    }
    while more
        invariant
            D > 0,
            bx == grid.patch_list()[p].bx,
            lo == bx.lo,
            hi == bx.hi,
            l == ints(lo),
            h == ints(hi),
            ext == grid.extent_of(p),
            ext == usizes(extent),
            ext == bx.widths(),
            positive(ext),
            g == width,
            g >= 1,
            slab_fits(ext, g),
            slab@ == data,
            data.len() == volume(ghosted(ext, g)),
            forall|d: int| 0 <= d < D ==> bx.width(d) == (#[trigger] bx.hi[d]) - bx.lo[d],
            forall|d: int| 0 <= d < D ==> (#[trigger] ext[d]) + 2 * g <= isize::MAX,
            flags@ == start + patch_tags(grid, g, data, threshold, p, k),
            0 <= k <= volume(minus(h, l)),
            more ==> in_box(ints(c), l, h) && rank(ints(c), l, h) == k,
            !more ==> k == volume(minus(h, l)),
        decreases volume(minus(h, l)) - k,
    {
        proof {
            lemma_rank(ints(c), l, h);
            lemma_cell_of::<D>(ints(c));
            crate::geometry::amr::walk::lemma_cell_ext(cell_of::<D>(ints(c)), c);
        }
        let local = relative(&bx, &c);
        proof {
            assert(isizes(local) =~= minus(ints(c), l));
            assert(in_ext(isizes(local), ext)) by {
                assert forall|d: int| 0 <= d < D implies 0 <= #[trigger] isizes(local)[d]
                    < ext[d] by {
                    assert(l[d] <= ints(c)[d] < h[d]);
                    assert(bx.width(d) == bx.hi[d] - bx.lo[d]);
                }
            }
        }
        let s = slab_steepness(slab, &extent, width, &local);
        if threshold.lt(s) {
            let ghost before = flags@;
            flags.push(c);
            proof {
                assert(start + patch_tags(grid, g, data, threshold, p, k + 1) =~= before.push(c));
            }
        }
        proof {
            k = k + 1;
        }
        more = next_cell(&mut c, &lo, &hi);
    }
}

/// A cell of a box relative to its lower corner.
fn relative<const D: usize>(
    bx: &crate::geometry::amr::cluster::CellBox<D>,
    c: &[i64; D],
) -> (local: [isize; D])
    requires
        in_box(ints(*c), ints(bx.lo), ints(bx.hi)),
        forall|d: int| 0 <= d < D ==> bx.width(d) == (#[trigger] bx.hi[d]) - bx.lo[d],
        forall|d: int| 0 <= d < D ==> (#[trigger] bx.widths()[d]) <= isize::MAX,
    ensures
        forall|e: int| 0 <= e < D ==> #[trigger] local[e] == c[e] - bx.lo[e],
{
    let mut local = [0isize; D];
    let mut d: usize = 0;
    while d < D
        invariant
            d <= D,
            in_box(ints(*c), ints(bx.lo), ints(bx.hi)),
            forall|e: int| 0 <= e < D ==> bx.width(e) == (#[trigger] bx.hi[e]) - bx.lo[e],
            forall|e: int| 0 <= e < D ==> (#[trigger] bx.widths()[e]) <= isize::MAX,
            forall|e: int| 0 <= e < d ==> #[trigger] local[e] == c[e] - bx.lo[e],
        decreases D - d,
    {
        proof {
            assert(ints(bx.lo)[d as int] <= ints(*c)[d as int] < ints(bx.hi)[d as int]);
            assert(bx.width(d as int) == bx.hi[d as int] - bx.lo[d as int]);
            assert(bx.widths()[d as int] <= isize::MAX);
        }
        let offset: i64 = c[d] - bx.lo[d];
        local[d] = offset as isize;
        d += 1;
    }
    local
}

/// Tags are cells of the patch they come from.
proof fn lemma_patch_tags_inside<T: Real, const D: usize>(
    grid: &AmrGrid<T, D>,
    g: int,
    slab: Seq<T>,
    threshold: T,
    p: int,
    k: nat,
    i: int,
)
    requires
        grid.sound(),
        0 <= p < grid.patch_list().len(),
        ({
            let bx = grid.patch_list()[p].bx;
            k <= volume(minus(ints(bx.hi), ints(bx.lo)))
        }),
        0 <= i < patch_tags(grid, g, slab, threshold, p, k).len(),
    ensures
        in_ext(
            ints(patch_tags(grid, g, slab, threshold, p, k)[i]),
            grid.cells_at(grid.level_of(p)),
        ),
    decreases k,
{
    let bx = grid.patch_list()[p].bx;
    let before = patch_tags(grid, g, slab, threshold, p, (k - 1) as nat);
    if k > 0 {
        if i < before.len() {
            lemma_patch_tags_inside(grid, g, slab, threshold, p, (k - 1) as nat, i);
        } else {
            grid.lemma_patch(p);
            let lo = ints(bx.lo);
            let hi = ints(bx.hi);
            let x = box_cells(lo, hi)[k - 1];
            let cells = grid.cells_at(grid.level_of(p));
            let ext = minus(hi, lo);
            assert forall|d: int| 0 <= d < ext.len() implies 0 < #[trigger] ext[d] by {
                assert(bx.lo[d] < bx.hi[d]);
            }
            assert forall|d: int| 0 <= d < lo.len() implies !(#[trigger] lo[d] >= hi[d]) by {
                assert(ext[d] > 0);
            }
            crate::geometry::index::lemma_lin_delin(k - 1, ext);
            let o = crate::geometry::index::delin(k - 1, ext);
            assert forall|d: int| 0 <= d < D implies 0 <= #[trigger] x[d] < cells[d] by {
                assert(0 <= o[d] < ext[d]);
                assert(0 <= bx.lo[d] <= bx.hi[d] <= cells[d]);
            }
            assert forall|d: int| 0 <= d < D implies i64::MIN <= #[trigger] x[d] <= i64::MAX by {
                assert(0 <= x[d] < cells[d]);
                assert(grid.cells_at(grid.level_of(p))[d] + 0x1_0000_0000 <= i64::MAX);
            }
            lemma_cell_of::<D>(x);
        }
    }
}

/// Tags are cells of their level.
proof fn lemma_tags_inside<T: Real, const D: usize>(
    grid: &AmrGrid<T, D>,
    g: int,
    v: Seq<Seq<T>>,
    threshold: T,
    level: int,
    n: int,
    i: int,
)
    requires
        grid.sound(),
        0 <= level < grid.levels(),
        grid.starts()[level] <= n <= grid.starts()[level + 1],
        0 <= i < tags_before(grid, g, v, threshold, level, n).len(),
    ensures
        in_ext(
            ints(tags_before(grid, g, v, threshold, level, n)[i]),
            grid.cells_at(level),
        ),
    decreases n - grid.starts()[level],
{
    if n > grid.starts()[level] {
        let before = tags_before(grid, g, v, threshold, level, n - 1);
        if i < before.len() {
            lemma_tags_inside(grid, g, v, threshold, level, n - 1, i);
        } else {
            grid.lemma_level_at(level, n - 1);
            grid.lemma_patch(n - 1);
            let bx = grid.patch_list()[n - 1].bx;
            let ext = minus(ints(bx.hi), ints(bx.lo));
            assert forall|d: int| 0 <= d < ext.len() implies 0 < #[trigger] ext[d] by {
                assert(bx.lo[d] < bx.hi[d]);
            }
            crate::geometry::index::lemma_volume_positive(ext);
            lemma_patch_tags_inside(
                grid,
                g,
                v[n - 1],
                threshold,
                n - 1,
                volume(ext) as nat,
                i - before.len(),
            );
        }
    }
}

impl<T: Real, const D: usize> TagCells<T, D> for GradientTagger<T> {
    /// The field is registered with a ghost ring no wider than the domain.
    open spec fn suits(
        &self,
        base: CartesianGrid<T, D>,
        ratios: Seq<u32>,
        fields: Seq<FieldSpec>,
    ) -> bool {
        let f = position_of(fields, self.field@);
        &&& first_named(fields, self.field@, f)
        &&& fields[f].halo >= 1
        &&& forall|d: int| 0 <= d < D ==> fields[f].halo <= #[trigger] base.domain()[d]
    }

    open spec fn prepared(
        &self,
        grid: &AmrGrid<T, D>,
        fields: Seq<FieldSpec>,
        values: Seq<BlockValues<T>>,
    ) -> Seq<BlockValues<T>> {
        synchronized(grid, fields, values, position_of(fields, self.field@))
    }

    open spec fn tagged(
        &self,
        grid: &AmrGrid<T, D>,
        fields: Seq<FieldSpec>,
        values: Seq<BlockValues<T>>,
        level: int,
    ) -> Seq<[i64; D]> {
        let f = position_of(fields, self.field@);
        tags_before(
            grid,
            fields[f].halo as int,
            field_slabs(values, f),
            self.threshold,
            level,
            grid.starts()[level + 1] as int,
        )
    }

    fn prepare<S: StorageBackend<T>>(&self, grid: &AmrGrid<T, D>, state: &mut State<T, S>) {
        let h = tagger_handle(self.field, &*state);
        synchronize(grid, state, h);
    }

    fn tag_level<S: StorageBackend<T>>(
        &self,
        grid: &AmrGrid<T, D>,
        state: &State<T, S>,
        level: u8,
        flags: &mut Vec<[i64; D]>,
    ) {
        let h = tagger_handle(self.field, state);
        let ghost f = h.pos();
        let ghost g = state.fields()[f].halo as int;
        let ghost v = field_slabs(state.values(), f);
        let ghost lv = level as int;
        let ghost start_flags = flags@;
        let ghost thr = self.threshold;
        let (start, end) = grid.level_range(level);
        let mut b: u32 = start;
        proof {
            lemma_allocated_field(grid, state, f);
            assert(start <= end <= grid.patch_list().len()) by {
                let st = grid.starts();
                assert(st[lv] <= st[lv + 1]);
                assert(st[lv + 1] <= st[st.len() - 1]);
            }
            assert(start_flags + Seq::<[i64; D]>::empty() =~= start_flags);
            assert forall|i: int|
                0 <= i < self.tagged(grid, state.fields(), state.values(), lv).len() implies in_ext(
                ints(#[trigger] self.tagged(grid, state.fields(), state.values(), lv)[i]),
                grid.cells_at(lv),
            ) by {
                lemma_tags_inside(grid, g, v, thr, lv, grid.starts()[lv + 1] as int, i);
            }
        }
        while b < end
            invariant
                start <= b <= end,
                start == grid.starts()[lv],
                end <= grid.patch_list().len(),
                grid.sound(),
                f == h.pos(),
                field_fits(grid, state, f),
                g == state.fields()[f].halo,
                g >= 1,
                v == field_slabs(state.values(), f),
                thr == self.threshold,
                flags@ == start_flags + tags_before(grid, g, v, thr, lv, b as int),
            decreases end - b,
        {
            let ghost before = flags@;
            tag_patch(grid, state, h, self.threshold, BlockId(b), flags);
            proof {
                assert(start_flags + tags_before(grid, g, v, thr, lv, b + 1) =~= flags@);
            }
            b += 1;
        }
    }
}

} // verus!
