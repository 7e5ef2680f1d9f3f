//! Cell-by-cell sweeps over the interior of a block: the loop behind every
//! stencil, vector field and initial condition.

use vstd::prelude::*;

use crate::engine::state::{
    allocated_on, full_block, with_slab, BlockStateMut, BlockValues, FieldHandle, FieldSpec, State,
};
use crate::engine::storage::{Real, Scalar, StorageBackend};
use crate::geometry::cartesian::CartesianGrid;
use crate::geometry::halo::with_field;
use crate::geometry::grid::{
    ghosted, lemma_interior_in_slab, lemma_slab_at, lemma_slab_index, lemma_spread, slab_at,
    slab_fits, slab_index, spread, BlockId, Grid,
};
use crate::geometry::index::{
    in_box, in_ext, isizes, lemma_lin_zero, lemma_rank, lin, minus, next_index, positive, rank,
    usizes, volume,
};
use crate::geometry::view::CartesianViewMut;

verus! {

/// A value for every cell of a block, given what the cell holds.
pub trait CellRule<T, const D: usize> {
    /// The rule can be evaluated at a cell.
    spec fn reaches(&self, idx: Seq<int>) -> bool;

    /// The value at a cell that holds `old`.
    spec fn value(&self, idx: Seq<int>, old: T) -> T;

    /// Evaluate the rule at a cell.
    fn eval(&self, idx: [isize; D], old: T) -> (r: T)
        requires
            self.reaches(isizes(idx)),
        ensures
            r == self.value(isizes(idx), old),
    ;
}

/// A slab whose interior cells were rewritten by `f`, a function of the cell and
/// of what it held; ghost entries stay.
pub open spec fn with_interior<T>(
    slab: Seq<T>,
    ext: Seq<int>,
    g: int,
    f: spec_fn(Seq<int>, T) -> T,
) -> Seq<T> {
    Seq::new(
        slab.len(),
        |o: int|
            {
                let idx = slab_index(o, ext, g);
                if in_ext(idx, ext) {
                    f(idx, slab[o])
                } else {
                    slab[o]
                }
            },
    )
}

/// Rewrite every interior cell of a view by a rule.
pub fn set_interior<T: Scalar, K: CellRule<T, D>, const D: usize>(
    view: &mut CartesianViewMut<'_, T, D>,
    rule: &K,
)
    requires
        old(view).valid(),
        positive(old(view).ext()),
        forall|idx: Seq<int>| #[trigger] in_ext(idx, old(view).ext()) ==> rule.reaches(idx),
    ensures
        final(view).data@ == with_interior(
            old(view).data@,
            old(view).ext(),
            old(view).width(),
            |idx: Seq<int>, v: T| rule.value(idx, v),
        ),
        final(view).extent == old(view).extent,
        final(view).halo == old(view).halo,
        final(final(view).data)@ == final(old(view).data)@,
{
    let ghost ext = view.ext();
    let ghost g = view.width();
    let ghost start = view.data@;
    let ghost f = |idx: Seq<int>, v: T| rule.value(idx, v);
    let ghost want = with_interior(start, ext, g, f);
    let ghost slot = final(view.data)@;
    let lo = [0isize; D];
    let mut hi = [0isize; D];
    let extent = view.interior();
    proof {
        crate::geometry::grid::lemma_extent_fits(ext, g);
    }
    let mut d: usize = 0;
    while d < D
        invariant
            d <= D,
            ext == usizes(extent),
            g >= 0,
            forall|k: int| 0 <= k < D ==> (#[trigger] ext[k]) + 2 * g <= isize::MAX,
            forall|e: int| 0 <= e < d ==> #[trigger] hi[e] == extent[e],
        decreases D - d,
    {
        assert(ext[d as int] + 2 * g <= isize::MAX);
        hi[d] = extent[d] as isize;
        d += 1;
    }
    let ghost l = isizes(lo);
    let mut idx = lo;
    let mut more = true;
    let ghost mut k: int = 0;
    proof {
        assert(isizes(hi) =~= ext);
        assert(minus(ext, l) =~= ext);
        assert forall|e: int| 0 <= e < l.len() implies l[e] <= #[trigger] l[e] < ext[e] by {
            assert(ext[e] > 0);
        }
        assert(in_box(l, l, ext));
        lemma_lin_zero(minus(l, l), ext);
        crate::geometry::index::lemma_volume_positive(ext);
        assert forall|o: int| 0 <= o < start.len() implies #[trigger] view.data@[o] == (if in_ext(
            slab_index(o, ext, g),
            ext,
        ) && lin(slab_index(o, ext, g), ext) < 0 {
            want[o]
        } else {
            start[o]
        }) by {
            lemma_slab_index(o, ext, g);
            if in_ext(slab_index(o, ext, g), ext) {
                crate::geometry::index::lemma_lin_bounds(slab_index(o, ext, g), ext);
            }
        }
    }
    while more
        invariant
            l == isizes(lo),
            ext == isizes(hi),
            l == crate::geometry::index::origin(D as nat),
            minus(ext, l) == ext,
            positive(ext),
            ext == view.ext(),
            g == view.width(),
            view.extent == old(view).extent,
            view.halo == old(view).halo,
            view.valid(),
            view.data@.len() == start.len(),
            final(view.data)@ == slot,
            forall|idx: Seq<int>| #[trigger] in_ext(idx, ext) ==> rule.reaches(idx),
            f == (|idx: Seq<int>, v: T| rule.value(idx, v)),
            want == with_interior(start, ext, g, f),
            0 <= k <= volume(ext),
            more ==> in_box(isizes(idx), l, ext) && rank(isizes(idx), l, ext) == k,
            !more ==> k == volume(ext),
            forall|o: int|
                0 <= o < start.len() ==> #[trigger] view.data@[o] == (if in_ext(
                    slab_index(o, ext, g),
                    ext,
                ) && lin(slab_index(o, ext, g), ext) < k {
                    want[o]
                } else {
                    start[o]
                }),
        decreases volume(ext) - k,
    {
        let ghost c = isizes(idx);
        let ghost at = slab_at(c, ext, g);
        proof {
            lemma_rank(c, l, ext);
            assert(minus(c, l) =~= c);
            assert(in_ext(c, ext)) by {
                assert forall|e: int| 0 <= e < ext.len() implies 0 <= #[trigger] c[e] < ext[e] by {
                    assert(l[e] <= c[e] < ext[e]);
                }
            }
            lemma_interior_in_slab(c, ext, g);
            lemma_slab_at(c, ext, g);
            assert(slab_index(at, ext, g) == c);
        }
        let value = rule.eval(idx, view.get(idx));
        let ghost before = view.data@;
        view.set(idx, value);
        proof {
            assert forall|o: int| 0 <= o < start.len() implies #[trigger] view.data@[o] == (
            if in_ext(slab_index(o, ext, g), ext) && lin(slab_index(o, ext, g), ext) < k + 1 {
                want[o]
            } else {
                start[o]
            }) by {
                let other = slab_index(o, ext, g);
                if o != at {
                    assert(view.data@[o] == before[o]);
                    if in_ext(other, ext) && lin(other, ext) == k {
                        crate::geometry::index::lemma_lin_injective(other, c, ext);
                        lemma_slab_index(o, ext, g);
                    }
                }
            }
            k = k + 1;
        }
        more = next_index(&mut idx, &lo, &hi);
    }
    proof {
        assert forall|o: int| 0 <= o < start.len() implies #[trigger] view.data@[o] == want[o] by {
            if in_ext(slab_index(o, ext, g), ext) {
                crate::geometry::index::lemma_lin_bounds(slab_index(o, ext, g), ext);
            }
        }
        assert(view.data@ =~= want);
    }
}

/// A block with one slab replaced.
pub open spec fn with_one<T>(v: BlockValues<T>, f: int, slab: Seq<T>) -> BlockValues<T> {
    BlockValues { fields: v.fields.update(f, slab), rate: v.rate }
}

/// Rewrite one field of a block buffer by a rule.
pub fn write_field<
    T: Real,
    S: StorageBackend<T>,
    G: Grid<T, D>,
    K: CellRule<T, D>,
    const D: usize,
>(
    out: &mut BlockStateMut<'_, T, S>,
    grid: &G,
    block: BlockId,
    handle: FieldHandle<T>,
    rule: &K,
)
    requires
        grid.valid(),
        block.id() < grid.blocks(),
        0 <= handle.pos() < old(out).storage.values().fields.len(),
        handle.pos() < old(out).layout.fields().len(),
        slab_fits(grid.extent_of(block.id()), old(out).layout.halo(handle.pos())),
        old(out).storage.values().fields[handle.pos()].len() == volume(
            ghosted(grid.extent_of(block.id()), old(out).layout.halo(handle.pos())),
        ),
        forall|idx: Seq<int>| #[trigger]
            in_ext(idx, grid.extent_of(block.id())) ==> rule.reaches(idx),
    ensures
        final(out).storage.values() == with_one(
            old(out).storage.values(),
            handle.pos(),
            with_interior(
                old(out).storage.values().fields[handle.pos()],
                grid.extent_of(block.id()),
                old(out).layout.halo(handle.pos()),
                |idx: Seq<int>, v: T| rule.value(idx, v),
            ),
        ),
        final(out).layout == old(out).layout,
        *final(final(out).storage) == *final(old(out).storage),
{
    proof {
        grid.lemma_blocks();
    }
    let mut view = out.view_mut(grid, block, handle);
    set_interior(&mut view, rule);
}

/// A value for every cell of a grid, given what the cell holds.
pub trait GridRule<T, const D: usize> {
    /// The rule can be evaluated at a cell of block `b`.
    spec fn reaches(&self, b: int, idx: Seq<int>) -> bool;

    /// The value at a cell that holds `old`.
    spec fn value(&self, b: int, idx: Seq<int>, old: T) -> T;

    /// Evaluate the rule at a cell.
    fn eval(&self, block: BlockId, idx: [isize; D], old: T) -> (r: T)
        requires
            self.reaches(block.id(), isizes(idx)),
        ensures
            r == self.value(block.id(), isizes(idx), old),
    ;
}

struct OnBlock<'a, K> {
    rule: &'a K,
    block: BlockId,
}

impl<'a, T, K: GridRule<T, D>, const D: usize> CellRule<T, D> for OnBlock<'a, K> {
    closed spec fn reaches(&self, idx: Seq<int>) -> bool {
        self.rule.reaches(self.block.id(), idx)
    }

    closed spec fn value(&self, idx: Seq<int>, old: T) -> T {
        self.rule.value(self.block.id(), idx, old)
    }

    fn eval(&self, idx: [isize; D], old: T) -> (r: T) {
        self.rule.eval(self.block, idx, old)
    }
}

/// The slabs of one field, every interior cell rewritten by `f`, a function of the
/// block, the cell and of what it held.
pub open spec fn rewritten<T, R: Real, G: Grid<R, D>, const D: usize>(
    grid: &G,
    halo: int,
    slabs: Seq<Seq<T>>,
    f: spec_fn(int, Seq<int>, T) -> T,
) -> Seq<Seq<T>> {
    Seq::new(
        slabs.len(),
        |b: int|
            with_interior(
                slabs[b],
                grid.extent_of(b),
                halo,
                |idx: Seq<int>, v: T| f(b, idx, v),
            ),
    )
}

/// Replacing the slabs of a field by others of the same lengths keeps the state
/// allocated.
pub proof fn lemma_replaced_allocated<T, R: Real, G: Grid<R, D>, const D: usize>(
    fields: Seq<FieldSpec>,
    grid: &G,
    v: Seq<BlockValues<T>>,
    f: int,
    slabs: Seq<Seq<T>>,
)
    requires
        allocated_on::<T, R, G, D>(fields, grid, v),
        0 <= f < fields.len(),
        slabs.len() == v.len(),
        forall|b: int| 0 <= b < v.len() ==> (#[trigger] slabs[b]).len() == v[b].fields[f].len(),
    ensures
        allocated_on::<T, R, G, D>(fields, grid, with_field(v, f, slabs)),
{
    let w = with_field(v, f, slabs);
    assert forall|b: int| 0 <= b < w.len() implies full_block(
        fields,
        grid.extent_of(b),
        #[trigger] w[b],
    ) by {
        assert(full_block(fields, grid.extent_of(b), v[b]));
        assert(slabs[b].len() == v[b].fields[f].len());
        assert forall|e: int| 0 <= e < fields.len() implies (#[trigger] w[b].fields[e]).len()
            == volume(ghosted(grid.extent_of(b), fields[e].halo as int)) by {
            assert(v[b].fields[e].len() == volume(
                ghosted(grid.extent_of(b), fields[e].halo as int),
            ));
        }
    }
}

/// Rewrite one field of a state by a rule, block by block.
pub fn sweep_field<
    T: Scalar,
    S: StorageBackend<T>,
    R: Real,
    G: Grid<R, D>,
    K: GridRule<T, D>,
    const D: usize,
>(grid: &G, state: &mut State<T, S>, handle: FieldHandle<T>, rule: &K)
    requires
        grid.valid(),
        allocated_on::<T, R, G, D>(old(state).fields(), grid, old(state).values()),
        0 <= handle.pos() < old(state).fields().len(),
        forall|b: int, idx: Seq<int>|
            0 <= b < grid.blocks() && #[trigger] in_ext(idx, grid.extent_of(b)) ==> rule.reaches(
                b,
                idx,
            ),
    ensures
        final(state).fields() == old(state).fields(),
        final(state).values() == with_field(
            old(state).values(),
            handle.pos(),
            rewritten::<T, R, G, D>(
                grid,
                old(state).fields()[handle.pos()].halo as int,
                crate::geometry::halo::field_slabs(old(state).values(), handle.pos()),
                |b: int, idx: Seq<int>, v: T| rule.value(b, idx, v),
            ),
        ),
        allocated_on::<T, R, G, D>(old(state).fields(), grid, final(state).values()),
{
    let ghost v = state.values();
    let ghost fields = state.fields();
    let ghost f = handle.pos();
    let ghost halo = fields[f].halo as int;
    let ghost slabs = rewritten::<T, R, G, D>(
        grid,
        halo,
        crate::geometry::halo::field_slabs(v, f),
        |b: int, idx: Seq<int>, v: T| rule.value(b, idx, v),
    );
    let ghost want = with_field(v, f, slabs);
    proof {
        grid.lemma_blocks();
    }
    let n = grid.num_blocks();
    let mut b: usize = 0;
    while b < n
        invariant
            b <= n,
            n == grid.blocks(),
            n <= u32::MAX,
            grid.valid(),
            allocated_on::<T, R, G, D>(fields, grid, v),
            forall|c: int|
                0 <= c < grid.blocks() ==> (#[trigger] grid.extent_of(c)).len() == D && positive(
                    grid.extent_of(c),
                ),
            0 <= f < fields.len(),
            f == handle.pos(),
            halo == fields[f].halo,
            state.fields() == fields,
            state.values().len() == n,
            slabs == rewritten::<T, R, G, D>(
                grid,
                halo,
                crate::geometry::halo::field_slabs(v, f),
                |b: int, idx: Seq<int>, v: T| rule.value(b, idx, v),
            ),
            want == with_field(v, f, slabs),
            forall|c: int, idx: Seq<int>|
                0 <= c < grid.blocks() && #[trigger] in_ext(idx, grid.extent_of(c))
                    ==> rule.reaches(c, idx),
            forall|c: int| 0 <= c < b ==> #[trigger] state.values()[c] == want[c],
            forall|c: int| b <= c < n ==> #[trigger] state.values()[c] == v[c],
        decreases n - b,
    {
        let block = BlockId(b as u32);
        let ghost before = state.values();
        let ghost ext = grid.extent_of(b as int);
        proof {
            assert(before[b as int] == v[b as int]);
            assert(full_block(fields, ext, v[b as int]));
            assert(slab_fits(ext, fields[f].halo as int));
        }
        let mut view = state.view_mut(grid, block, handle);
        let cells = OnBlock { rule, block };
        let ghost start = view.data@;
        set_interior(&mut view, &cells);
        proof {
            let slab = view.data@;
            assert(slab =~= slabs[b as int]);
            assert(state.values() == with_slab(before, b as int, f, slab));
            assert(state.values()[b as int] =~~= want[b as int]);
            assert forall|c: int| 0 <= c < n && c != b implies #[trigger] state.values()[c]
                == before[c] by {}
        }
        b += 1;
    }
    proof {
        assert(state.values() =~= want);
        assert forall|c: int| 0 <= c < v.len() implies (#[trigger] slabs[c]).len()
            == v[c].fields[f].len() by {}
        lemma_replaced_allocated::<T, R, G, D>(fields, grid, v, f, slabs);
    }
}

/// Rewrite one field of a state on one block by a rule.
pub fn sweep_block<
    T: Scalar,
    S: StorageBackend<T>,
    R: Real,
    G: Grid<R, D>,
    K: CellRule<T, D>,
    const D: usize,
>(grid: &G, state: &mut State<T, S>, block: BlockId, handle: FieldHandle<T>, rule: &K)
    requires
        grid.valid(),
        block.id() < grid.blocks(),
        allocated_on::<T, R, G, D>(old(state).fields(), grid, old(state).values()),
        0 <= handle.pos() < old(state).fields().len(),
        forall|idx: Seq<int>| #[trigger]
            in_ext(idx, grid.extent_of(block.id())) ==> rule.reaches(idx),
    ensures
        final(state).fields() == old(state).fields(),
        final(state).values() == old(state).values().update(
            block.id(),
            with_one(
                old(state).values()[block.id()],
                handle.pos(),
                with_interior(
                    old(state).values()[block.id()].fields[handle.pos()],
                    grid.extent_of(block.id()),
                    old(state).fields()[handle.pos()].halo as int,
                    |idx: Seq<int>, v: T| rule.value(idx, v),
                ),
            ),
        ),
        allocated_on::<T, R, G, D>(old(state).fields(), grid, final(state).values()),
{
    let ghost v = state.values();
    let ghost fields = state.fields();
    let ghost f = handle.pos();
    let ghost b = block.id();
    let ghost ext = grid.extent_of(b);
    proof {
        grid.lemma_blocks();
        assert(full_block(fields, ext, v[b]));
        assert(slab_fits(ext, fields[f].halo as int));
    }
    let mut view = state.view_mut(grid, block, handle);
    set_interior(&mut view, rule);
    proof {
        let w = state.values();
        assert(w =~= v.update(b, with_one(v[b], f, w[b].fields[f])));
        assert forall|c: int| 0 <= c < w.len() implies full_block(
            fields,
            grid.extent_of(c),
            #[trigger] w[c],
        ) by {
            assert(full_block(fields, grid.extent_of(c), v[c]));
            if c == b {
                assert forall|e: int| 0 <= e < fields.len() implies (#[trigger] w[b].fields[e]).len()
                    == volume(ghosted(ext, fields[e].halo as int)) by {
                    assert(v[b].fields[e].len() == volume(ghosted(ext, fields[e].halo as int)));
                }
            }
        }
    }
}

/// Sweeping a slab twice is sweeping it once by both rules in turn.
pub proof fn lemma_swept_twice<T>(
    slab: Seq<T>,
    ext: Seq<int>,
    g: int,
    f: spec_fn(Seq<int>, T) -> T,
    h: spec_fn(Seq<int>, T) -> T,
)
    ensures
        with_interior(with_interior(slab, ext, g, f), ext, g, h) == with_interior(
            slab,
            ext,
            g,
            |idx: Seq<int>, v: T| h(idx, f(idx, v)),
        ),
{
    assert(with_interior(with_interior(slab, ext, g, f), ext, g, h) =~= with_interior(
        slab,
        ext,
        g,
        |idx: Seq<int>, v: T| h(idx, f(idx, v)),
    ));
}

/// The center of a cell as an array.
pub open spec fn center_array<R: Real, const D: usize>(
    grid: &CartesianGrid<R, D>,
    b: int,
    idx: Seq<int>,
) -> [R; D] {
    spread::<R, D>(|d: int| grid.center_of(b, idx, d))
}

/// Entry `o` of a slab after cells were set from a function of their center:
/// interior cells hold what the function may give there, ghosts what they held.
pub open spec fn entry_from<R: Real, T, F: Fn([R; D]) -> T, const D: usize>(
    grid: &CartesianGrid<R, D>,
    f: F,
    b: int,
    halo: int,
    before: Seq<T>,
    o: int,
    after: T,
) -> bool {
    let idx = slab_index(o, grid.tile(), halo);
    if in_ext(idx, grid.tile()) {
        call_ensures(f, (center_array(grid, b, idx),), after)
    } else {
        after == before[o]
    }
}

/// The slab of block `b` was set from a function of the cell center.
pub open spec fn slab_from<R: Real, T, F: Fn([R; D]) -> T, const D: usize>(
    grid: &CartesianGrid<R, D>,
    f: F,
    b: int,
    halo: int,
    before: Seq<T>,
    after: Seq<T>,
) -> bool {
    &&& after.len() == before.len()
    &&& forall|o: int|
        0 <= o < after.len() ==> #[trigger] entry_from(grid, f, b, halo, before, o, after[o])
}

fn fill_block_from<R: Real, T: Scalar, F: Fn([R; D]) -> T, const D: usize>(
    grid: &CartesianGrid<R, D>,
    block: BlockId,
    view: &mut CartesianViewMut<'_, T, D>,
    f: &F,
)
    requires
        grid.valid(),
        block.id() < grid.blocks(),
        old(view).valid(),
        old(view).ext() == grid.tile(),
        forall|x: [R; D]| #[trigger] call_requires(*f, (x,)),
    ensures
        slab_from(
            grid,
            *f,
            block.id(),
            old(view).width(),
            old(view).data@,
            final(view).data@,
        ),
        final(view).extent == old(view).extent,
        final(view).halo == old(view).halo,
        final(final(view).data)@ == final(old(view).data)@,
{
    let ghost ext = view.ext();
    let ghost g = view.width();
    let ghost start = view.data@;
    let ghost slot = final(view.data)@;
    let ghost bid = block.id();
    let lo = [0isize; D];
    let mut hi = [0isize; D];
    let extent = view.interior();
    proof {
        grid.lemma_blocks();
        assert(grid.extent_of(bid) == ext);
        crate::geometry::grid::lemma_extent_fits(ext, g);
    }
    let mut d: usize = 0;
    while d < D
        invariant
            d <= D,
            ext == usizes(extent),
            g >= 0,
            forall|k: int| 0 <= k < D ==> (#[trigger] ext[k]) + 2 * g <= isize::MAX,
            forall|e: int| 0 <= e < d ==> #[trigger] hi[e] == extent[e],
        decreases D - d,
    {
        assert(ext[d as int] + 2 * g <= isize::MAX);
        hi[d] = extent[d] as isize;
        d += 1;
    }
    let ghost l = isizes(lo);
    let mut idx = lo;
    let mut more = true;
    let ghost mut k: int = 0;
    proof {
        assert(isizes(hi) =~= ext);
        assert(minus(ext, l) =~= ext);
        assert forall|e: int| 0 <= e < l.len() implies l[e] <= #[trigger] l[e] < ext[e] by {
            assert(ext[e] > 0);
        }
        assert(in_box(l, l, ext));
        lemma_lin_zero(minus(l, l), ext);
        crate::geometry::index::lemma_volume_positive(ext);
        assert forall|o: int|
            0 <= o < start.len() && in_ext(#[trigger] slab_index(o, ext, g), ext) implies lin(
            slab_index(o, ext, g),
            ext,
        ) >= 0 by {
            crate::geometry::index::lemma_lin_bounds(slab_index(o, ext, g), ext);
        }
    }
    while more
        invariant
            l == isizes(lo),
            ext == isizes(hi),
            l == crate::geometry::index::origin(D as nat),
            minus(ext, l) == ext,
            positive(ext),
            grid.valid(),
            bid == block.id(),
            bid < grid.blocks(),
            ext == grid.tile(),
            ext == view.ext(),
            g == view.width(),
            view.extent == old(view).extent,
            view.halo == old(view).halo,
            view.valid(),
            view.data@.len() == start.len(),
            final(view.data)@ == slot,
            forall|x: [R; D]| #[trigger] call_requires(*f, (x,)),
            0 <= k <= volume(ext),
            more ==> in_box(isizes(idx), l, ext) && rank(isizes(idx), l, ext) == k,
            !more ==> k == volume(ext),
            forall|o: int|
                #![trigger view.data@[o]]
                0 <= o < start.len() ==> if in_ext(slab_index(o, ext, g), ext) && lin(
                    slab_index(o, ext, g),
                    ext,
                ) < k {
                    entry_from(grid, *f, bid, g, start, o, view.data@[o])
                } else {
                    view.data@[o] == start[o]
                },
        decreases volume(ext) - k,
    {
        let ghost c = isizes(idx);
        let ghost at = slab_at(c, ext, g);
        proof {
            lemma_rank(c, l, ext);
            assert(minus(c, l) =~= c);
            assert(in_ext(c, ext)) by {
                assert forall|e: int| 0 <= e < ext.len() implies 0 <= #[trigger] c[e] < ext[e] by {
                    assert(l[e] <= c[e] < ext[e]);
                }
            }
            lemma_interior_in_slab(c, ext, g);
            lemma_slab_at(c, ext, g);
            assert(slab_index(at, ext, g) == c);
        }
        let center = grid.cell_center(block, idx);
        proof {
            lemma_spread(center, |d: int| grid.center_of(bid, c, d));
        }
        let value = f(center);
        let ghost before = view.data@;
        view.set(idx, value);
        proof {
            assert forall|o: int|
                #![trigger view.data@[o]]
                0 <= o < start.len() implies if in_ext(slab_index(o, ext, g), ext) && lin(
                slab_index(o, ext, g),
                ext,
            ) < k + 1 {
                entry_from(grid, *f, bid, g, start, o, view.data@[o])
            } else {
                view.data@[o] == start[o]
            } by {
                let other = slab_index(o, ext, g);
                if o != at {
                    assert(view.data@[o] == before[o]);
                    if in_ext(other, ext) && lin(other, ext) == k {
                        crate::geometry::index::lemma_lin_injective(other, c, ext);
                        lemma_slab_index(o, ext, g);
                    }
                }
            }
            k = k + 1;
        }
        more = next_index(&mut idx, &lo, &hi);
    }
    proof {
        assert forall|o: int| 0 <= o < start.len() implies #[trigger] entry_from(
            grid,
            *f,
            bid,
            g,
            start,
            o,
            view.data@[o],
        ) by {
            let v = view.data@[o];
            if in_ext(slab_index(o, ext, g), ext) {
                crate::geometry::index::lemma_lin_bounds(slab_index(o, ext, g), ext);
            }
        }
    }
}

/// Set one field's interior from a function of the cell-center coordinate: the
/// declarative form of an initial condition.
///
/// Writes interior cells only; ghosts become consistent through the model's ghost
/// fill before the first evaluation, as always.
pub fn fill_from_fn<
    R: Real,
    T: Scalar,
    S: StorageBackend<T>,
    F: Fn([R; D]) -> T,
    const D: usize,
>(grid: &CartesianGrid<R, D>, state: &mut State<T, S>, handle: FieldHandle<T>, f: F)
    requires
        grid.valid(),
        allocated_on::<T, R, CartesianGrid<R, D>, D>(
            old(state).fields(),
            grid,
            old(state).values(),
        ),
        0 <= handle.pos() < old(state).fields().len(),
        forall|x: [R; D]| #[trigger] call_requires(f, (x,)),
    ensures
        final(state).fields() == old(state).fields(),
        allocated_on::<T, R, CartesianGrid<R, D>, D>(
            old(state).fields(),
            grid,
            final(state).values(),
        ),
        exists|slabs: Seq<Seq<T>>|
            #![trigger with_field(old(state).values(), handle.pos(), slabs)]
            slabs.len() == grid.blocks() && final(state).values() == with_field(
                old(state).values(),
                handle.pos(),
                slabs,
            ) && forall|b: int|
                0 <= b < grid.blocks() ==> slab_from(
                    grid,
                    f,
                    b,
                    old(state).fields()[handle.pos()].halo as int,
                    old(state).values()[b].fields[handle.pos()],
                    #[trigger] slabs[b],
                ),
{
    let ghost v = state.values();
    let ghost fields = state.fields();
    let ghost h = handle.pos();
    let ghost halo = fields[h].halo as int;
    let ghost mut slabs: Seq<Seq<T>> = Seq::empty();
    proof {
        grid.lemma_blocks();
    }
    let n = grid.num_blocks();
    let mut b: usize = 0;
    while b < n
        invariant
            b <= n,
            n == grid.blocks(),
            n <= u32::MAX,
            grid.valid(),
            allocated_on::<T, R, CartesianGrid<R, D>, D>(fields, grid, v),
            0 <= h < fields.len(),
            h == handle.pos(),
            halo == fields[h].halo,
            state.fields() == fields,
            state.values().len() == n,
            forall|x: [R; D]| #[trigger] call_requires(f, (x,)),
            slabs.len() == b,
            forall|c: int|
                0 <= c < b ==> slab_from(grid, f, c, halo, v[c].fields[h], #[trigger] slabs[c]),
            forall|c: int|
                0 <= c < b ==> #[trigger] state.values()[c] == with_one(v[c], h, slabs[c]),
            forall|c: int| b <= c < n ==> #[trigger] state.values()[c] == v[c],
        decreases n - b,
    {
        let block = BlockId(b as u32);
        let ghost before = state.values();
        let ghost ext = grid.tile();
        proof {
            assert(before[b as int] == v[b as int]);
            assert(grid.extent_of(b as int) == ext);
            assert(full_block(fields, ext, v[b as int]));
            assert(slab_fits(ext, fields[h].halo as int));
        }
        let mut view = state.view_mut(grid, block, handle);
        fill_block_from(grid, block, &mut view, &f);
        let ghost slab = view.data@;
        proof {
            slabs = slabs.push(slab);
            assert(state.values() == with_slab(before, b as int, h, slab));
            assert forall|c: int| 0 <= c < n && c != b implies #[trigger] state.values()[c]
                == before[c] by {}
        }
        b += 1;
    }
    proof {
        assert(state.values() =~= with_field(v, h, slabs));
        assert forall|c: int| 0 <= c < v.len() implies (#[trigger] slabs[c]).len()
            == v[c].fields[h].len() by {}
        lemma_replaced_allocated::<T, R, CartesianGrid<R, D>, D>(fields, grid, v, h, slabs);
    }
}

} // verus!
