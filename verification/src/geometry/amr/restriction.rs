//! Fine-to-coarse updating: conservative averaging of fine interiors onto the
//! coarse cells beneath them. Mandatory, not cosmetic: without it the coarse
//! solution disperses under a patch and contaminates the very values later used
//! for fine-boundary interpolation.
use vstd::prelude::*;

use crate::engine::exact::{exact, lemma_associates, lemma_power_positive, power, powers_exact};
use crate::engine::state::{BlockValues, FieldHandle, State};
use crate::engine::storage::{Real, StorageBackend};
use crate::geometry::amr::cluster::CellBox;
use crate::geometry::amr::grid::{aligned, AmrGrid};
use crate::geometry::amr::intergrid::{
    field_fits, lemma_level_slice, lemma_local_interior, lemma_no_owner, lemma_owner, owner_at,
    patch_holds, read_cell, slabs_fit, value_in,
};
use crate::geometry::amr::walk::{lemma_has_is_in_box, nonempty};
use crate::geometry::grid::{
    ghosted, lemma_extent_fits, lemma_interior_in_slab, lemma_slab_at, lemma_slab_index, linearize,
    slab_at, slab_fits, slab_index, BlockId, Grid,
};
use crate::geometry::halo::{field_slabs, with_field};
use crate::geometry::index::{
    box_cells, in_box, in_ext, ints, isizes, lemma_rank, minus, next_cell, plus, rank, volume,
};

verus! {

/// Lower corner of the fine cells that refine coarse cell `c`.
pub open spec fn first_child(c: Seq<int>, r: int) -> Seq<int> {
    Seq::new(c.len(), |d: int| c[d] * r)
}

/// Upper corner of the fine cells that refine coarse cell `c`.
pub open spec fn end_child(c: Seq<int>, r: int) -> Seq<int> {
    Seq::new(c.len(), |d: int| c[d] * r + r)
}

/// Sum of the first `k` children of a coarse cell, first axis fastest.
pub open spec fn child_sum<R: Real, T: Real, const D: usize>(
    grid: &AmrGrid<R, D>,
    g: int,
    v: Seq<Seq<T>>,
    level: int,
    c: Seq<int>,
    r: int,
    k: nat,
) -> T
    decreases k,
{
    if k == 0 {
        T::zero_spec()
    } else {
        let x = box_cells(first_child(c, r), end_child(c, r))[k - 1];
        child_sum(grid, g, v, level, c, r, (k - 1) as nat).add_spec(
            value_in(grid, g, v, owner_at(grid, level, x)->0, x),
        )
    }
}

/// The reciprocal of the number of children of a coarse cell.
pub open spec fn child_share<T: Real, const D: usize>(r: int) -> T {
    T::one_spec().div_spec(T::from_u64_spec(r as u64).powi_spec(D as i32))
}

/// Mean of the children of a coarse cell.
pub open spec fn child_mean<R: Real, T: Real, const D: usize>(
    grid: &AmrGrid<R, D>,
    g: int,
    v: Seq<Seq<T>>,
    level: int,
    c: Seq<int>,
) -> T {
    let r = grid.ratio_list()[level - 1] as int;
    child_sum(
        grid,
        g,
        v,
        level,
        c,
        r,
        volume(minus(end_child(c, r), first_child(c, r))) as nat,
    ).mul_spec(child_share::<T, D>(r))
}

/// Coarse cell `c` lies under patch `p` of the level.
pub open spec fn lies_under<R: Real, const D: usize>(
    grid: &AmrGrid<R, D>,
    p: int,
    level: int,
    c: Seq<int>,
) -> bool {
    let r = grid.ratio_list()[level - 1] as int;
    &&& 0 <= p < grid.patch_list().len()
    &&& grid.patch_list()[p].level == level
    &&& in_box(c, under_lo(grid.patch_list()[p].bx, r), under_hi(grid.patch_list()[p].bx, r))
}

/// Lower corner of a box coarsened by `r`.
pub open spec fn under_lo<const D: usize>(bx: CellBox<D>, r: int) -> Seq<int> {
    Seq::new(D as nat, |d: int| bx.lo[d] as int / r)
}

/// Upper corner of a box coarsened by `r`; exact for aligned boxes.
pub open spec fn under_hi<const D: usize>(bx: CellBox<D>, r: int) -> Seq<int> {
    Seq::new(D as nat, |d: int| bx.hi[d] as int / r)
}

/// Some patch of the level lies over coarse cell `c`.
pub open spec fn refined_at<R: Real, const D: usize>(
    grid: &AmrGrid<R, D>,
    level: int,
    c: Seq<int>,
) -> bool {
    exists|p: int| lies_under(grid, p, level, c)
}

/// The field after restricting a level onto the one below: interior cells under
/// a patch of the level get the mean of their children, every other entry is
/// kept.
pub open spec fn restricted<R: Real, T: Real, const D: usize>(
    grid: &AmrGrid<R, D>,
    g: int,
    v: Seq<Seq<T>>,
    level: int,
) -> Seq<Seq<T>> {
    Seq::new(
        v.len(),
        |b: int|
            Seq::new(
                v[b].len(),
                |k: int|
                    {
                        let idx = slab_index(k, grid.extent_of(b), g);
                        let c = plus(idx, ints(grid.patch_list()[b].bx.lo));
                        if grid.level_of(b) == level - 1 && in_ext(idx, grid.extent_of(b))
                            && refined_at(grid, level, c) {
                            child_mean(grid, g, v, level, c)
                        } else {
                            v[b][k]
                        }
                    },
            ),
    )
}

/// The field after restricting every level above `to`, finest first.
pub open spec fn restricted_down<R: Real, T: Real, const D: usize>(
    grid: &AmrGrid<R, D>,
    g: int,
    v: Seq<Seq<T>>,
    to: nat,
    levels: nat,
) -> Seq<Seq<T>>
    decreases levels - to,
{
    if to + 1 >= levels {
        v
    } else {
        restricted(
            grid,
            g,
            restricted_down(grid, g, v, (to + 1) as nat, levels),
            (to + 1) as int,
        )
    }
}

/// Cells restricted so far: under a patch before `n`, or among the first `m`
/// cells under patch `n`.
spec fn reached<R: Real, const D: usize>(
    grid: &AmrGrid<R, D>,
    level: int,
    n: int,
    m: int,
    c: Seq<int>,
) -> bool {
    exists|p: int| #[trigger] lies_under(grid, p, level, c) && reached_in(grid, p, level, n, m, c)
}

spec fn reached_in<R: Real, const D: usize>(
    grid: &AmrGrid<R, D>,
    p: int,
    level: int,
    n: int,
    m: int,
    c: Seq<int>,
) -> bool {
    let r = grid.ratio_list()[level - 1] as int;
    let bx = grid.patch_list()[p].bx;
    p < n || (p == n && rank(c, under_lo(bx, r), under_hi(bx, r)) < m)
}

spec fn restricting<R: Real, T: Real, const D: usize>(
    grid: &AmrGrid<R, D>,
    g: int,
    v: Seq<Seq<T>>,
    level: int,
    n: int,
    m: int,
) -> Seq<Seq<T>> {
    Seq::new(
        v.len(),
        |b: int|
            Seq::new(
                v[b].len(),
                |k: int|
                    {
                        let idx = slab_index(k, grid.extent_of(b), g);
                        let c = plus(idx, ints(grid.patch_list()[b].bx.lo));
                        if grid.level_of(b) == level - 1 && in_ext(idx, grid.extent_of(b))
                            && reached(grid, level, n, m, c) {
                            child_mean(grid, g, v, level, c)
                        } else {
                            v[b][k]
                        }
                    },
            ),
    )
}

/// The children of a cell under an aligned patch lie in the patch.
proof fn lemma_children<R: Real, const D: usize>(
    grid: &AmrGrid<R, D>,
    p: int,
    level: int,
    c: Seq<int>,
    x: Seq<int>,
)
    requires
        grid.sound(),
        1 <= level < grid.levels(),
        lies_under(grid, p, level, c),
        ({
            let r = grid.ratio_list()[level - 1] as int;
            in_box(x, first_child(c, r), end_child(c, r))
        }),
    ensures
        patch_holds(grid, p, level, x),
        owner_at(grid, level, x) == Some(p),
{
    let r = grid.ratio_list()[level - 1] as int;
    let bx = grid.patch_list()[p].bx;
    grid.lemma_nested(p);
    assert forall|d: int| 0 <= d < D implies ints(bx.lo)[d] <= #[trigger] x[d] < ints(bx.hi)[d] by {
        lemma_under_axis(bx, r, c, d);
        assert(first_child(c, r)[d] <= x[d] < end_child(c, r)[d]);
    }
    lemma_owner(grid, p, level, x);
}

proof fn lemma_under_axis<const D: usize>(bx: CellBox<D>, r: int, c: Seq<int>, d: int)
    requires
        0 <= d < D,
        r >= 2,
        aligned(bx, r),
        in_box(c, under_lo(bx, r), under_hi(bx, r)),
    ensures
        bx.lo[d] <= c[d] * r,
        c[d] * r + r <= bx.hi[d],
{
    assert(under_lo(bx, r)[d] <= c[d] < under_hi(bx, r)[d]);
    let lo = bx.lo[d] as int;
    let hi = bx.hi[d] as int;
    vstd::arithmetic::div_mod::lemma_fundamental_div_mod(lo, r);
    vstd::arithmetic::div_mod::lemma_fundamental_div_mod(hi, r);
    assert(bx.lo[d] as int % r == 0 && bx.hi[d] as int % r == 0);
    let a = lo / r;
    let b = hi / r;
    let x = c[d];
    assert(lo <= x * r && x * r + r <= hi) by (nonlinear_arith)
        requires
            lo == r * a,
            hi == r * b,
            a <= x < b,
            r >= 2,
    ;
}

/// Fine values are all that restriction reads.
proof fn lemma_child_sum_same<R: Real, T: Real, const D: usize>(
    grid: &AmrGrid<R, D>,
    g: int,
    v: Seq<Seq<T>>,
    w: Seq<Seq<T>>,
    level: int,
    p: int,
    c: Seq<int>,
    k: nat,
)
    requires
        grid.sound(),
        1 <= level < grid.levels(),
        lies_under(grid, p, level, c),
        v[p] == w[p],
        ({
            let r = grid.ratio_list()[level - 1] as int;
            k <= volume(minus(end_child(c, r), first_child(c, r)))
        }),
    ensures
        ({
            let r = grid.ratio_list()[level - 1] as int;
            child_sum(grid, g, v, level, c, r, k) == child_sum(grid, g, w, level, c, r, k)
        }),
    decreases k,
{
    let r = grid.ratio_list()[level - 1] as int;
    if k > 0 {
        lemma_child_sum_same(grid, g, v, w, level, p, c, (k - 1) as nat);
        lemma_child(grid, p, level, c, k - 1);
    }
}

/// The mean of the children is determined by the fine patch.
pub proof fn lemma_child_mean_same<R: Real, T: Real, const D: usize>(
    grid: &AmrGrid<R, D>,
    g: int,
    v: Seq<Seq<T>>,
    w: Seq<Seq<T>>,
    level: int,
    p: int,
    c: Seq<int>,
)
    requires
        grid.sound(),
        1 <= level < grid.levels(),
        lies_under(grid, p, level, c),
        v[p] == w[p],
    ensures
        child_mean(grid, g, v, level, c) == child_mean(grid, g, w, level, c),
{
    let r = grid.ratio_list()[level - 1] as int;
    let ext = minus(end_child(c, r), first_child(c, r));
    assert forall|d: int| 0 <= d < ext.len() implies 0 < #[trigger] ext[d] by {}
    crate::geometry::index::lemma_volume_positive(ext);
    lemma_child_sum_same(grid, g, v, w, level, p, c, volume(ext) as nat);
}

/// The `j`-th child of a cell under a patch.
pub proof fn lemma_child<R: Real, const D: usize>(
    grid: &AmrGrid<R, D>,
    p: int,
    level: int,
    c: Seq<int>,
    j: int,
)
    requires
        grid.sound(),
        1 <= level < grid.levels(),
        lies_under(grid, p, level, c),
        ({
            let r = grid.ratio_list()[level - 1] as int;
            0 <= j < volume(minus(end_child(c, r), first_child(c, r)))
        }),
    ensures
        ({
            let r = grid.ratio_list()[level - 1] as int;
            owner_at(grid, level, box_cells(first_child(c, r), end_child(c, r))[j]) == Some(p)
        }),
{
    let r = grid.ratio_list()[level - 1] as int;
    let lo = first_child(c, r);
    let hi = end_child(c, r);
    let ext = minus(hi, lo);
    assert forall|d: int| 0 <= d < ext.len() implies 0 < #[trigger] ext[d] by {}
    crate::geometry::index::lemma_lin_delin(j, ext);
    let o = crate::geometry::index::delin(j, ext);
    let x = box_cells(lo, hi)[j];
    assert forall|d: int| 0 <= d < lo.len() implies !(#[trigger] lo[d] >= hi[d]) by {
        assert(ext[d] > 0);
    }
    assert(x == plus(lo, o));
    assert(in_box(x, lo, hi)) by {
        assert forall|d: int| 0 <= d < lo.len() implies lo[d] <= #[trigger] x[d] < hi[d] by {
            assert(0 <= o[d] < ext[d]);
        }
    }
    lemma_children(grid, p, level, c, x);
}

/// Mean of the children of a coarse cell under patch `fine`.
fn mean_children<R: Real, T: Real, S: StorageBackend<T>, const D: usize>(
    grid: &AmrGrid<R, D>,
    state: &State<T, S>,
    handle: FieldHandle<T>,
    level: u8,
    fine: BlockId,
    c: [i64; D],
    r: i64,
    inv: T,
) -> (mean: T)
    requires
        grid.sound(),
        1 <= level < grid.levels(),
        field_fits(grid, state, handle.pos()),
        lies_under(grid, fine.id(), level as int, ints(c)),
        r == grid.ratio_list()[level - 1],
        inv == child_share::<T, D>(r as int),
    ensures
        mean == child_mean(
            grid,
            state.fields()[handle.pos()].halo as int,
            field_slabs(state.values(), handle.pos()),
            level as int,
            ints(c),
        ),
{
    let ghost g = state.fields()[handle.pos()].halo as int;
    let ghost v = field_slabs(state.values(), handle.pos());
    let ghost p = fine.id();
    let ghost bx = grid.patch_list()[p].bx;
    let ghost cs = ints(c);
    proof {
        grid.lemma_nested(p);
    }
    let mut lo = [0i64; D];
    let mut hi = [0i64; D];
    let mut d: usize = 0;
    while d < D
        invariant
            d <= D,
            r >= 2,
            aligned(bx, r as int),
            in_box(cs, under_lo(bx, r as int), under_hi(bx, r as int)),
            cs == ints(c),
            forall|e: int| 0 <= e < d ==> #[trigger] lo[e] == c[e] * r,
            forall|e: int| 0 <= e < d ==> #[trigger] hi[e] == c[e] * r + r,
        decreases D - d,
    {
        proof {
            lemma_under_axis(bx, r as int, cs, d as int);
            assert(cs[d as int] == c[d as int]);
        }
        lo[d] = c[d] * r;
        hi[d] = c[d] * r + r;
        d += 1;
    }
    let ghost l = first_child(cs, r as int);
    let ghost h = end_child(cs, r as int);
    let mut x = lo;
    let mut sum = T::zero();
    let mut more = true;
    let ghost mut k: nat = 0;
    proof {
        assert(ints(lo) =~= l);
        assert(ints(hi) =~= h);
        assert(in_box(ints(x), l, h)) by {
            assert forall|e: int| 0 <= e < D implies l[e] <= #[trigger] ints(x)[e] < h[e] by {}
        }
        lemma_rank(ints(x), l, h);
        crate::geometry::index::lemma_lin_zero(minus(l, l), minus(h, l));
    }
    while more
        invariant
            D > 0,
            grid.sound(),
            1 <= level < grid.levels(),
            field_fits(grid, state, handle.pos()),
            g == state.fields()[handle.pos()].halo,
            v == field_slabs(state.values(), handle.pos()),
            p == fine.id(),
            cs == ints(c),
            r == grid.ratio_list()[level - 1],
            lies_under(grid, p, level as int, cs),
            l == first_child(cs, r as int),
            h == end_child(cs, r as int),
            l == ints(lo),
            h == ints(hi),
            sum == child_sum(grid, g, v, level as int, cs, r as int, k),
            0 <= k <= volume(minus(h, l)),
            more ==> in_box(ints(x), l, h) && rank(ints(x), l, h) == k,
            !more ==> k == volume(minus(h, l)),
        decreases volume(minus(h, l)) - k,
    {
        proof {
            lemma_rank(ints(x), l, h);
            lemma_children(grid, p, level as int, cs, ints(x));
            lemma_has_is_in_box(grid.patch_list()[p].bx, x);
        }
        sum = sum.add(read_cell(grid, state, handle, fine, x));
        proof {
            k = k + 1;
        }
        more = next_cell(&mut x, &lo, &hi);
    }
    sum.mul(inv)
}

/// A cell lies under at most one patch of a level.
proof fn lemma_under_unique<R: Real, const D: usize>(
    grid: &AmrGrid<R, D>,
    p: int,
    q: int,
    level: int,
    c: Seq<int>,
)
    requires
        grid.sound(),
        1 <= level < grid.levels(),
        lies_under(grid, p, level, c),
        lies_under(grid, q, level, c),
    ensures
        p == q,
{
    let r = grid.ratio_list()[level - 1] as int;
    let x = first_child(c, r);
    assert(in_box(x, first_child(c, r), end_child(c, r))) by {
        assert forall|d: int| 0 <= d < x.len() implies first_child(c, r)[d] <= #[trigger] x[d]
            < end_child(c, r)[d] by {}
    }
    lemma_children(grid, p, level, c, x);
    lemma_children(grid, q, level, c, x);
}

/// Restricting the next cell reaches that cell and no other.
proof fn lemma_reached_step<R: Real, const D: usize>(
    grid: &AmrGrid<R, D>,
    level: int,
    n: int,
    c: Seq<int>,
    e: Seq<int>,
)
    requires
        grid.sound(),
        1 <= level < grid.levels(),
        lies_under(grid, n, level, c),
    ensures
        ({
            let r = grid.ratio_list()[level - 1] as int;
            let bx = grid.patch_list()[n].bx;
            let m = rank(c, under_lo(bx, r), under_hi(bx, r));
            &&& reached(grid, level, n, m + 1, e) <==> reached(grid, level, n, m, e) || e == c
            &&& !reached(grid, level, n, m, c)
        }),
{
    let r = grid.ratio_list()[level - 1] as int;
    let bx = grid.patch_list()[n].bx;
    let lo = under_lo(bx, r);
    let hi = under_hi(bx, r);
    let m = rank(c, lo, hi);
    lemma_rank(c, lo, hi);
    if reached(grid, level, n, m + 1, e) {
        let p = choose|p: int| #[trigger]
            lies_under(grid, p, level, e) && reached_in(grid, p, level, n, m + 1, e);
        if !reached_in(grid, p, level, n, m, e) {
            lemma_rank(e, lo, hi);
            assert(e == c);
        }
    }
    if reached(grid, level, n, m, e) {
        let p = choose|p: int| #[trigger]
            lies_under(grid, p, level, e) && reached_in(grid, p, level, n, m, e);
        assert(reached_in(grid, p, level, n, m + 1, e));
    }
    if e == c {
        assert(reached_in(grid, n, level, n, m + 1, c));
    }
    if reached(grid, level, n, m, c) {
        let p = choose|p: int| #[trigger]
            lies_under(grid, p, level, c) && reached_in(grid, p, level, n, m, c);
        lemma_under_unique(grid, p, n, level, c);
    }
}

/// The entry that holds cell `c` of patch `b`, and no other, stands for it.
proof fn lemma_entry_of_cell<R: Real, const D: usize>(
    grid: &AmrGrid<R, D>,
    g: int,
    level: int,
    c: Seq<int>,
    b: int,
    k: int,
)
    requires
        grid.sound(),
        g >= 0,
        c.len() == D,
        0 <= b < grid.patch_list().len(),
        0 <= k < volume(ghosted(grid.extent_of(b), g)),
    ensures
        ({
            let ext = grid.extent_of(b);
            let i = slab_index(k, ext, g);
            let bx = grid.patch_list()[b].bx;
            (grid.level_of(b) == level && in_ext(i, ext) && plus(i, ints(bx.lo)) == c) <==> (
            owner_at(grid, level, c) == Some(b) && k == slab_at(minus(c, ints(bx.lo)), ext, g))
        }),
{
    grid.lemma_patch(b);
    let ext = grid.extent_of(b);
    let bx = grid.patch_list()[b].bx;
    let i = slab_index(k, ext, g);
    lemma_slab_index(k, ext, g);
    let home = minus(c, ints(bx.lo));
    if owner_at(grid, level, c) == Some(b) && k == slab_at(home, ext, g) {
        assert(patch_holds(grid, b, level, c));
        lemma_local_interior(grid, b, level, c);
        lemma_interior_in_slab(home, ext, g);
        lemma_slab_at(home, ext, g);
        assert(plus(home, ints(bx.lo)) =~= c);
    }
    if grid.level_of(b) == level && in_ext(i, ext) && plus(i, ints(bx.lo)) == c {
        assert(in_box(c, ints(bx.lo), ints(bx.hi))) by {
            assert forall|d: int| 0 <= d < D implies ints(bx.lo)[d] <= #[trigger] c[d] < ints(
                bx.hi,
            )[d] by {
                assert(0 <= i[d] < ext[d]);
                assert(bx.width(d) == bx.hi[d] - bx.lo[d]);
                assert(c[d] == plus(i, ints(bx.lo))[d]);
            }
        }
        assert(patch_holds(grid, b, level, c));
        lemma_owner(grid, b, level, c);
        assert(i =~= home);
    }
}

/// What restricting cell `c` does to one entry.
proof fn lemma_restrict_entry<R: Real, T: Real, const D: usize>(
    grid: &AmrGrid<R, D>,
    g: int,
    v: Seq<Seq<T>>,
    level: int,
    n: int,
    c: Seq<int>,
    b: int,
    k: int,
)
    requires
        grid.sound(),
        1 <= level < grid.levels(),
        g >= 0,
        slabs_fit(grid, g, v),
        lies_under(grid, n, level, c),
        0 <= b < v.len(),
        0 <= k < v[b].len(),
    ensures
        ({
            let r = grid.ratio_list()[level - 1] as int;
            let bx = grid.patch_list()[n].bx;
            let m = rank(c, under_lo(bx, r), under_hi(bx, r));
            restricting(grid, g, v, level, n, m + 1)[b][k] == (if owner_at(grid, level - 1, c)
                == Some(b) && k == slab_at(
                minus(c, ints(grid.patch_list()[b].bx.lo)),
                grid.extent_of(b),
                g,
            ) {
                child_mean(grid, g, v, level, c)
            } else {
                restricting(grid, g, v, level, n, m)[b][k]
            })
        }),
{
    assert(v[b].len() == volume(ghosted(grid.extent_of(b), g)));
    let e = plus(slab_index(k, grid.extent_of(b), g), ints(grid.patch_list()[b].bx.lo));
    lemma_reached_step(grid, level, n, c, e);
    lemma_entry_of_cell(grid, g, level - 1, c, b, k);
}

/// Two fields that differ in one entry.
proof fn lemma_one_entry<T>(cur: Seq<Seq<T>>, next: Seq<Seq<T>>, b: int, at: int, value: T)
    requires
        cur.len() == next.len(),
        0 <= b < cur.len(),
        0 <= at < cur[b].len(),
        forall|q: int| 0 <= q < cur.len() ==> (#[trigger] next[q]).len() == cur[q].len(),
        forall|q: int, k: int|
            0 <= q < cur.len() && 0 <= k < cur[q].len() ==> #[trigger] next[q][k] == (if q == b && k
                == at {
                value
            } else {
                cur[q][k]
            }),
    ensures
        next == cur.update(b, cur[b].update(at, value)),
{
    let want = cur.update(b, cur[b].update(at, value));
    assert forall|q: int| 0 <= q < cur.len() implies #[trigger] next[q] == want[q] by {
        assert(next[q].len() == cur[q].len());
        assert(next[q] =~= want[q]);
    }
    assert(next =~= want);
}

/// Restricting one cell writes its owner's entry and nothing else.
proof fn lemma_restrict_step<R: Real, T: Real, const D: usize>(
    grid: &AmrGrid<R, D>,
    g: int,
    v: Seq<Seq<T>>,
    level: int,
    n: int,
    c: Seq<int>,
)
    requires
        grid.sound(),
        1 <= level < grid.levels(),
        g >= 0,
        slabs_fit(grid, g, v),
        lies_under(grid, n, level, c),
    ensures
        ({
            let r = grid.ratio_list()[level - 1] as int;
            let bx = grid.patch_list()[n].bx;
            let m = rank(c, under_lo(bx, r), under_hi(bx, r));
            let cur = restricting(grid, g, v, level, n, m);
            let next = restricting(grid, g, v, level, n, m + 1);
            match owner_at(grid, level - 1, c) {
                None => next == cur,
                Some(b) => {
                    let at = slab_at(
                        minus(c, ints(grid.patch_list()[b].bx.lo)),
                        grid.extent_of(b),
                        g,
                    );
                    next == cur.update(b, cur[b].update(at, child_mean(grid, g, v, level, c)))
                },
            }
        }),
{
    let r = grid.ratio_list()[level - 1] as int;
    let bx = grid.patch_list()[n].bx;
    let m = rank(c, under_lo(bx, r), under_hi(bx, r));
    let cur = restricting(grid, g, v, level, n, m);
    let next = restricting(grid, g, v, level, n, m + 1);
    let owner = owner_at(grid, level - 1, c);
    assert forall|b: int, k: int|
        0 <= b < v.len() && 0 <= k < v[b].len() implies #[trigger] next[b][k] == (if owner == Some(b)
        && k == slab_at(minus(c, ints(grid.patch_list()[b].bx.lo)), grid.extent_of(b), g) {
        child_mean(grid, g, v, level, c)
    } else {
        cur[b][k]
    }) by {
        lemma_restrict_entry(grid, g, v, level, n, c, b, k);
    }
    match owner {
        None => {
            assert forall|b: int| 0 <= b < v.len() implies #[trigger] next[b] == cur[b] by {
                assert(next[b] =~= cur[b]);
            }
            assert(next =~= cur);
        },
        Some(b) => {
            let at = slab_at(minus(c, ints(grid.patch_list()[b].bx.lo)), grid.extent_of(b), g);
            let mean = child_mean(grid, g, v, level, c);
            let home = minus(c, ints(grid.patch_list()[b].bx.lo));
            assert(patch_holds(grid, b, level - 1, c));
            lemma_local_interior(grid, b, level - 1, c);
            lemma_interior_in_slab(home, grid.extent_of(b), g);
            lemma_slab_at(home, grid.extent_of(b), g);
            assert(v[b].len() == volume(ghosted(grid.extent_of(b), g)));
            lemma_one_entry(cur, next, b, at, mean);
        },
    }
}

/// Restriction in progress leaves the fine patches, and every slab's length,
/// alone.
proof fn lemma_restricting<R: Real, T: Real, const D: usize>(
    grid: &AmrGrid<R, D>,
    g: int,
    v: Seq<Seq<T>>,
    level: int,
    n: int,
    m: int,
)
    requires
        slabs_fit(grid, g, v),
    ensures
        slabs_fit(grid, g, restricting(grid, g, v, level, n, m)),
        forall|p: int|
            0 <= p < v.len() && grid.level_of(p) == level ==> #[trigger] restricting(
                grid,
                g,
                v,
                level,
                n,
                m,
            )[p] == v[p],
{
    let w = restricting(grid, g, v, level, n, m);
    assert forall|p: int| 0 <= p < w.len() implies (#[trigger] w[p]).len() == volume(
        ghosted(grid.extent_of(p), g),
    ) by {
        assert(v[p].len() == volume(ghosted(grid.extent_of(p), g)));
    }
    assert forall|p: int| 0 <= p < v.len() && grid.level_of(p) == level implies #[trigger] w[p]
        == v[p] by {
        assert(w[p] =~= v[p]);
    }
}

/// Write one cell of the patch that holds it.
fn write_cell<R: Real, T: Real, S: StorageBackend<T>, const D: usize>(
    grid: &AmrGrid<R, D>,
    state: &mut State<T, S>,
    handle: FieldHandle<T>,
    block: BlockId,
    cell: [i64; D],
    value: T,
)
    requires
        grid.sound(),
        field_fits(grid, old(state), handle.pos()),
        block.id() < grid.patch_list().len(),
        grid.patch_list()[block.id()].bx.has(cell),
    ensures
        final(state).fields() == old(state).fields(),
        ({
            let g = old(state).fields()[handle.pos()].halo as int;
            let v = field_slabs(old(state).values(), handle.pos());
            let b = block.id();
            let at = slab_at(
                minus(ints(cell), ints(grid.patch_list()[b].bx.lo)),
                grid.extent_of(b),
                g,
            );
            final(state).values() =~~= with_field(
                old(state).values(),
                handle.pos(),
                v.update(b, v[b].update(at, value)),
            )
        }),
{
    let ghost b = block.id();
    let ghost f = handle.pos();
    let ghost v = field_slabs(state.values(), f);
    let ghost ext = grid.extent_of(b);
    let width = state.layout().ghost(handle.index());
    let bx = grid.patch(block).bx;
    let extent = grid.block_extent(block);
    proof {
        grid.lemma_patch(b);
        assert(slab_fits(ext, width as int));
        assert(v[b].len() == volume(ghosted(ext, width as int)));
        lemma_extent_fits(ext, width as int);
    }
    proof {
        assert forall|e: int| 0 <= e < D implies (#[trigger] bx.hi[e]) - bx.lo[e] <= isize::MAX by {
            assert(ext[e] + 2 * width <= isize::MAX);
            assert(bx.width(e) == bx.hi[e] - bx.lo[e]);
        }
    }
    let local = local_index(bx, cell);
    proof {
        let i = isizes(local);
        assert(i =~= minus(ints(cell), ints(bx.lo)));
        assert(in_ext(i, ext)) by {
            assert forall|e: int| 0 <= e < D implies 0 <= #[trigger] i[e] < ext[e] by {
                assert(bx.lo[e] <= cell[e] < bx.hi[e]);
                assert(bx.width(e) == bx.hi[e] - bx.lo[e]);
            }
        }
        lemma_interior_in_slab(i, ext, width as int);
        lemma_slab_at(i, ext, width as int);
    }
    let at = linearize(local, extent, width);
    let slab = state.slab_mut(block, handle);
    slab[at] = value;
}

/// A cell relative to the box that holds it.
fn local_index<const D: usize>(bx: CellBox<D>, cell: [i64; D]) -> (local: [isize; D])
    requires
        bx.has(cell),
        forall|e: int| 0 <= e < D ==> (#[trigger] bx.hi[e]) - bx.lo[e] <= isize::MAX,
    ensures
        forall|e: int| 0 <= e < D ==> #[trigger] local[e] == cell[e] - bx.lo[e],
{
    let mut local = [0isize; D];
    let mut d: usize = 0;
    while d < D
        invariant
            d <= D,
            bx.has(cell),
            forall|e: int| 0 <= e < D ==> (#[trigger] bx.hi[e]) - bx.lo[e] <= isize::MAX,
            forall|e: int| 0 <= e < d ==> #[trigger] local[e] == cell[e] - bx.lo[e],
        decreases D - d,
    {
        assert(bx.lo[d as int] <= cell[d as int] < bx.hi[d as int]);
        assert(bx.hi[d as int] - bx.lo[d as int] <= isize::MAX);
        let offset: i64 = cell[d] - bx.lo[d];
        local[d] = offset as isize;
        d += 1;
    }
    local
}

/// Having restricted every cell under patch `n` is having restricted the patch.
proof fn lemma_patch_restricted<R: Real, T: Real, const D: usize>(
    grid: &AmrGrid<R, D>,
    g: int,
    v: Seq<Seq<T>>,
    level: int,
    n: int,
)
    ensures
        ({
            let r = grid.ratio_list()[level - 1] as int;
            let bx = grid.patch_list()[n].bx;
            restricting(
                grid,
                g,
                v,
                level,
                n,
                volume(minus(under_hi(bx, r), under_lo(bx, r))),
            ) == restricting(grid, g, v, level, n + 1, 0)
        }),
{
    let r = grid.ratio_list()[level - 1] as int;
    let bx = grid.patch_list()[n].bx;
    let m = volume(minus(under_hi(bx, r), under_lo(bx, r)));
    assert forall|c: Seq<int>| #[trigger]
        reached(grid, level, n, m, c) == reached(grid, level, n + 1, 0, c) by {
        if reached(grid, level, n, m, c) {
            let p = choose|p: int| #[trigger]
                lies_under(grid, p, level, c) && reached_in(grid, p, level, n, m, c);
            assert(reached_in(grid, p, level, n + 1, 0, c));
        }
        if reached(grid, level, n + 1, 0, c) {
            let p = choose|p: int| #[trigger]
                lies_under(grid, p, level, c) && reached_in(grid, p, level, n + 1, 0, c);
            let q = grid.patch_list()[p].bx;
            lemma_rank(c, under_lo(q, r), under_hi(q, r));
            assert(reached_in(grid, p, level, n, m, c));
        }
    }
    let a = restricting(grid, g, v, level, n, m);
    let b = restricting(grid, g, v, level, n + 1, 0);
    assert forall|q: int| 0 <= q < v.len() implies #[trigger] a[q] == b[q] by {
        assert(a[q] =~= b[q]);
    }
    assert(a =~= b);
}

/// Corners of the coarse box under a patch.
fn under_box<const D: usize>(bx: &CellBox<D>, r: i64) -> (u: CellBox<D>)
    requires
        r >= 2,
        aligned(*bx, r as int),
        nonempty(*bx),
        forall|d: int| 0 <= d < D ==> 0 <= #[trigger] bx.lo[d],
    ensures
        ints(u.lo) == under_lo(*bx, r as int),
        ints(u.hi) == under_hi(*bx, r as int),
        nonempty(u),
{
    let mut lo = [0i64; D];
    let mut hi = [0i64; D];
    let mut d: usize = 0;
    while d < D
        invariant
            d <= D,
            r >= 2,
            aligned(*bx, r as int),
            nonempty(*bx),
            forall|e: int| 0 <= e < D ==> 0 <= #[trigger] bx.lo[e],
            forall|e: int| 0 <= e < d ==> #[trigger] lo[e] == bx.lo[e] as int / r as int,
            forall|e: int| 0 <= e < d ==> #[trigger] hi[e] == bx.hi[e] as int / r as int,
            forall|e: int| 0 <= e < d ==> (#[trigger] lo[e]) < hi[e],
        decreases D - d,
    {
        proof {
            let a = bx.lo[d as int] as int;
            let b = bx.hi[d as int] as int;
            let ri = r as int;
            assert(bx.lo[d as int] as int % ri == 0 && bx.hi[d as int] as int % ri == 0);
            vstd::arithmetic::div_mod::lemma_fundamental_div_mod(a, ri);
            vstd::arithmetic::div_mod::lemma_fundamental_div_mod(b, ri);
            let qa = a / ri;
            let qb = b / ri;
            assert(qa < qb) by (nonlinear_arith)
                requires
                    a == ri * qa,
                    b == ri * qb,
                    a < b,
                    ri >= 2,
            ;
        }
        lo[d] = bx.lo[d] / r;
        hi[d] = bx.hi[d] / r;
        d += 1;
    }
    proof {
        assert(ints(lo) =~= under_lo(*bx, r as int));
        assert(ints(hi) =~= under_hi(*bx, r as int));
    }
    CellBox { lo, hi }
}

/// Restrict one coarse cell under patch `fine`.
fn restrict_cell<R: Real, T: Real, S: StorageBackend<T>, const D: usize>(
    grid: &AmrGrid<R, D>,
    state: &mut State<T, S>,
    handle: FieldHandle<T>,
    level: u8,
    fine: BlockId,
    c: [i64; D],
    r: i64,
    inv: T,
)
    requires
        grid.sound(),
        1 <= level < grid.levels(),
        field_fits(grid, old(state), handle.pos()),
        lies_under(grid, fine.id(), level as int, ints(c)),
        r == grid.ratio_list()[level - 1],
        inv == child_share::<T, D>(r as int),
    ensures
        final(state).fields() == old(state).fields(),
        ({
            let g = old(state).fields()[handle.pos()].halo as int;
            let v = field_slabs(old(state).values(), handle.pos());
            let mean = child_mean(grid, g, v, level as int, ints(c));
            match owner_at(grid, level - 1, ints(c)) {
                None => final(state).values() == old(state).values(),
                Some(b) => {
                    let at = slab_at(
                        minus(ints(c), ints(grid.patch_list()[b].bx.lo)),
                        grid.extent_of(b),
                        g,
                    );
                    final(state).values() == with_field(
                        old(state).values(),
                        handle.pos(),
                        v.update(b, v[b].update(at, mean)),
                    )
                },
            }
        }),
{
    let mean = mean_children(grid, &*state, handle, level, fine, c, r, inv);
    match grid.find_patch(level - 1, c) {
        Some(coarse) => {
            proof {
                lemma_has_is_in_box(grid.patch_list()[coarse.id()].bx, c);
                lemma_owner(grid, coarse.id(), level - 1, ints(c));
            }
            write_cell(grid, state, handle, coarse, c, mean);
        },
        None => {
            proof {
                lemma_no_owner(grid, level - 1, c);
            }
        },
    }
}

/// Restrict the cells under patch `fine`.
fn restrict_patch<R: Real, T: Real, S: StorageBackend<T>, const D: usize>(
    grid: &AmrGrid<R, D>,
    state: &mut State<T, S>,
    handle: FieldHandle<T>,
    level: u8,
    fine: BlockId,
    r: i64,
    inv: T,
    Ghost(all): Ghost<Seq<BlockValues<T>>>,
)
    requires
        grid.sound(),
        1 <= level < grid.levels(),
        0 <= handle.pos() < old(state).fields().len(),
        fine.id() < grid.patch_list().len(),
        grid.patch_list()[fine.id()].level == level,
        r == grid.ratio_list()[level - 1],
        inv == child_share::<T, D>(r as int),
        slabs_fit(
            grid,
            old(state).fields()[handle.pos()].halo as int,
            field_slabs(all, handle.pos()),
        ),
        forall|b: int| 0 <= b < all.len() ==> handle.pos() < (#[trigger] all[b]).fields.len(),
        old(state).values() == with_field(
            all,
            handle.pos(),
            restricting(
                grid,
                old(state).fields()[handle.pos()].halo as int,
                field_slabs(all, handle.pos()),
                level as int,
                fine.id(),
                0,
            ),
        ),
    ensures
        final(state).fields() == old(state).fields(),
        final(state).values() == with_field(
            all,
            handle.pos(),
            restricting(
                grid,
                old(state).fields()[handle.pos()].halo as int,
                field_slabs(all, handle.pos()),
                level as int,
                fine.id() + 1,
                0,
            ),
        ),
{
    let ghost f = handle.pos();
    let ghost g = state.fields()[f].halo as int;
    let ghost v = field_slabs(all, f);
    let ghost n = fine.id();
    let ghost lv = level as int;
    proof {
        grid.lemma_patch(n);
        grid.lemma_nested(n);
        assert forall|d: int| 0 <= d < D implies 0 <= #[trigger] grid.patch_list()[n].bx.lo[d] by {}
    }
    let bx = grid.patch(fine).bx;
    let under = under_box(&bx, r);
    let ghost l = ints(under.lo);
    let ghost h = ints(under.hi);
    let mut c = under.lo;
    let mut more = true;
    let ghost mut m: int = 0;
    proof {
        assert(in_box(ints(c), l, h)) by {
            assert forall|d: int| 0 <= d < D implies l[d] <= #[trigger] ints(c)[d] < h[d] by {
                assert(under.lo[d] < under.hi[d]);
            }
        }
        lemma_rank(ints(c), l, h);
        crate::geometry::index::lemma_lin_zero(minus(l, l), minus(h, l));
        lemma_patch_restricted(grid, g, v, lv, n);
    }
    while more
        invariant
            D > 0,
            grid.sound(),
            1 <= level < grid.levels(),
            lv == level,
            f == handle.pos(),
            n == fine.id(),
            n < grid.patch_list().len(),
            grid.patch_list()[n].level == level,
            r == grid.ratio_list()[level - 1],
            inv == child_share::<T, D>(r as int),
            l == ints(under.lo),
            h == ints(under.hi),
            l == under_lo(grid.patch_list()[n].bx, r as int),
            h == under_hi(grid.patch_list()[n].bx, r as int),
            g >= 0,
            v == field_slabs(all, f),
            slabs_fit(grid, g, v),
            state.fields() == old(state).fields(),
            0 <= f < state.fields().len(),
            state.fields()[f].halo == g,
            forall|b: int| 0 <= b < all.len() ==> f < (#[trigger] all[b]).fields.len(),
            state.values() == with_field(all, f, restricting(grid, g, v, lv, n, m)),
            0 <= m <= volume(minus(h, l)),
            more ==> in_box(ints(c), l, h) && rank(ints(c), l, h) == m,
            !more ==> m == volume(minus(h, l)),
        decreases volume(minus(h, l)) - m,
    {
        let ghost cur = restricting(grid, g, v, lv, n, m);
        proof {
            lemma_rank(ints(c), l, h);
            assert(lies_under(grid, n, lv, ints(c)));
            lemma_restricting(grid, g, v, lv, n, m);
            assert(field_slabs(state.values(), f) =~= cur);
            assert forall|b: int| 0 <= b < state.values().len() implies f < (
            #[trigger] state.values()[b]).fields.len() by {
                assert(f < all[b].fields.len());
            }
            assert(grid.level_of(n) == lv);
            assert(cur[n] == v[n]);
            lemma_child_mean_same(grid, g, v, cur, lv, n, ints(c));
            lemma_restrict_step(grid, g, v, lv, n, ints(c));
        }
        restrict_cell(grid, state, handle, level, fine, c, r, inv);
        proof {
            let next = restricting(grid, g, v, lv, n, m + 1);
            assert(with_field(with_field(all, f, cur), f, next) =~~= with_field(all, f, next));
            m = m + 1;
        }
        more = next_cell(&mut c, &under.lo, &under.hi);
    }
}

/// Before the first patch of a level nothing was restricted.
proof fn lemma_restricting_start<R: Real, T: Real, const D: usize>(
    grid: &AmrGrid<R, D>,
    g: int,
    v: Seq<Seq<T>>,
    level: int,
)
    requires
        grid.sound(),
        1 <= level < grid.levels(),
    ensures
        restricting(grid, g, v, level, grid.starts()[level] as int, 0) == v,
{
    let n = grid.starts()[level] as int;
    let r = grid.ratio_list()[level - 1] as int;
    let w = restricting(grid, g, v, level, n, 0);
    assert forall|c: Seq<int>| !#[trigger] reached(grid, level, n, 0, c) by {
        if reached(grid, level, n, 0, c) {
            let p = choose|p: int| #[trigger]
                lies_under(grid, p, level, c) && reached_in(grid, p, level, n, 0, c);
            lemma_level_slice(grid, level, p);
            let q = grid.patch_list()[p].bx;
            lemma_rank(c, under_lo(q, r), under_hi(q, r));
        }
    }
    assert forall|b: int| 0 <= b < v.len() implies #[trigger] w[b] == v[b] by {
        assert(w[b] =~= v[b]);
    }
    assert(w =~= v);
}

/// After the last patch of a level the level was restricted.
proof fn lemma_restricting_end<R: Real, T: Real, const D: usize>(
    grid: &AmrGrid<R, D>,
    g: int,
    v: Seq<Seq<T>>,
    level: int,
)
    requires
        grid.sound(),
        1 <= level < grid.levels(),
    ensures
        restricting(grid, g, v, level, grid.starts()[level + 1] as int, 0) == restricted(
            grid,
            g,
            v,
            level,
        ),
{
    let n = grid.starts()[level + 1] as int;
    let w = restricting(grid, g, v, level, n, 0);
    let full = restricted(grid, g, v, level);
    assert forall|c: Seq<int>| #[trigger]
        reached(grid, level, n, 0, c) == refined_at(grid, level, c) by {
        if refined_at(grid, level, c) {
            let p = choose|p: int| lies_under(grid, p, level, c);
            lemma_level_slice(grid, level, p);
            assert(reached_in(grid, p, level, n, 0, c));
        }
    }
    assert forall|b: int| 0 <= b < v.len() implies #[trigger] w[b] == full[b] by {
        assert(w[b] =~= full[b]);
    }
    assert(w =~= full);
}

/// Restrict a single transition: level `fine_level` onto `fine_level - 1`. The
/// unit the subcycle synchronizes with after each fine cycle completes.
pub fn restrict_level<R: Real, T: Real, S: StorageBackend<T>, const D: usize>(
    grid: &AmrGrid<R, D>,
    state: &mut State<T, S>,
    handle: FieldHandle<T>,
    fine_level: u8,
)
    requires
        grid.sound(),
        1 <= fine_level < grid.levels(),
        field_fits(grid, old(state), handle.pos()),
    ensures
        final(state).fields() == old(state).fields(),
        final(state).values() == with_field(
            old(state).values(),
            handle.pos(),
            restricted(
                grid,
                old(state).fields()[handle.pos()].halo as int,
                field_slabs(old(state).values(), handle.pos()),
                fine_level as int,
            ),
        ),
{
    let ghost f = handle.pos();
    let ghost all = state.values();
    let ghost v = field_slabs(all, f);
    let ghost g = state.fields()[f].halo as int;
    let ghost lv = fine_level as int;
    let ghost st = grid.starts();
    let ratio = grid.ratios()[fine_level as usize - 1];
    let r: i64 = ratio as i64;
    let inv = T::one().div(T::from_u64(ratio as u64).powi(D as i32));
    let (start, end) = grid.level_range(fine_level);
    proof {
        assert(st[lv] <= st[lv + 1]);
        assert(st[lv + 1] <= st[st.len() - 1]);
        assert(st[0] <= st[lv]);
        lemma_restricting_start(grid, g, v, lv);
        assert(with_field(all, f, v) =~~= all);
    }
    let mut b: u32 = start;
    while b < end
        invariant
            start <= b <= end,
            start == st[lv],
            end == st[lv + 1],
            end <= grid.patch_list().len(),
            st == grid.starts(),
            lv == fine_level,
            grid.sound(),
            1 <= fine_level < grid.levels(),
            f == handle.pos(),
            r == grid.ratio_list()[fine_level - 1],
            inv == child_share::<T, D>(r as int),
            all == old(state).values(),
            v == field_slabs(all, f),
            slabs_fit(grid, g, v),
            state.fields() == old(state).fields(),
            0 <= f < state.fields().len(),
            state.fields()[f].halo == g,
            forall|c: int| 0 <= c < all.len() ==> f < (#[trigger] all[c]).fields.len(),
            state.values() == with_field(all, f, restricting(grid, g, v, lv, b as int, 0)),
        decreases end - b,
    {
        proof {
            lemma_level_slice(grid, lv, b as int);
        }
        restrict_patch(grid, state, handle, fine_level, BlockId(b), r, inv, Ghost(all));
        b += 1;
    }
    proof {
        lemma_restricting_end(grid, g, v, lv);
    }
}

/// Inject fine solutions onto the coarse cells beneath them: each covered
/// coarse cell becomes the mean of its `r^D` fine children. Runs finest to
/// coarsest so multi-level chains propagate all the way down.
pub fn restrict<R: Real, T: Real, S: StorageBackend<T>, const D: usize>(
    grid: &AmrGrid<R, D>,
    state: &mut State<T, S>,
    handle: FieldHandle<T>,
)
    requires
        grid.sound(),
        field_fits(grid, old(state), handle.pos()),
    ensures
        final(state).fields() == old(state).fields(),
        final(state).values() == with_field(
            old(state).values(),
            handle.pos(),
            restricted_down(
                grid,
                old(state).fields()[handle.pos()].halo as int,
                field_slabs(old(state).values(), handle.pos()),
                0,
                grid.levels() as nat,
            ),
        ),
{
    let ghost f = handle.pos();
    let ghost all = state.values();
    let ghost v = field_slabs(all, f);
    let ghost g = state.fields()[f].halo as int;
    let levels = grid.num_levels();
    proof {
        assert(with_field(all, f, v) =~~= all);
    }
    let mut level: usize = levels - 1;
    while level > 0
        invariant
            level < levels,
            levels == grid.levels(),
            levels <= 256,
            grid.sound(),
            f == handle.pos(),
            all == old(state).values(),
            v == field_slabs(all, f),
            v.len() == grid.patch_list().len(),
            slabs_fit(grid, g, restricted_down(grid, g, v, level as nat, levels as nat)),
            state.fields() == old(state).fields(),
            0 <= f < state.fields().len(),
            state.fields()[f].halo == g,
            forall|c: int| 0 <= c < all.len() ==> f < (#[trigger] all[c]).fields.len(),
            state.values() == with_field(
                all,
                f,
                restricted_down(grid, g, v, level as nat, levels as nat),
            ),
        decreases level,
    {
        let ghost cur = restricted_down(grid, g, v, level as nat, levels as nat);
        let ghost next = restricted_down(grid, g, v, (level - 1) as nat, levels as nat);
        proof {
            assert(next == restricted(grid, g, cur, level as int));
            assert(field_slabs(state.values(), f) =~= cur);
            assert forall|c: int| 0 <= c < state.values().len() implies f < (
            #[trigger] state.values()[c]).fields.len() by {
                assert(f < all[c].fields.len());
            }
            assert forall|p: int| 0 <= p < next.len() implies (#[trigger] next[p]).len() == volume(
                ghosted(grid.extent_of(p), g),
            ) by {
                assert(cur[p].len() == volume(ghosted(grid.extent_of(p), g)));
            }
        }
        restrict_level(grid, state, handle, level as u8);
        proof {
            assert(with_field(with_field(all, f, cur), f, next) =~~= with_field(all, f, next));
        }
        level -= 1;
    }
}

/// In exact arithmetic restriction conserves: the value given to a coarse cell, times
/// the number of its children, is the sum of theirs.
pub proof fn restriction_conserves<R: Real, T: Real, const D: usize>(
    w: spec_fn(T) -> real,
    grid: &AmrGrid<R, D>,
    g: int,
    v: Seq<Seq<T>>,
    level: int,
    c: Seq<int>,
)
    requires
        exact(w),
        powers_exact(w),
        grid.sound(),
        1 <= level < grid.levels(),
        D <= i32::MAX,
    ensures
        ({
            let r = grid.ratio_list()[level - 1] as int;
            let children = volume(minus(end_child(c, r), first_child(c, r))) as nat;
            w(child_mean(grid, g, v, level, c)) * power(r as real, D as nat) == w(
                child_sum(grid, g, v, level, c, r, children),
            )
        }),
{
    let r = grid.ratio_list()[level - 1] as int;
    let children = volume(minus(end_child(c, r), first_child(c, r))) as nat;
    let count = T::from_u64_spec(r as u64).powi_spec(D as i32);
    let p = power(r as real, D as nat);
    let sum = w(child_sum(grid, g, v, level, c, r, children));
    let share = w(child_share::<T, D>(r));
    assert(grid.ratio_list()[level - 1] >= 2);
    lemma_power_positive(r as real, D as nat);
    assert(w(count) == p);
    assert(share * p == 1 as real);
    lemma_associates(sum, share, p);
    assert(sum * (1 as real) == sum) by (nonlinear_arith);
}

/// Restriction is idempotent: the fine solution it averages is left alone.
pub proof fn restriction_is_idempotent<R: Real, T: Real, const D: usize>(
    grid: &AmrGrid<R, D>,
    g: int,
    v: Seq<Seq<T>>,
    level: int,
)
    requires
        grid.sound(),
        1 <= level < grid.levels(),
        slabs_fit(grid, g, v),
    ensures
        restricted(grid, g, restricted(grid, g, v, level), level) == restricted(grid, g, v, level),
{
    let w = restricted(grid, g, v, level);
    let again = restricted(grid, g, w, level);
    assert forall|p: int| 0 <= p < v.len() && grid.level_of(p) == level implies #[trigger] w[p]
        == v[p] by {
        assert(w[p] =~= v[p]);
    }
    assert forall|b: int| 0 <= b < v.len() implies #[trigger] again[b] == w[b] by {
        assert forall|k: int| 0 <= k < v[b].len() implies #[trigger] again[b][k] == w[b][k] by {
            let c = plus(slab_index(k, grid.extent_of(b), g), ints(grid.patch_list()[b].bx.lo));
            if refined_at(grid, level, c) {
                let p = choose|p: int| lies_under(grid, p, level, c);
                assert(grid.level_of(p) == level);
                assert(w[p] == v[p]);
                lemma_child_mean_same(grid, g, v, w, level, p, c);
            }
        }
        assert(again[b] =~= w[b]);
    }
    assert(again =~= w);
}

/// The cells that restriction replaces are those with children: a cell is refined exactly
/// where some patch of the finer level holds a given one of the cells it divides into, so
/// that a cell has all of its children or none.
pub proof fn refined_cells_have_their_children<R: Real, const D: usize>(
    grid: &AmrGrid<R, D>,
    level: int,
    c: Seq<int>,
    x: Seq<int>,
)
    requires
        grid.sound(),
        1 <= level < grid.levels(),
        c.len() == D,
        x.len() == D,
        ({
            let r = grid.ratio_list()[level - 1] as int;
            forall|d: int| 0 <= d < D ==> c[d] * r <= #[trigger] x[d] < c[d] * r + r
        }),
    ensures
        refined_at(grid, level, c) <==> owner_at(grid, level, x) is Some,
{
    let r = grid.ratio_list()[level - 1] as int;
    if refined_at(grid, level, c) {
        let p = choose|p: int| lies_under(grid, p, level, c);
        assert(in_box(x, first_child(c, r), end_child(c, r)));
        lemma_children(grid, p, level, c, x);
    }
    if owner_at(grid, level, x) is Some {
        let p = choose|p: int| patch_holds(grid, p, level, x);
        let bx = grid.patch_list()[p].bx;
        grid.lemma_nested(p);
        assert forall|d: int| 0 <= d < D implies under_lo(bx, r)[d] <= #[trigger] c[d]
            < under_hi(bx, r)[d] by {
            let lo = bx.lo[d] as int;
            let hi = bx.hi[d] as int;
            assert(ints(bx.lo)[d] <= x[d] < ints(bx.hi)[d]);
            vstd::arithmetic::div_mod::lemma_fundamental_div_mod(lo, r);
            vstd::arithmetic::div_mod::lemma_fundamental_div_mod(hi, r);
            assert(bx.lo[d] as int % r == 0 && bx.hi[d] as int % r == 0);
            let (a, b, y, z) = (lo / r, hi / r, c[d], x[d]);
            assert(a <= y < b) by (nonlinear_arith)
                requires
                    lo == r * a,
                    hi == r * b,
                    lo <= z < hi,
                    y * r <= z < y * r + r,
                    r >= 2,
            ;
        }
        assert(lies_under(grid, p, level, c));
    }
}

} // verus!
