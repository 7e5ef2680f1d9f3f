//! Restriction gives a coarse cell the mean of its children.
use vstd::prelude::*;

use crate::engine::exact::{
    exact, lemma_cancels, lemma_commutes, lemma_distributes, lemma_power_positive, power,
    powers_exact,
};
use crate::engine::storage::Real;
use crate::geometry::amr::grid::AmrGrid;
use crate::geometry::amr::intergrid::{owner_at, value_in};
use crate::geometry::amr::restriction::{
    child_mean, child_sum, end_child, first_child, refined_at, restricted, restriction_conserves,
};
use crate::geometry::grid::{slab_index, Grid};
use crate::geometry::index::{
    box_cells, in_box, in_ext, ints, lemma_unrank, lemma_volume_positive, minus, plus, volume,
};

verus! {

/// What the cells hold, added up over the reals.
pub open spec fn total_over<R: Real, T: Real, const D: usize>(
    w: spec_fn(T) -> real,
    grid: &AmrGrid<R, D>,
    g: int,
    v: Seq<Seq<T>>,
    level: int,
    cells: Seq<Seq<int>>,
) -> real
    decreases cells.len(),
{
    if cells.len() == 0 {
        0 as real
    } else {
        let x = cells.last();
        total_over(w, grid, g, v, level, cells.drop_last()) + w(
            value_in(grid, g, v, owner_at(grid, level, x)->0, x),
        )
    }
}

/// The children of a coarse cell: the fine cells it is refined into.
pub open spec fn children(c: Seq<int>, r: int) -> Seq<Seq<int>> {
    box_cells(
        Seq::new(c.len(), |d: int| c[d] * r),
        Seq::new(c.len(), |d: int| (c[d] + 1) * r),
    )
}

/// A coarse cell of this value holds the mean of its children: the value times their
/// number is what they hold together.
pub open spec fn averages<R: Real, T: Real, const D: usize>(
    w: spec_fn(T) -> real,
    grid: &AmrGrid<R, D>,
    g: int,
    v: Seq<Seq<T>>,
    level: int,
    c: Seq<int>,
    x: T,
) -> bool {
    let r = grid.ratio_list()[level - 1] as int;
    w(x) * power(r as real, D as nat) == total_over(w, grid, g, v, level, children(c, r))
}

proof fn lemma_child_total<R: Real, T: Real, const D: usize>(
    w: spec_fn(T) -> real,
    grid: &AmrGrid<R, D>,
    g: int,
    v: Seq<Seq<T>>,
    level: int,
    c: Seq<int>,
    r: int,
    k: nat,
)
    requires
        exact(w),
        k <= box_cells(first_child(c, r), end_child(c, r)).len(),
    ensures
        w(child_sum(grid, g, v, level, c, r, k)) == total_over(
            w,
            grid,
            g,
            v,
            level,
            box_cells(first_child(c, r), end_child(c, r)).take(k as int),
        ),
    decreases k,
{
    let cells = box_cells(first_child(c, r), end_child(c, r));
    if k > 0 {
        lemma_child_total(w, grid, g, v, level, c, r, (k - 1) as nat);
        assert(cells.take(k as int).drop_last() =~= cells.take(k - 1));
    }
}

/// The children of a cell fill a box of side `r`.
proof fn lemma_children(c: Seq<int>, r: int)
    requires
        r > 0,
    ensures
        children(c, r) == box_cells(first_child(c, r), end_child(c, r)),
        children(c, r).len() == volume(minus(end_child(c, r), first_child(c, r))),
        volume(minus(end_child(c, r), first_child(c, r))) >= 1,
        children(c, r).len() as real == power(r as real, c.len()),
{
    let lo = first_child(c, r);
    let hi = end_child(c, r);
    assert forall|d: int| 0 <= d < c.len() implies (c[d] + 1) * r == c[d] * r + r by {
        assert((c[d] + 1) * r == c[d] * r + r) by (nonlinear_arith);
    }
    assert(Seq::new(c.len(), |d: int| c[d] * r) =~= lo);
    assert(Seq::new(c.len(), |d: int| (c[d] + 1) * r) =~= hi);
    let ext = minus(hi, lo);
    assert(ext =~= Seq::new(c.len(), |d: int| r));
    lemma_volume_positive(ext);
    assert forall|d: int| 0 <= d < lo.len() implies !(#[trigger] lo[d] >= hi[d]) by {}
    assert(children(c, r).len() == volume(ext));
    lemma_cube(r, c.len());
}

proof fn lemma_cube(r: int, n: nat)
    ensures
        volume(Seq::new(n, |d: int| r)) as real == power(r as real, n),
    decreases n,
{
    let e = Seq::new(n, |d: int| r);
    if n > 0 {
        let m = (n - 1) as nat;
        let rest = Seq::new(m, |d: int| r);
        assert(e.drop_first() =~= rest);
        lemma_cube(r, m);
        let k = volume(rest);
        let (x, y) = (r as real, k as real);
        assert((r * k) as real == x * y) by (nonlinear_arith)
            requires
                x == r as real,
                y == k as real,
        ;
        lemma_commutes(x, y);
    }
}

/// In exact arithmetic restriction gives every interior cell beneath a patch the mean of
/// its children, and leaves every other entry as it was.
pub proof fn restriction_averages<R: Real, T: Real, const D: usize>(
    w: spec_fn(T) -> real,
    grid: &AmrGrid<R, D>,
    g: int,
    v: Seq<Seq<T>>,
    level: int,
    b: int,
    k: int,
)
    requires
        exact(w),
        powers_exact(w),
        grid.sound(),
        1 <= level < grid.levels(),
        D <= i32::MAX,
        v.len() == grid.patch_list().len(),
        0 <= b < v.len(),
        0 <= k < v[b].len(),
    ensures
        ({
            let idx = slab_index(k, grid.extent_of(b), g);
            let c = plus(idx, ints(grid.patch_list()[b].bx.lo));
            let x = restricted(grid, g, v, level)[b][k];
            if grid.level_of(b) == level - 1 && in_ext(idx, grid.extent_of(b)) && refined_at(
                grid,
                level,
                c,
            ) {
                averages(w, grid, g, v, level, c, x)
            } else {
                x == v[b][k]
            }
        }),
{
    let c = plus(slab_index(k, grid.extent_of(b), g), ints(grid.patch_list()[b].bx.lo));
    lemma_mean_averages(w, grid, g, v, level, c);
}

/// In exact arithmetic the mean of the children is their mean.
pub proof fn lemma_mean_averages<R: Real, T: Real, const D: usize>(
    w: spec_fn(T) -> real,
    grid: &AmrGrid<R, D>,
    g: int,
    v: Seq<Seq<T>>,
    level: int,
    c: Seq<int>,
)
    requires
        exact(w),
        powers_exact(w),
        grid.sound(),
        1 <= level < grid.levels(),
        D <= i32::MAX,
    ensures
        averages(w, grid, g, v, level, c, child_mean(grid, g, v, level, c)),
{
    let r = grid.ratio_list()[level - 1] as int;
    assert(grid.ratio_list()[level - 1] >= 2);
    lemma_children(c, r);
    restriction_conserves(w, grid, g, v, level, c);
    let cells = children(c, r);
    lemma_child_total(w, grid, g, v, level, c, r, cells.len());
    assert(cells.take(cells.len() as int) =~= cells);
}

proof fn lemma_equal_total<R: Real, T: Real, const D: usize>(
    w: spec_fn(T) -> real,
    grid: &AmrGrid<R, D>,
    g: int,
    v: Seq<Seq<T>>,
    level: int,
    cells: Seq<Seq<int>>,
    x: real,
)
    requires
        forall|j: int|
            0 <= j < cells.len() ==> w(
                value_in(grid, g, v, owner_at(grid, level, #[trigger] cells[j])->0, cells[j]),
            ) == x,
    ensures
        total_over(w, grid, g, v, level, cells) == cells.len() as real * x,
    decreases cells.len(),
{
    if cells.len() == 0 {
        assert(0 as real * x == 0 as real) by (nonlinear_arith);
    } else {
        let less = cells.drop_last();
        assert forall|j: int| 0 <= j < less.len() implies w(
            value_in(grid, g, v, owner_at(grid, level, #[trigger] less[j])->0, less[j]),
        ) == x by {
            assert(less[j] == cells[j]);
        }
        lemma_equal_total(w, grid, g, v, level, less, x);
        let last = cells[cells.len() - 1];
        assert(w(value_in(grid, g, v, owner_at(grid, level, last)->0, last)) == x);
        let n = less.len() as real;
        assert(cells.len() as real == n + 1 as real);
        lemma_distributes(x, n, 1 as real);
        assert(1 as real * x == x) by (nonlinear_arith);
    }
}

/// In exact arithmetic equal children give a coarse cell their common value.
pub proof fn means_of_equal_children<R: Real, T: Real, const D: usize>(
    w: spec_fn(T) -> real,
    grid: &AmrGrid<R, D>,
    g: int,
    v: Seq<Seq<T>>,
    level: int,
    c: Seq<int>,
    x: real,
)
    requires
        exact(w),
        powers_exact(w),
        grid.sound(),
        1 <= level < grid.levels(),
        D <= i32::MAX,
        c.len() == D,
        forall|y: Seq<int>|
            in_box(
                y,
                first_child(c, grid.ratio_list()[level - 1] as int),
                end_child(c, grid.ratio_list()[level - 1] as int),
            ) ==> w(#[trigger] value_in(grid, g, v, owner_at(grid, level, y)->0, y)) == x,
    ensures
        w(child_mean(grid, g, v, level, c)) == x,
{
    let r = grid.ratio_list()[level - 1] as int;
    assert(grid.ratio_list()[level - 1] >= 2);
    lemma_children(c, r);
    lemma_mean_averages(w, grid, g, v, level, c);
    let cells = children(c, r);
    assert forall|j: int| 0 <= j < cells.len() implies w(
        value_in(grid, g, v, owner_at(grid, level, #[trigger] cells[j])->0, cells[j]),
    ) == x by {
        lemma_unrank(j, first_child(c, r), end_child(c, r));
    }
    lemma_equal_total(w, grid, g, v, level, cells, x);
    let p = power(r as real, D as nat);
    lemma_power_positive(r as real, D as nat);
    lemma_commutes(p, x);
    lemma_cancels(w(child_mean(grid, g, v, level, c)), x, p);
}

} // verus!
