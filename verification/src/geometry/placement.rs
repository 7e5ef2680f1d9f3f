//! Where cells lie: centers and spacings of grids and hierarchies.
use vstd::prelude::*;

use crate::engine::exact::{
    exact, lemma_associates, lemma_commutes, lemma_distributes, lemma_negates,
};
use crate::engine::storage::Real;
use crate::geometry::amr::grid::{level_step, scale, AmrGrid};
use crate::geometry::cartesian::CartesianGrid;
use crate::geometry::grid::Grid;

verus! {

/// The position of a cell of a block along an axis, counted over the whole domain.
pub open spec fn position<R: Real, const D: usize>(
    grid: &CartesianGrid<R, D>,
    b: int,
    idx: Seq<int>,
    d: int,
) -> int {
    grid.coords_of(b)[d] * grid.tile()[d] + idx[d]
}

/// In exact arithmetic cell centers are evenly spaced over the whole domain, across
/// blocks too: two of them differ by the spacing times the cells between them, and that
/// of the first cell lies half a spacing beyond the corner.
pub proof fn centers_are_evenly_spaced<R: Real, const D: usize>(
    v: spec_fn(R) -> real,
    grid: &CartesianGrid<R, D>,
    a: int,
    i: Seq<int>,
    b: int,
    j: Seq<int>,
    d: int,
)
    requires
        exact(v),
        0 <= grid.coords_of(a)[d] * grid.tile()[d] <= u64::MAX,
        0 <= grid.coords_of(b)[d] * grid.tile()[d] <= u64::MAX,
        i64::MIN <= i[d] <= i64::MAX,
        i64::MIN <= j[d] <= i64::MAX,
    ensures
        v(grid.center_of(b, j, d)) - v(grid.center_of(a, i, d)) == (position(grid, b, j, d)
            - position(grid, a, i, d)) as real * v(grid.step(d)),
        position(grid, a, i, d) == 0 ==> 2 as real * (v(grid.center_of(a, i, d)) - v(
            grid.corner(d),
        )) == v(grid.step(d)),
        grid.spacing_of(a, d) == grid.step(d),
        grid.finest_of(d) == grid.step(d),
{
    lemma_center(v, grid, a, i, d);
    lemma_center(v, grid, b, j, d);
    let h = v(grid.step(d));
    let half = v(R::half_spec());
    let (m, n) = (position(grid, a, i, d) as real, position(grid, b, j, d) as real);
    lemma_distributes(h, m, half);
    lemma_distributes(h, n, half);
    lemma_distributes(h, n, -m);
    lemma_negates(m, h);
    lemma_distributes(h, half, half);
    assert(1 as real * h == h && 0 as real * h == 0 as real) by (nonlinear_arith);
}

proof fn lemma_center<R: Real, const D: usize>(
    v: spec_fn(R) -> real,
    grid: &CartesianGrid<R, D>,
    b: int,
    idx: Seq<int>,
    d: int,
)
    requires
        exact(v),
        0 <= grid.coords_of(b)[d] * grid.tile()[d] <= u64::MAX,
        i64::MIN <= idx[d] <= i64::MAX,
    ensures
        v(grid.center_of(b, idx, d)) == (position(grid, b, idx, d) as real + v(R::half_spec())) * v(
            grid.step(d),
        ) + v(grid.corner(d)),
{
    let first = grid.coords_of(b)[d] * grid.tile()[d];
    assert(v(R::from_u64_spec(first as u64)) == first as real);
    assert(v(R::from_i64_spec(idx[d] as i64)) == idx[d] as real);
    assert((first + idx[d]) as real == first as real + idx[d] as real);
}

/// In exact arithmetic a refined level divides the spacing of the level below by its
/// ratio, and so the base spacing by all ratios up to it.
pub proof fn levels_divide_the_spacing<R: Real, const D: usize>(
    v: spec_fn(R) -> real,
    grid: &AmrGrid<R, D>,
    level: nat,
    d: int,
)
    requires
        exact(v),
        grid.sound(),
        level <= grid.ratio_list().len(),
    ensures
        v(level_step(grid.base_grid(), grid.ratio_list(), level, d)) * scale(
            grid.ratio_list(),
            level,
        ) as real == v(grid.base_grid().step(d)),
        level > 0 ==> v(level_step(grid.base_grid(), grid.ratio_list(), level, d))
            * grid.ratio_list()[level - 1] as real == v(
            level_step(grid.base_grid(), grid.ratio_list(), (level - 1) as nat, d),
        ),
    decreases level,
{
    let h = v(level_step(grid.base_grid(), grid.ratio_list(), level, d));
    if level == 0 {
        assert(h * (1 as real) == h) by (nonlinear_arith);
    } else {
        let m = (level - 1) as nat;
        levels_divide_the_spacing(v, grid, m, d);
        let r = grid.ratio_list()[level - 1];
        assert(r >= 2);
        let s = scale(grid.ratio_list(), m);
        let (x, y) = (s as real, r as int as real);
        assert(v(R::from_u64_spec(r as u64)) == y);
        assert((s * (r as int)) as real == x * y) by (nonlinear_arith)
            requires
                x == s as real,
                y == r as int as real,
        ;
        lemma_commutes(x, y);
        lemma_associates(h, y, x);
    }
}

/// In exact arithmetic a refined cell's children lie evenly about its center: the centers
/// of the first and the last child along an axis have it as their midpoint, and are
/// closer together than a coarse cell is wide by one fine spacing.
pub proof fn children_lie_about_their_parent<R: Real, const D: usize>(
    v: spec_fn(R) -> real,
    grid: &AmrGrid<R, D>,
    b: int,
    c: Seq<int>,
    p: int,
    first: Seq<int>,
    last: Seq<int>,
    d: int,
)
    requires
        exact(v),
        grid.sound(),
        0 <= b < grid.patch_list().len(),
        0 <= p < grid.patch_list().len(),
        grid.level_of(p) == grid.level_of(b) + 1,
        grid.level_of(p) <= grid.ratio_list().len(),
        0 <= d < D,
        ({
            let r = grid.ratio_list()[grid.level_of(b) as int] as int;
            let x = grid.patch_list()[b].bx.lo[d] + c[d];
            let y = grid.patch_list()[p].bx.lo[d] + first[d];
            let z = grid.patch_list()[p].bx.lo[d] + last[d];
            &&& i64::MIN <= x <= i64::MAX
            &&& i64::MIN <= y <= i64::MAX
            &&& i64::MIN <= z <= i64::MAX
            &&& y == x * r
            &&& z == x * r + r - 1
        }),
    ensures
        v(grid.center_of(p, first, d)) + v(grid.center_of(p, last, d)) == 2 as real * v(
            grid.center_of(b, c, d),
        ),
        v(grid.center_of(p, last, d)) - v(grid.center_of(p, first, d)) == v(grid.spacing_of(b, d))
            - v(grid.spacing_of(p, d)),
{
    let level = grid.level_of(p) as nat;
    let r = grid.ratio_list()[level - 1] as int;
    levels_divide_the_spacing(v, grid, level, d);
    let h = v(grid.spacing_of(p, d));
    let coarse = v(grid.spacing_of(b, d));
    let ratio = r as real;
    assert(h * ratio == coarse);
    let x = grid.patch_list()[b].bx.lo[d] + c[d];
    let (y, z) = (x * r, x * r + r - 1);
    let half = v(R::half_spec());
    let o = v(grid.base_grid().corner(d));
    assert(v(R::from_i64_spec(x as i64)) == x as real);
    assert(v(R::from_i64_spec(y as i64)) == y as real);
    assert(v(R::from_i64_spec(z as i64)) == z as real);
    let xr = x as real;
    assert((x * r) as real == xr * ratio) by (nonlinear_arith)
        requires
            xr == x as real,
            ratio == r as real,
    ;
    assert(y as real == xr * ratio);
    assert(z as real == xr * ratio + ratio - 1 as real);
    let a = xr * ratio;
    assert(a * h == xr * coarse) by {
        lemma_associates(xr, ratio, h);
        lemma_commutes(ratio, h);
    }
    lemma_commutes(ratio, h);
    lemma_distributes(h, a, half);
    lemma_distributes(h, a + ratio - 1 as real, half);
    lemma_distributes(h, a + ratio, -(1 as real));
    lemma_distributes(h, a, ratio);
    lemma_negates(1 as real, h);
    assert(1 as real * h == h) by (nonlinear_arith);
    lemma_distributes(h, half, half);
    lemma_distributes(coarse, xr, half);
    lemma_distributes(coarse, half, half);
    assert(1 as real * coarse == coarse) by (nonlinear_arith);
}

} // verus!
