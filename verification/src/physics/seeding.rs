//! Seeding a block looks at the grains that matter to it, and only at those.
use vstd::prelude::*;

use crate::engine::exact::{
    exact, lemma_cancels, lemma_distributes, order_exact, power, powers_exact, roots_exact,
};
use crate::engine::state::{BlockValues, FieldSpec};
use crate::engine::storage::Real;
use crate::geometry::cartesian::CartesianGrid;
use crate::geometry::grid::{slab_fits, slab_index, Grid};
use crate::geometry::index::in_ext;
use crate::physics::phasefield::{
    box_distance, far_distance, far_limit, high_edge, low_edge, nearest, orientation_at, profile,
    reaching, seed_reaches, seeded_block, solid_at, squared_distance, within, Grain,
};

verus! {

/// Distances, minima and the total order are those of the reals.
pub open spec fn plane_exact<T: Real>(v: spec_fn(T) -> real) -> bool {
    &&& forall|a: T, b: T| #[trigger] v(a.hypot_spec(b)) >= 0 as real
    &&& forall|a: T, b: T|
        (#[trigger] v(a.hypot_spec(b))) * v(a.hypot_spec(b)) == v(a) * v(a) + v(b) * v(b)
    &&& forall|a: T, b: T| #[trigger] v(a.min_spec(b)) == (if v(b) < v(a) {
        v(b)
    } else {
        v(a)
    })
    &&& forall|a: T, b: T| #[trigger] a.total_lt_spec(b) == (v(a) < v(b))
}

/// The hyperbolic tangent is one as far from zero as 27 over the root of two.
pub open spec fn saturates<T: Real>(v: spec_fn(T) -> real) -> bool {
    let root = v(T::from_u64_spec(2).sqrt_spec());
    &&& root != 0 as real
    &&& forall|a: T| v(a) * root >= 27 as real ==> #[trigger] v(a.tanh_spec()) == 1 as real
}

/// The point lies in a block's box.
pub open spec fn inside<T: Real>(
    v: spec_fn(T) -> real,
    grid: &CartesianGrid<T, 2>,
    b: int,
    x: T,
    y: T,
) -> bool {
    &&& v(low_edge(grid, b, 0)) <= v(x) <= v(high_edge(grid, b, 0))
    &&& v(low_edge(grid, b, 1)) <= v(y) <= v(high_edge(grid, b, 1))
}

proof fn lemma_squares(a: real, b: real)
    requires
        0 as real <= a <= b,
    ensures
        a * a <= b * b,
{
    assert(a * a <= b * b) by (nonlinear_arith)
        requires
            0 as real <= a <= b,
    ;
}

proof fn lemma_roots(a: real, b: real)
    requires
        0 as real <= b,
        a * a <= b * b,
    ensures
        a <= b,
{
    if a > b {
        assert(a * a > b * b) by (nonlinear_arith)
            requires
                0 as real <= b < a,
        ;
    }
}

/// Along one axis a point of an interval is no nearer to `c` than the interval and no
/// farther than its far end.
proof fn lemma_axis(lo: real, hi: real, c: real, x: real, near: real, far: real)
    requires
        lo <= x <= hi,
        near == (if lo - c < c - hi {
            if c - hi < 0 as real {
                0 as real
            } else {
                c - hi
            }
        } else {
            if lo - c < 0 as real {
                0 as real
            } else {
                lo - c
            }
        }),
        far >= c - lo,
        far >= lo - c,
        far >= c - hi,
        far >= hi - c,
    ensures
        near * near <= (x - c) * (x - c) <= far * far,
{
    let m = if x - c < 0 as real {
        c - x
    } else {
        x - c
    };
    assert(m * m == (x - c) * (x - c)) by {
        if x - c < 0 as real {
            let z = x - c;
            assert((-z) * (-z) == z * z) by (nonlinear_arith);
            assert(m == -z);
        }
    }
    lemma_squares(near, m);
    lemma_squares(m, far);
}

/// Distance of a seed's center to a point.
spec fn distance<T: Real>(v: spec_fn(T) -> real, g: Grain<T>, x: T, y: T) -> real {
    v(x.sub_spec(g.center[0]).hypot_spec(y.sub_spec(g.center[1])))
}

/// A point of a block is no nearer to a seed than the block's box, and no farther than
/// its farthest corner.
proof fn lemma_between<T: Real>(
    v: spec_fn(T) -> real,
    grid: &CartesianGrid<T, 2>,
    b: int,
    g: Grain<T>,
    x: T,
    y: T,
)
    requires
        exact(v),
        order_exact(v),
        plane_exact(v),
        inside(v, grid, b, x, y),
    ensures
        v(box_distance(grid, b, g.center)) <= distance(v, g, x, y) <= v(
            far_distance(grid, b, g.center),
        ),
{
    let zero = T::zero_spec();
    let (l0, h0) = (low_edge(grid, b, 0), high_edge(grid, b, 0));
    let (l1, h1) = (low_edge(grid, b, 1), high_edge(grid, b, 1));
    let (cx, cy) = (g.center[0], g.center[1]);
    let nx = l0.sub_spec(cx).max_spec(cx.sub_spec(h0)).max_spec(zero);
    let ny = l1.sub_spec(cy).max_spec(cy.sub_spec(h1)).max_spec(zero);
    let fx = cx.sub_spec(l0).abs_spec().max_spec(cx.sub_spec(h0).abs_spec());
    let fy = cy.sub_spec(l1).abs_spec().max_spec(cy.sub_spec(h1).abs_spec());
    lemma_axis(v(l0), v(h0), v(cx), v(x), v(nx), v(fx));
    lemma_axis(v(l1), v(h1), v(cy), v(y), v(ny), v(fy));
    let (dx, dy) = (x.sub_spec(cx), y.sub_spec(cy));
    assert(v(dx) == v(x) - v(cx) && v(dy) == v(y) - v(cy));
    lemma_roots(v(nx.hypot_spec(ny)), v(dx.hypot_spec(dy)));
    lemma_roots(v(dx.hypot_spec(dy)), v(fx.hypot_spec(fy)));
}

/// The squared distance is the square of the distance.
proof fn lemma_squared<T: Real>(v: spec_fn(T) -> real, g: Grain<T>, x: T, y: T)
    requires
        exact(v),
        powers_exact(v),
        plane_exact(v),
    ensures
        v(squared_distance(g, x, y)) == distance(v, g, x, y) * distance(v, g, x, y),
{
    let dx = x.sub_spec(g.center[0]);
    reveal_with_fuel(power, 3);
    let a = v(dx);
    assert(power(a, 2) == a * a) by {
        assert((1 as real * a) * a == a * a) by (nonlinear_arith);
    }
    assert(v(dx.powi_spec(2)) == power(v(dx), 2));
}

/// Grain `k` is the first of the nearest.
spec fn first_nearest<T: Real>(
    v: spec_fn(T) -> real,
    s: Seq<Grain<T>>,
    x: T,
    y: T,
    k: int,
) -> bool {
    &&& 0 <= k < s.len()
    &&& forall|i: int|
        0 <= i < s.len() ==> v(squared_distance(s[k], x, y)) <= v(
            squared_distance(#[trigger] s[i], x, y),
        )
    &&& forall|i: int|
        0 <= i < k ==> v(squared_distance(s[k], x, y)) < v(
            squared_distance(#[trigger] s[i], x, y),
        )
}

proof fn lemma_first_is_nearest<T: Real>(
    v: spec_fn(T) -> real,
    s: Seq<Grain<T>>,
    x: T,
    y: T,
    k: int,
)
    requires
        plane_exact(v),
        first_nearest(v, s, x, y, k),
    ensures
        nearest(s, x, y) == Some(s[k]),
    decreases s.len(),
{
    let t = s.drop_last();
    if k < s.len() - 1 {
        assert forall|i: int| 0 <= i < t.len() implies v(squared_distance(t[k], x, y)) <= v(
            squared_distance(#[trigger] t[i], x, y),
        ) by {
            assert(t[i] == s[i]);
        }
        assert forall|i: int| 0 <= i < k implies v(squared_distance(t[k], x, y)) < v(
            squared_distance(#[trigger] t[i], x, y),
        ) by {
            assert(t[i] == s[i]);
        }
        lemma_first_is_nearest(v, t, x, y, k);
        assert(v(squared_distance(s[k], x, y)) <= v(squared_distance(s[s.len() - 1], x, y)));
    } else if t.len() > 0 {
        let j = lemma_some_first(v, t, x, y);
        lemma_first_is_nearest(v, t, x, y, j);
        assert(s[j] == t[j]);
    }
}

proof fn lemma_some_first<T: Real>(
    v: spec_fn(T) -> real,
    s: Seq<Grain<T>>,
    x: T,
    y: T,
) -> (k: int)
    requires
        s.len() > 0,
    ensures
        first_nearest(v, s, x, y, k),
    decreases s.len(),
{
    let n = s.len() - 1;
    let t = s.drop_last();
    if n == 0 {
        0
    } else {
        let j = lemma_some_first(v, t, x, y);
        let k = if v(squared_distance(s[n], x, y)) < v(squared_distance(s[j], x, y)) {
            n
        } else {
            j
        };
        assert(t[j] == s[j]);
        assert forall|i: int| 0 <= i < s.len() implies v(squared_distance(s[k], x, y)) <= v(
            squared_distance(#[trigger] s[i], x, y),
        ) by {
            if i < n {
                assert(t[i] == s[i]);
            }
        }
        assert forall|i: int| 0 <= i < k implies v(squared_distance(s[k], x, y)) < v(
            squared_distance(#[trigger] s[i], x, y),
        ) by {
            assert(t[i] == s[i]);
        }
        k
    }
}

/// What passes the limit comes from the list.
proof fn lemma_within_source<T: Real>(
    grid: &CartesianGrid<T, 2>,
    b: int,
    grains: Seq<Grain<T>>,
    limit: T,
    n: nat,
    i: int,
) -> (j: int)
    requires
        n <= grains.len(),
        0 <= i < within(grid, b, grains, limit, n).len(),
    ensures
        0 <= j < n,
        within(grid, b, grains, limit, n)[i] == grains[j],
    decreases n,
{
    let m = (n - 1) as nat;
    let rest = within(grid, b, grains, limit, m);
    if i < rest.len() {
        lemma_within_source(grid, b, grains, limit, m, i)
    } else {
        m as int
    }
}

/// A grain that passes the limit stands behind those of the grains before it.
proof fn lemma_within_place<T: Real>(
    grid: &CartesianGrid<T, 2>,
    b: int,
    grains: Seq<Grain<T>>,
    limit: T,
    n: nat,
    k: int,
)
    requires
        0 <= k < n <= grains.len(),
        box_distance(grid, b, grains[k].center).le_spec(limit),
    ensures
        ({
            let all = within(grid, b, grains, limit, n);
            let before = within(grid, b, grains, limit, k as nat);
            &&& before.len() < all.len()
            &&& all[before.len() as int] == grains[k]
            &&& forall|i: int| 0 <= i < before.len() ==> #[trigger] all[i] == before[i]
        }),
    decreases n,
{
    let m = (n - 1) as nat;
    if k < m {
        lemma_within_place(grid, b, grains, limit, m, k);
    }
}

/// The limit is the least of the far distances, where numbers reach that far.
proof fn lemma_far_limit<T: Real>(
    v: spec_fn(T) -> real,
    grid: &CartesianGrid<T, 2>,
    b: int,
    grains: Seq<Grain<T>>,
    n: nat,
    d: real,
)
    requires
        plane_exact(v),
        n <= grains.len(),
        d <= v(T::largest_spec()),
        forall|i: int|
            0 <= i < n ==> d <= v(far_distance(grid, b, (#[trigger] grains[i]).center)),
    ensures
        d <= v(far_limit(grid, b, grains, n)),
    decreases n,
{
    if n > 0 {
        lemma_far_limit(v, grid, b, grains, (n - 1) as nat, d);
        assert(d <= v(far_distance(grid, b, grains[n - 1].center)));
    }
}

/// In exact arithmetic pruning keeps the nearest grain: at a point of the block, the
/// nearest of the candidates is the nearest of all grains. Distances are within the
/// range of the number type.
pub proof fn pruning_keeps_the_nearest_grain<T: Real>(
    v: spec_fn(T) -> real,
    grid: &CartesianGrid<T, 2>,
    b: int,
    grains: Seq<Grain<T>>,
    x: T,
    y: T,
)
    requires
        exact(v),
        order_exact(v),
        powers_exact(v),
        plane_exact(v),
        inside(v, grid, b, x, y),
        forall|i: int|
            0 <= i < grains.len() ==> v(far_distance(grid, b, (#[trigger] grains[i]).center)) <= v(
                T::largest_spec(),
            ),
    ensures
        ({
            let limit = far_limit(grid, b, grains, grains.len());
            let candidates = within(grid, b, grains, limit, grains.len());
            &&& nearest(candidates, x, y) == nearest(grains, x, y)
            &&& orientation_at(candidates, x, y) == orientation_at(grains, x, y)
        }),
{
    let n = grains.len();
    let limit = far_limit(grid, b, grains, n);
    let candidates = within(grid, b, grains, limit, n);
    if n > 0 {
        let k = lemma_some_first(v, grains, x, y);
        lemma_first_is_nearest(v, grains, x, y, k);
        let g = grains[k];
        let d = v(box_distance(grid, b, g.center));
        lemma_between(v, grid, b, g, x, y);
        lemma_squared(v, g, x, y);
        assert forall|i: int| 0 <= i < n implies d <= v(
            far_distance(grid, b, (#[trigger] grains[i]).center),
        ) by {
            lemma_between(v, grid, b, grains[i], x, y);
            lemma_squared(v, grains[i], x, y);
            lemma_roots(distance(v, g, x, y), distance(v, grains[i], x, y));
        }
        assert(d <= v(far_distance(grid, b, g.center)));
        lemma_far_limit(v, grid, b, grains, n, d);
        assert(box_distance(grid, b, g.center).le_spec(limit));
        lemma_within_place(grid, b, grains, limit, n, k);
        let p = within(grid, b, grains, limit, k as nat).len() as int;
        assert(first_nearest(v, candidates, x, y, p)) by {
            assert forall|i: int| 0 <= i < candidates.len() implies v(
                squared_distance(candidates[p], x, y),
            ) <= v(squared_distance(#[trigger] candidates[i], x, y)) by {
                let j = lemma_within_source(grid, b, grains, limit, n, i);
                assert(candidates[i] == grains[j]);
            }
            assert forall|i: int| 0 <= i < p implies v(squared_distance(candidates[p], x, y)) < v(
                squared_distance(#[trigger] candidates[i], x, y),
            ) by {
                let j = lemma_within_source(grid, b, grains, limit, k as nat, i);
                assert(candidates[i] == grains[j]);
            }
        }
        lemma_first_is_nearest(v, candidates, x, y, p);
    }
}

/// Far from a seed its profile is that of the melt.
proof fn lemma_saturated<T: Real>(
    v: spec_fn(T) -> real,
    grid: &CartesianGrid<T, 2>,
    b: int,
    g: Grain<T>,
    x: T,
    y: T,
)
    requires
        exact(v),
        order_exact(v),
        plane_exact(v),
        saturates(v),
        inside(v, grid, b, x, y),
        !seed_reaches(grid, b, g),
    ensures
        v(profile(g, x, y)) == -(1 as real),
{
    lemma_between(v, grid, b, g, x, y);
    let root = T::from_u64_spec(2).sqrt_spec();
    let gap = x.sub_spec(g.center[0]).hypot_spec(y.sub_spec(g.center[1])).sub_spec(g.radius);
    assert(v(T::from_u64_spec(27)) == 27 as real);
    assert(v(gap) >= 27 as real);
    assert(v(gap.div_spec(root)) * v(root) == v(gap));
    assert(v(gap.div_spec(root).tanh_spec()) == 1 as real);
}

proof fn lemma_solid<T: Real>(
    v: spec_fn(T) -> real,
    grid: &CartesianGrid<T, 2>,
    b: int,
    grains: Seq<Grain<T>>,
    n: nat,
    x: T,
    y: T,
)
    requires
        exact(v),
        order_exact(v),
        plane_exact(v),
        saturates(v),
        inside(v, grid, b, x, y),
        n <= grains.len(),
    ensures
        v(solid_at(reaching(grid, b, grains, n), x, y)) == v(
            solid_at(grains.take(n as int), x, y),
        ),
        v(solid_at(grains.take(n as int), x, y)) >= -(1 as real),
    decreases n,
{
    if n > 0 {
        let m = (n - 1) as nat;
        lemma_solid(v, grid, b, grains, m, x, y);
        let g = grains[m as int];
        let s = grains.take(n as int);
        let rest = reaching(grid, b, grains, m);
        assert(s.drop_last() =~= grains.take(m as int));
        assert(s.last() == g);
        if seed_reaches(grid, b, g) {
            let all = reaching(grid, b, grains, n);
            assert(all.drop_last() =~= rest);
            assert(all.last() == g);
        } else {
            lemma_saturated(v, grid, b, g, x, y);
        }
    }
}

/// In exact arithmetic leaving out the seeds that do not reach a block changes nothing
/// in it, where the hyperbolic tangent saturates: at a point of the block the largest
/// profile of the seeds that do is the largest of all.
pub proof fn skipped_profiles_are_saturated<T: Real>(
    v: spec_fn(T) -> real,
    grid: &CartesianGrid<T, 2>,
    b: int,
    grains: Seq<Grain<T>>,
    x: T,
    y: T,
)
    requires
        exact(v),
        order_exact(v),
        plane_exact(v),
        saturates(v),
        inside(v, grid, b, x, y),
    ensures
        v(solid_at(reaching(grid, b, grains, grains.len()), x, y)) == v(solid_at(grains, x, y)),
{
    lemma_solid(v, grid, b, grains, grains.len(), x, y);
    assert(grains.take(grains.len() as int) =~= grains);
}

/// In exact arithmetic the cell centers of a block lie in its box.
pub proof fn centers_lie_inside<T: Real>(
    v: spec_fn(T) -> real,
    grid: &CartesianGrid<T, 2>,
    b: int,
    idx: Seq<int>,
)
    requires
        exact(v),
        grid.valid(),
        0 <= b < grid.blocks(),
        slab_fits(grid.tile(), 0),
        in_ext(idx, grid.tile()),
        v(grid.step(0)) >= 0 as real,
        v(grid.step(1)) >= 0 as real,
    ensures
        inside(v, grid, b, grid.center_of(b, idx, 0), grid.center_of(b, idx, 1)),
{
    lemma_center(v, grid, b, idx, 0);
    lemma_center(v, grid, b, idx, 1);
}

proof fn lemma_center<T: Real>(
    v: spec_fn(T) -> real,
    grid: &CartesianGrid<T, 2>,
    b: int,
    idx: Seq<int>,
    d: int,
)
    requires
        exact(v),
        grid.valid(),
        slab_fits(grid.tile(), 0),
        in_ext(idx, grid.tile()),
        0 <= d < 2,
        v(grid.step(d)) >= 0 as real,
    ensures
        v(low_edge(grid, b, d)) <= v(grid.center_of(b, idx, d)) <= v(high_edge(grid, b, d)),
{
    let h = v(grid.step(d));
    let o = v(grid.corner(d));
    let base = v(T::from_u64_spec((grid.coords_of(b)[d] * grid.tile()[d]) as u64));
    let half = v(T::half_spec());
    let n = grid.tile()[d];
    crate::geometry::grid::lemma_extent_fits(grid.tile(), 0);
    assert(0 <= idx[d] < n);
    assert(n + 2 * 0 <= isize::MAX);
    let i = idx[d];
    let first = seq![0int, 0int];
    let last = seq![grid.tile()[0] - 1, grid.tile()[1] - 1];
    assert(last[d] == n - 1);
    let (a, m, z) = (i as real, (n - 1) as real, 0 as real);
    assert(v(T::from_i64_spec(i as i64)) == a);
    assert(v(T::from_i64_spec((n - 1) as i64)) == m);
    assert(v(T::from_i64_spec(0i64)) == z);
    assert(v(grid.center_of(b, idx, d)) == (base + a + half) * h + o);
    assert(v(grid.center_of(b, first, d)) == (base + z + half) * h + o);
    assert(v(grid.center_of(b, last, d)) == (base + m + half) * h + o);
    lemma_distributes(h, base + half, a);
    lemma_distributes(h, base + half, m);
    lemma_distributes(h, base + half, z);
    assert(base + a + half == base + half + a);
    assert(base + m + half == base + half + m);
    assert(base + z + half == base + half + z);
    assert(0 as real <= a * h <= m * h && z * h == 0 as real) by (nonlinear_arith)
        requires
            0 as real <= a <= m,
            h >= 0 as real,
            z == 0 as real,
    ;
    assert(half * (-h) <= 0 as real && half * h >= 0 as real) by (nonlinear_arith)
        requires
            half + half == 1 as real,
            h >= 0 as real,
    ;
}

/// Squared distance of a seed's center to a point, over the reals.
pub open spec fn apart<T: Real>(v: spec_fn(T) -> real, g: Grain<T>, x: T, y: T) -> real {
    (v(x) - v(g.center[0])) * (v(x) - v(g.center[0])) + (v(y) - v(g.center[1])) * (v(y) - v(
        g.center[1],
    ))
}

/// In exact arithmetic the orientation at a point is that of the grain whose center is
/// nearest, the first of several: no grain is nearer, and no earlier one as near.
pub proof fn orientations_are_those_of_the_nearest<T: Real>(
    v: spec_fn(T) -> real,
    grains: Seq<Grain<T>>,
    x: T,
    y: T,
) -> (k: int)
    requires
        exact(v),
        powers_exact(v),
        plane_exact(v),
        grains.len() > 0,
    ensures
        0 <= k < grains.len(),
        orientation_at(grains, x, y) == grains[k].orientation,
        forall|i: int|
            0 <= i < grains.len() ==> apart(v, grains[k], x, y) <= apart(
                v,
                #[trigger] grains[i],
                x,
                y,
            ),
        forall|i: int|
            0 <= i < k ==> apart(v, grains[k], x, y) < apart(v, #[trigger] grains[i], x, y),
{
    let k = lemma_some_first(v, grains, x, y);
    lemma_first_is_nearest(v, grains, x, y, k);
    assert forall|i: int| 0 <= i < grains.len() implies v(
        squared_distance(#[trigger] grains[i], x, y),
    ) == apart(v, grains[i], x, y) by {
        lemma_squared(v, grains[i], x, y);
    }
    assert(v(squared_distance(grains[k], x, y)) == apart(v, grains[k], x, y));
    k
}

/// The hyperbolic tangent is that of the reals: a function of the value, zero at zero,
/// odd, and growing.
pub open spec fn tangents_exact<T: Real>(v: spec_fn(T) -> real) -> bool {
    &&& forall|a: T| v(a) == 0 as real ==> #[trigger] v(a.tanh_spec()) == 0 as real
    &&& forall|a: T, b: T|
        v(a) == -v(b) ==> #[trigger] v(a.tanh_spec()) == -(#[trigger] v(b.tanh_spec()))
    &&& forall|a: T, b: T|
        v(a) < v(b) ==> #[trigger] v(a.tanh_spec()) <= #[trigger] v(b.tanh_spec())
    &&& forall|a: T| #[trigger] v(a.tanh_spec()) <= 1 as real
}

/// In exact arithmetic a seed's profile at distance `r` from its center is minus the
/// hyperbolic tangent of how far that is beyond the radius, over the root of two: zero
/// at the radius, not negative inside it, not positive outside.
pub proof fn seeds_are_tangent_profiles<T: Real>(
    v: spec_fn(T) -> real,
    g: Grain<T>,
    x: T,
    y: T,
    r: real,
    root: real,
    a: T,
)
    requires
        exact(v),
        plane_exact(v),
        roots_exact(v),
        tangents_exact(v),
        r >= 0 as real,
        r * r == apart(v, g, x, y),
        root > 0 as real,
        root * root == 2 as real,
        v(a) * root == r - v(g.radius),
    ensures
        v(profile(g, x, y)) == -v(a.tanh_spec()),
        r == v(g.radius) ==> v(profile(g, x, y)) == 0 as real,
        r < v(g.radius) ==> v(profile(g, x, y)) >= 0 as real,
        r > v(g.radius) ==> v(profile(g, x, y)) <= 0 as real,
{
    let d = distance(v, g, x, y);
    lemma_same_square(d, r);
    let two = T::from_u64_spec(2);
    let s = v(two.sqrt_spec());
    lemma_same_square(s, root);
    let beyond = x.sub_spec(g.center[0]).hypot_spec(y.sub_spec(g.center[1])).sub_spec(g.radius);
    let q = beyond.div_spec(two.sqrt_spec());
    assert(v(q) * root == r - v(g.radius));
    lemma_cancels(v(q), v(a), root);
    let opposite = a.neg_spec();
    assert(v(q.tanh_spec()) == -v(opposite.tanh_spec()));
    assert(v(a.tanh_spec()) == -v(opposite.tanh_spec()));
    let zero = T::zero_spec();
    assert(v(zero.tanh_spec()) == 0 as real);
    lemma_sign(v(a), root);
}

proof fn lemma_same_square(a: real, b: real)
    requires
        a >= 0 as real,
        b >= 0 as real,
        a * a == b * b,
    ensures
        a == b,
{
    lemma_roots(a, b);
    lemma_roots(b, a);
}

proof fn lemma_sign(a: real, s: real)
    requires
        s > 0 as real,
    ensures
        a > 0 as real <==> a * s > 0 as real,
        a < 0 as real <==> a * s < 0 as real,
{
    assert(a > 0 as real ==> a * s > 0 as real) by (nonlinear_arith)
        requires
            s > 0 as real,
    ;
    assert(a < 0 as real ==> a * s < 0 as real) by (nonlinear_arith)
        requires
            s > 0 as real,
    ;
    assert(a == 0 as real ==> a * s == 0 as real) by (nonlinear_arith);
}

/// In exact arithmetic the order parameter at a point is the largest of melt and the
/// seeds' profiles: none exceeds it, and it is one of them.
pub proof fn solids_are_the_largest_profile<T: Real>(
    v: spec_fn(T) -> real,
    grains: Seq<Grain<T>>,
    x: T,
    y: T,
)
    requires
        exact(v),
        order_exact(v),
    ensures
        v(solid_at(grains, x, y)) >= -(1 as real),
        forall|i: int|
            0 <= i < grains.len() ==> v(profile(#[trigger] grains[i], x, y)) <= v(
                solid_at(grains, x, y),
            ),
        v(solid_at(grains, x, y)) == -(1 as real) || exists|i: int|
            0 <= i < grains.len() && v(profile(#[trigger] grains[i], x, y)) == v(
                solid_at(grains, x, y),
            ),
    decreases grains.len(),
{
    if grains.len() > 0 {
        let t = grains.drop_last();
        let n = grains.len() - 1;
        solids_are_the_largest_profile(v, t, x, y);
        assert forall|i: int| 0 <= i < grains.len() implies v(
            profile(#[trigger] grains[i], x, y),
        ) <= v(solid_at(grains, x, y)) by {
            if i < n {
                assert(t[i] == grains[i]);
            }
        }
        assert(grains[n] == grains.last());
        if v(solid_at(grains, x, y)) == v(solid_at(t, x, y)) && v(solid_at(t, x, y)) != -(
        1 as real) {
            let i = choose|i: int|
                0 <= i < t.len() && v(profile(#[trigger] t[i], x, y)) == v(solid_at(t, x, y));
            assert(grains[i] == t[i]);
        }
    }
}

/// In exact arithmetic seeding gives every cell what all the grains give its center,
/// though only those near its block are visited: their largest profile as the order
/// parameter, the undercooling as minus the temperature, and with orientations that of
/// the nearest grain.
pub proof fn seeded_cells_see_every_grain<T: Real>(
    v: spec_fn(T) -> real,
    grid: &CartesianGrid<T, 2>,
    b: int,
    fields: Seq<FieldSpec>,
    oriented: bool,
    grains: Seq<Grain<T>>,
    u0: T,
    old: BlockValues<T>,
    f: int,
    o: int,
)
    requires
        exact(v),
        order_exact(v),
        powers_exact(v),
        plane_exact(v),
        saturates(v),
        grid.valid(),
        0 <= b < grid.blocks(),
        slab_fits(grid.tile(), 0),
        v(grid.step(0)) >= 0 as real,
        v(grid.step(1)) >= 0 as real,
        forall|i: int|
            0 <= i < grains.len() ==> v(far_distance(grid, b, (#[trigger] grains[i]).center)) <= v(
                T::largest_spec(),
            ),
        0 <= f < 3,
        f < old.fields.len(),
        f == 2 ==> oriented,
        oriented ==> old.fields.len() >= 3,
        old.fields.len() >= 2,
        0 <= o < old.fields[f].len(),
        in_ext(slab_index(o, grid.tile(), fields[f].halo as int), grid.tile()),
    ensures
        ({
            let idx = slab_index(o, grid.tile(), fields[f].halo as int);
            let (x, y) = (grid.center_of(b, idx, 0), grid.center_of(b, idx, 1));
            let next = seeded_block(grid, b, fields, oriented, grains, u0, old).fields[f][o];
            if f == 0 {
                v(next) == v(solid_at(grains, x, y))
            } else if f == 1 {
                v(next) == -v(u0)
            } else {
                next == orientation_at(grains, x, y)
            }
        }),
{
    let idx = slab_index(o, grid.tile(), fields[f].halo as int);
    let (x, y) = (grid.center_of(b, idx, 0), grid.center_of(b, idx, 1));
    centers_lie_inside(v, grid, b, idx);
    skipped_profiles_are_saturated(v, grid, b, grains, x, y);
    pruning_keeps_the_nearest_grain(v, grid, b, grains, x, y);
}

} // verus!
