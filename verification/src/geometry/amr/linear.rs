//! Prolongation is exact on linear fields.
use vstd::prelude::*;

use crate::engine::exact::{
    exact, lemma_associates, lemma_commutes, lemma_distributes, lemma_negates,
};
use crate::engine::storage::Real;
use crate::geometry::amr::grid::{level_cells, levels_fit, AmrGrid};
use crate::geometry::amr::intergrid::{
    coarse_below, corner_vanishes, corner_weight, donor, fraction, interpolated, on_center, sampled,
    twos,
};
use crate::geometry::index::{delin, in_ext, lemma_lin_delin, lemma_volume_positive, volume};

verus! {

/// The linear function with this offset and these slopes, over the first `n` axes.
pub open spec fn affine(offset: real, slope: Seq<real>, y: Seq<real>, n: nat) -> real
    decreases n,
{
    if n == 0 {
        offset
    } else {
        affine(offset, slope, y, (n - 1) as nat) + slope[n - 1] * y[n - 1]
    }
}

/// A cell's coordinates as reals.
pub open spec fn reals(c: Seq<int>) -> Seq<real> {
    Seq::new(c.len(), |d: int| c[d] as real)
}

/// Where the center of fine cell `x` lies, in coarse cells: a whole number is the
/// center of that coarse cell.
pub open spec fn position<T: Real>(w: spec_fn(T) -> real, x: Seq<int>, r: int) -> Seq<real> {
    Seq::new(x.len(), |d: int| coarse_below(x[d], r) as real + w(fraction::<T>(x[d], r)))
}

/// A corner's weight: the product over the first `n` axes.
spec fn weight(f: Seq<real>, o: Seq<int>, n: nat) -> real
    decreases n,
{
    if n == 0 {
        1 as real
    } else {
        weight(f, o, (n - 1) as nat) * (if o[n - 1] == 1 {
            f[n - 1]
        } else {
            1 as real - f[n - 1]
        })
    }
}

/// The weighted sum of a linear function over the first `k` corners.
spec fn blend(f: Seq<real>, offset: real, slope: Seq<real>, n: nat, k: nat) -> real
    decreases k,
{
    if k == 0 {
        0 as real
    } else {
        let o = delin(k - 1, twos(n));
        blend(f, offset, slope, n, (k - 1) as nat) + weight(f, o, n) * affine(
            offset,
            slope,
            reals(o),
            n,
        )
    }
}

proof fn lemma_corners(n: nat)
    ensures
        volume(twos(n)) >= 1,
        volume(twos(n + 1)) == 2 * volume(twos(n)),
        twos(n + 1).drop_first() == twos(n),
{
    assert(twos(n + 1).drop_first() =~= twos(n));
    lemma_volume_positive(twos(n));
}

/// The last axis of a corner is the slowest.
proof fn lemma_corner_halves(n: nat, k: int)
    requires
        0 <= k < volume(twos(n)),
    ensures
        delin(k, twos(n + 1)) == delin(k, twos(n)).push(0),
        delin(volume(twos(n)) + k, twos(n + 1)) == delin(k, twos(n)).push(1),
    decreases n,
{
    lemma_corners(n);
    let m = volume(twos(n));
    reveal_with_fuel(delin, 2);
    if n == 0 {
        assert(k == 0 && m == 1);
        assert(twos(1).drop_first().len() == 0);
        assert(delin(0, twos(1)) =~= seq![0int]);
        assert(delin(1, twos(1)) =~= seq![1int]);
        assert(delin(0, twos(0)).push(0) =~= seq![0int]);
        assert(delin(0, twos(0)).push(1) =~= seq![1int]);
    } else {
        let p = (n - 1) as nat;
        lemma_corners(p);
        let half = volume(twos(p));
        assert(m == 2 * half);
        let q = k / 2;
        assert((m + k) / 2 == half + q && (m + k) % 2 == k % 2);
        lemma_corner_halves(p, q);
        assert(twos(n + 1)[0] == 2 && twos(n)[0] == 2);
        assert(delin(k, twos(n + 1)) == seq![k % 2] + delin(q, twos(n)));
        assert(delin(k, twos(n)) == seq![k % 2] + delin(q, twos(p)));
        assert(delin(m + k, twos(n + 1)) == seq![(m + k) % 2] + delin(half + q, twos(n)));
        assert(delin(k, twos(n + 1)) =~= delin(k, twos(n)).push(0));
        assert(delin(m + k, twos(n + 1)) =~= delin(k, twos(n)).push(1));
    }
}

proof fn lemma_weight_prefix(f: Seq<real>, a: Seq<int>, b: Seq<int>, n: nat)
    requires
        forall|d: int| 0 <= d < n ==> #[trigger] a[d] == b[d],
    ensures
        weight(f, a, n) == weight(f, b, n),
    decreases n,
{
    if n > 0 {
        lemma_weight_prefix(f, a, b, (n - 1) as nat);
        assert(a[n - 1] == b[n - 1]);
    }
}

/// A linear function of coordinates that agree; a shift of the offset adds up.
proof fn lemma_affine_prefix(
    offset: real,
    shift: real,
    slope: Seq<real>,
    a: Seq<real>,
    b: Seq<real>,
    n: nat,
)
    requires
        forall|d: int| 0 <= d < n ==> #[trigger] a[d] == b[d],
    ensures
        affine(offset + shift, slope, a, n) == affine(offset, slope, b, n) + shift,
    decreases n,
{
    if n > 0 {
        lemma_affine_prefix(offset, shift, slope, a, b, (n - 1) as nat);
        assert(a[n - 1] == b[n - 1]);
    }
}

/// Adding the coordinates adds the linear function, up to the offset.
proof fn lemma_affine_sum(
    offset: real,
    slope: Seq<real>,
    a: Seq<real>,
    b: Seq<real>,
    c: Seq<real>,
    n: nat,
)
    requires
        forall|d: int| 0 <= d < n ==> #[trigger] c[d] == a[d] + b[d],
    ensures
        affine(offset, slope, c, n) == affine(affine(offset, slope, a, n), slope, b, n),
    decreases n,
{
    if n > 0 {
        let p = (n - 1) as nat;
        lemma_affine_sum(offset, slope, a, b, c, p);
        assert(c[n - 1] == a[n - 1] + b[n - 1]);
        lemma_distributes(slope[n - 1], a[n - 1], b[n - 1]);
        lemma_affine_prefix(
            affine(offset, slope, a, p),
            slope[n - 1] * a[n - 1],
            slope,
            b,
            b,
            p,
        );
    }
}

/// The corners with a zero on the last axis.
proof fn lemma_near_half(f: Seq<real>, offset: real, slope: Seq<real>, n: nat, k: nat)
    requires
        k <= volume(twos(n)),
    ensures
        blend(f, offset, slope, n + 1, k) == (1 as real - f[n as int]) * blend(
            f,
            offset,
            slope,
            n,
            k,
        ),
    decreases k,
{
    let far = 1 as real - f[n as int];
    if k == 0 {
        assert(far * (0 as real) == 0 as real) by (nonlinear_arith);
    } else {
        let j = k - 1;
        lemma_near_half(f, offset, slope, n, j as nat);
        lemma_corner_halves(n, j);
        lemma_lin_delin(j, twos(n));
        let o = delin(j, twos(n));
        let u = delin(j, twos(n + 1));
        assert(o.len() == n && u.len() == n + 1);
        assert forall|d: int| 0 <= d < n implies #[trigger] u[d] == o[d] by {}
        lemma_weight_prefix(f, u, o, n);
        lemma_affine_prefix(offset, 0 as real, slope, reals(u), reals(o), n);
        assert(u[n as int] == 0);
        let a = weight(f, o, n);
        let b = affine(offset, slope, reals(o), n);
        assert(slope[n as int] * (0 as real) == 0 as real) by (nonlinear_arith);
        assert(reals(u)[n as int] == 0 as real);
        assert(offset + 0 as real == offset);
        assert(affine(offset, slope, reals(u), n + 1) == b);
        assert(weight(f, u, n + 1) == a * far);
        lemma_commutes(a, far);
        lemma_associates(far, a, b);
        lemma_distributes(far, blend(f, offset, slope, n, j as nat), a * b);
    }
}

/// The corners with a one on the last axis.
proof fn lemma_far_half(f: Seq<real>, offset: real, slope: Seq<real>, n: nat, k: nat)
    requires
        k <= volume(twos(n)),
    ensures
        blend(f, offset, slope, n + 1, (volume(twos(n)) + k) as nat) == blend(
            f,
            offset,
            slope,
            n + 1,
            volume(twos(n)) as nat,
        ) + f[n as int] * blend(f, offset + slope[n as int], slope, n, k),
    decreases k,
{
    let near = f[n as int];
    let s = slope[n as int];
    let m = volume(twos(n));
    lemma_corners(n);
    if k == 0 {
        assert(near * (0 as real) == 0 as real) by (nonlinear_arith);
    } else {
        let j = k - 1;
        lemma_far_half(f, offset, slope, n, j as nat);
        lemma_corner_halves(n, j);
        lemma_lin_delin(j, twos(n));
        let o = delin(j, twos(n));
        let u = delin(m + j, twos(n + 1));
        assert(o.len() == n && u.len() == n + 1);
        assert forall|d: int| 0 <= d < n implies #[trigger] u[d] == o[d] by {}
        lemma_weight_prefix(f, u, o, n);
        assert forall|d: int| 0 <= d < n implies #[trigger] reals(o)[d] == reals(u)[d] by {
            assert(u[d] == o[d]);
        }
        lemma_affine_prefix(offset, s, slope, reals(o), reals(u), n);
        assert(u[n as int] == 1);
        let a = weight(f, o, n);
        let b = affine(offset + s, slope, reals(o), n);
        assert(s * (1 as real) == s) by (nonlinear_arith);
        assert(reals(u)[n as int] == 1 as real);
        assert(affine(offset, slope, reals(u), n + 1) == b);
        assert(weight(f, u, n + 1) == a * near);
        lemma_commutes(a, near);
        lemma_associates(near, a, b);
        lemma_distributes(near, blend(f, offset + s, slope, n, j as nat), a * b);
        assert((m + k - 1) as nat == (m + j) as nat);
        assert(delin((m + k) as nat - 1, twos(n + 1)) == u);
    }
}

/// Multilinear interpolation of a linear function is the function.
proof fn lemma_blend(f: Seq<real>, offset: real, slope: Seq<real>, n: nat)
    ensures
        blend(f, offset, slope, n, volume(twos(n)) as nat) == affine(offset, slope, f, n),
    decreases n,
{
    if n == 0 {
        assert(volume(twos(0)) == 1);
        reveal_with_fuel(blend, 2);
        assert((1 as real) * offset == offset) by (nonlinear_arith);
    } else {
        let p = (n - 1) as nat;
        lemma_corners(p);
        let m = volume(twos(p)) as nat;
        let x = f[p as int];
        let s = slope[p as int];
        lemma_blend(f, offset, slope, p);
        lemma_blend(f, offset + s, slope, p);
        lemma_near_half(f, offset, slope, p, m);
        lemma_far_half(f, offset, slope, p, m);
        lemma_affine_prefix(offset, s, slope, f, f, p);
        let b = affine(offset, slope, f, p);
        assert((m + m) as nat == volume(twos(n)) as nat);
        assert((1 as real - x) * b == b - x * b) by {
            lemma_distributes(b, 1 as real, -x);
            lemma_negates(x, b);
            assert(1 as real * b == b) by (nonlinear_arith);
        }
        lemma_distributes(x, b, s);
        lemma_commutes(x, s);
    }
}

/// Where the center of a fine cell lies between two coarse centers.
proof fn lemma_fraction<T: Real>(w: spec_fn(T) -> real, x: int, r: int)
    requires
        exact(w),
        2 <= r <= u64::MAX,
        0 <= x <= i64::MAX,
    ensures
        2 as real * (r as real * (coarse_below(x, r) as real + w(fraction::<T>(x, r)))) == (2 * x
            + 1 - r) as real,
        on_center(x, r) ==> w(fraction::<T>(x, r)) == 0 as real,
{
    let n = r as real;
    let half = w(T::half_spec());
    let c = coarse_below(x, r);
    let top = T::from_i64_spec(x as i64).add_spec(T::half_spec());
    let q = w(top.div_spec(T::from_u64_spec(r as u64)));
    vstd::arithmetic::div_mod::lemma_fundamental_div_mod(x, r);
    vstd::arithmetic::div_mod::lemma_mod_bound(x, r);
    assert(-1 <= c <= x) by (nonlinear_arith)
        requires
            x == r * (x / r) + x % r,
            0 <= x % r < r,
            r >= 2,
            x >= 0,
            c == x / r || c == x / r - 1,
    ;
    assert(w(T::from_u64_spec(r as u64)) == n);
    assert(n != 0 as real);
    assert(q * n == x as real + half);
    let f = w(fraction::<T>(x, r));
    assert(f == q - half - c as real);
    let z = c as real + f;
    assert(z == q - half);
    lemma_distributes(n, q, -half);
    lemma_negates(n, half);
    lemma_commutes(q, n);
    assert(n * half + n * half == n) by {
        lemma_distributes(n, half, half);
        assert(n * (1 as real) == n) by (nonlinear_arith);
    }
    if on_center(x, r) {
        assert(2 * x + 1 - r == 2 * (r * c));
        assert((r * c) as real == n * (c as real)) by (nonlinear_arith)
            requires
                n == r as real,
        ;
        lemma_distributes(n, c as real, f);
        assert(f == 0 as real) by (nonlinear_arith)
            requires
                n * f == 0 as real,
                n != 0 as real,
        ;
    }
}

/// A corner's weight, interpreted.
proof fn lemma_corner_weight<T: Real>(
    w: spec_fn(T) -> real,
    x: Seq<int>,
    r: int,
    o: Seq<int>,
    f: Seq<real>,
    n: nat,
)
    requires
        exact(w),
        n <= x.len(),
        f.len() == x.len(),
        forall|d: int| 0 <= d < x.len() ==> #[trigger] f[d] == w(fraction::<T>(x[d], r)),
    ensures
        w(corner_weight::<T>(x, r, o, n)) == weight(f, o, n),
    decreases n,
{
    if n > 0 {
        lemma_corner_weight(w, x, r, o, f, (n - 1) as nat);
        assert(f[n - 1] == w(fraction::<T>(x[n - 1], r)));
    }
}

/// A weight with a vanishing factor vanishes.
proof fn lemma_weight_vanishes(f: Seq<real>, o: Seq<int>, n: nat, d: int)
    requires
        0 <= d < n,
        o[d] == 1,
        f[d] == 0 as real,
    ensures
        weight(f, o, n) == 0 as real,
    decreases n,
{
    let p = (n - 1) as nat;
    let a = weight(f, o, p);
    if d == p {
        assert(a * (0 as real) == 0 as real) by (nonlinear_arith);
    } else {
        lemma_weight_vanishes(f, o, p, d);
        let b = if o[p as int] == 1 {
            f[p as int]
        } else {
            1 as real - f[p as int]
        };
        assert(a * b == 0 as real) by (nonlinear_arith)
            requires
                a == 0 as real,
        ;
    }
}

/// A corner: zero or one along every axis.
pub open spec fn is_corner(o: Seq<int>, n: nat) -> bool {
    o.len() == n && forall|d: int| 0 <= d < n ==> (#[trigger] o[d] == 0 || o[d] == 1)
}

/// Every coarse cell that prolongation reads at `x` lies inside the domain and holds
/// the linear function's value at its center.
pub open spec fn donors_are_linear<R: Real, T: Real, const D: usize>(
    w: spec_fn(T) -> real,
    grid: &AmrGrid<R, D>,
    g: int,
    v: Seq<Seq<T>>,
    level: nat,
    x: Seq<int>,
    offset: real,
    slope: Seq<real>,
) -> bool {
    let r = grid.ratio_list()[level - 1] as int;
    let cells = grid.cells_at(level - 1);
    forall|o: Seq<int>| #[trigger]
        is_corner(o, D as nat) && !corner_vanishes(x, r, o) ==> {
            let c = Seq::new(D as nat, |d: int| coarse_below(x[d], r) + o[d]);
            &&& in_ext(c, cells)
            &&& w(sampled(grid, g, v, (level - 1) as nat, c)) == affine(
                offset,
                slope,
                reals(c),
                D as nat,
            )
        }
}

/// In exact arithmetic prolongation reproduces linear fields: where the coarse cells it
/// reads hold a linear function at their centers, the fine cell gets the function's
/// value at its own center.
pub proof fn prolongation_reproduces_linear_fields<R: Real, T: Real, const D: usize>(
    w: spec_fn(T) -> real,
    grid: &AmrGrid<R, D>,
    g: int,
    v: Seq<Seq<T>>,
    level: nat,
    x: Seq<int>,
    offset: real,
    slope: Seq<real>,
)
    requires
        exact(w),
        grid.sound(),
        0 < level <= grid.ratio_list().len(),
        levels_fit(grid.base_grid().domain(), grid.ratio_list(), level),
        in_ext(x, grid.cells_at(level as int)),
        donors_are_linear(w, grid, g, v, level, x, offset, slope),
    ensures
        w(interpolated(grid, g, v, level, x, volume(twos(D as nat)) as nat)) == affine(
            offset,
            slope,
            position(w, x, grid.ratio_list()[level - 1] as int),
            D as nat,
        ),
        forall|d: int|
            0 <= d < D ==> 2 as real * (grid.ratio_list()[level - 1] as int as real
                * #[trigger] position(w, x, grid.ratio_list()[level - 1] as int)[d]) == (2 * x[d]
                + 1 - grid.ratio_list()[level - 1]) as real,
{
    let r = grid.ratio_list()[level - 1] as int;
    let n = D as nat;
    let f = Seq::new(n, |d: int| w(fraction::<T>(x[d], r)));
    let low = Seq::new(n, |d: int| coarse_below(x[d], r) as real);
    let base = affine(offset, slope, low, n);
    assert(grid.ratio_list()[level - 1] >= 2);
    assert forall|d: int| 0 <= d < D implies 0 <= #[trigger] x[d] <= i64::MAX by {
        assert(0 <= x[d] < grid.cells_at(level as int)[d]);
        assert(level_cells(grid.base_grid().domain(), grid.ratio_list(), level)[d]
            + 0x1_0000_0000 <= i64::MAX);
    }
    assert forall|d: int| 0 <= d < D implies 2 as real * (r as real * #[trigger] position(
        w,
        x,
        r,
    )[d]) == (2 * x[d] + 1 - r) as real by {
        assert(0 <= x[d] <= i64::MAX);
        lemma_fraction(w, x[d], r);
    }
    lemma_corners(n);
    lemma_blended_corners(w, grid, g, v, level, x, offset, slope, f, volume(twos(n)) as nat);
    lemma_blend(f, base, slope, n);
    lemma_affine_sum(offset, slope, low, f, position(w, x, r), n);
}

/// The first `k` corners of an interpolation, interpreted.
proof fn lemma_blended_corners<R: Real, T: Real, const D: usize>(
    w: spec_fn(T) -> real,
    grid: &AmrGrid<R, D>,
    g: int,
    v: Seq<Seq<T>>,
    level: nat,
    x: Seq<int>,
    offset: real,
    slope: Seq<real>,
    f: Seq<real>,
    k: nat,
)
    requires
        exact(w),
        0 < level <= grid.ratio_list().len(),
        2 <= grid.ratio_list()[level - 1],
        x.len() == D,
        forall|d: int| 0 <= d < D ==> 0 <= #[trigger] x[d] <= i64::MAX,
        f == Seq::new(
            D as nat,
            |d: int| w(fraction::<T>(x[d], grid.ratio_list()[level - 1] as int)),
        ),
        donors_are_linear(w, grid, g, v, level, x, offset, slope),
        k <= volume(twos(D as nat)),
    ensures
        w(interpolated(grid, g, v, level, x, k)) == blend(
            f,
            affine(
                offset,
                slope,
                Seq::new(
                    D as nat,
                    |d: int| coarse_below(x[d], grid.ratio_list()[level - 1] as int) as real,
                ),
                D as nat,
            ),
            slope,
            D as nat,
            k,
        ),
    decreases k,
{
    let r = grid.ratio_list()[level - 1] as int;
    let n = D as nat;
    let low = Seq::new(n, |d: int| coarse_below(x[d], r) as real);
    let base = affine(offset, slope, low, n);
    if k > 0 {
        let j = k - 1;
        lemma_blended_corners(w, grid, g, v, level, x, offset, slope, f, j as nat);
        let o = delin(j, twos(n));
        lemma_lin_delin(j, twos(n));
        assert(is_corner(o, n)) by {
            assert forall|d: int| 0 <= d < n implies (#[trigger] o[d] == 0 || o[d] == 1) by {
                assert(0 <= o[d] < twos(n)[d]);
            }
        }
        assert forall|d: int| 0 <= d < x.len() implies #[trigger] f[d] == w(
            fraction::<T>(x[d], r),
        ) by {}
        lemma_corner_weight(w, x, r, o, f, n);
        if corner_vanishes(x, r, o) {
            let d = choose|d: int|
                0 <= d < x.len() && #[trigger] o[d] == 1 && on_center(x[d], r);
            assert(0 <= x[d] <= i64::MAX);
            lemma_fraction(w, x[d], r);
            assert(f[d] == w(fraction::<T>(x[d], r)));
            lemma_weight_vanishes(f, o, n, d);
            let a = affine(base, slope, reals(o), n);
            assert((0 as real) * a == 0 as real) by (nonlinear_arith);
        } else {
            let cells = grid.cells_at(level - 1);
            let c = Seq::new(n, |d: int| coarse_below(x[d], r) + o[d]);
            assert(in_ext(c, cells));
            assert(donor(x, r, o, cells) =~= c) by {
                assert forall|d: int| 0 <= d < n implies donor(x, r, o, cells)[d] == #[trigger] c[
                    d] by {
                    assert(0 <= c[d] < cells[d]);
                }
            }
            assert forall|d: int| 0 <= d < n implies #[trigger] reals(c)[d] == low[d] + reals(
                o,
            )[d] by {}
            lemma_affine_sum(offset, slope, low, reals(o), reals(c), n);
            lemma_commutes(affine(base, slope, reals(o), n), weight(f, o, n));
        }
    }
}

} // verus!
