//! The stiff part of the value equation transports along the variance axis.
use vstd::prelude::*;

use crate::engine::exact::{exact, order_exact};
use crate::engine::storage::Real;
use crate::geometry::cartesian::CartesianGrid;
use crate::geometry::grid::Grid;
use crate::geometry::index::volume;
use crate::integrators::imex::{dominant, line_len, run_len, solution, stiff_line};
use crate::integrators::monotone::{
    transport_is_dominant, transport_solves_keep_bounds, transport_solves_keep_order, transports,
};
use crate::physics::market_making::{
    fold_high, fold_low, stiff_row, stiff_rows_sum_to_zero, transport_row, HjbMarketMaker,
    MarketMakerParams,
};

verus! {

/// Variance at a position of the line.
pub open spec fn variance_at<T: Real>(grid: &CartesianGrid<T, 1>, i: int) -> T {
    grid.center_of(i / run_len(grid), seq![i % run_len(grid)], 0)
}

/// The variance axis suits the model: at least two cells of positive width, no negative
/// variance, and variance reverts to a level between the outermost cells.
pub open spec fn axis_suits<T: Real>(
    v: spec_fn(T) -> real,
    p: MarketMakerParams<T>,
    grid: &CartesianGrid<T, 1>,
) -> bool {
    &&& grid.valid()
    &&& line_len(grid) >= 2
    &&& v(grid.step(0)) > 0 as real
    &&& v(p.k_speed) >= 0 as real
    &&& forall|i: int| 0 <= i < line_len(grid) ==> v(#[trigger] variance_at(grid, i)) >= 0 as real
    &&& v(variance_at(grid, 0)) <= v(p.theta) <= v(variance_at(grid, line_len(grid) - 1))
}

/// The row of the line is that of its cell.
proof fn lemma_row_of_line<T: Real, P: Sync>(
    model: &HjbMarketMaker<T>,
    grid: &CartesianGrid<T, 1>,
    f: int,
    i: int,
)
    requires
        grid.valid(),
        0 <= i < line_len(grid),
    ensures
        ({
            let c = run_len(grid);
            &&& stiff_line::<T, P, HjbMarketMaker<T>>(model, grid, f)[i] == stiff_row(
                model.setup(),
                grid,
                i / c,
                i % c,
            )
            &&& (i / c) * grid.tile()[0] + i % c == i
        }),
{
    let c = run_len(grid);
    assert(c > 0);
    vstd::arithmetic::div_mod::lemma_fundamental_div_mod(i, c);
    vstd::arithmetic::div_mod::lemma_mod_bound(i, c);
    vstd::arithmetic::mul::lemma_mul_is_commutative(c, i / c);
    let t = grid.tile();
    assert(volume(t) == c) by {
        reveal_with_fuel(volume, 2);
        assert(t.len() == 1);
        assert(t.drop_first().len() == 0);
    }
}

proof fn lemma_signs(k: real, gap: real, inv: real, a: real, b: real, nu: real, w: real)
    requires
        inv > 0 as real,
        nu >= 0 as real,
        w >= 0 as real,
        a == (w * nu) * (inv * inv),
        b == k * gap,
    ensures
        a >= 0 as real,
        b >= 0 as real ==> b * inv >= 0 as real,
        b <= 0 as real ==> b * inv <= 0 as real,
        k >= 0 as real && gap >= 0 as real ==> b >= 0 as real,
        k >= 0 as real && gap <= 0 as real ==> b <= 0 as real,
{
    assert(inv * inv >= 0 as real) by (nonlinear_arith)
        requires
            inv > 0 as real,
    ;
    let m = w * nu;
    assert(m >= 0 as real) by (nonlinear_arith)
        requires
            m == w * nu,
            w >= 0 as real,
            nu >= 0 as real,
    ;
    let s = inv * inv;
    assert(m * s >= 0 as real) by (nonlinear_arith)
        requires
            m >= 0 as real,
            s >= 0 as real,
    ;
    assert(b >= 0 as real ==> b * inv >= 0 as real) by (nonlinear_arith)
        requires
            inv > 0 as real,
    ;
    assert(b <= 0 as real ==> b * inv <= 0 as real) by (nonlinear_arith)
        requires
            inv > 0 as real,
    ;
    assert(k >= 0 as real && gap >= 0 as real ==> k * gap >= 0 as real) by (nonlinear_arith);
    assert(k >= 0 as real && gap <= 0 as real ==> k * gap <= 0 as real) by (nonlinear_arith);
}

/// In exact arithmetic the stiff rows of the value equation are those of a transport
/// operator, the folded rows at the ends of the domain too.
pub proof fn stiff_rows_transport<T: Real, P: Sync>(
    v: spec_fn(T) -> real,
    model: &HjbMarketMaker<T>,
    grid: &CartesianGrid<T, 1>,
    f: int,
    i: int,
)
    requires
        exact(v),
        order_exact(v),
        axis_suits(v, model.setup(), grid),
        0 <= i < line_len(grid),
    ensures
        transports(v, stiff_line::<T, P, HjbMarketMaker<T>>(model, grid, f), i),
{
    let p = model.setup();
    let c = run_len(grid);
    let h = grid.step(0);
    let nu = variance_at(grid, i);
    let inner = transport_row(p, h, nu);
    lemma_row_of_line::<T, P>(model, grid, f, i);
    stiff_rows_sum_to_zero(v, p, grid, i / c, i % c);
    let one = T::one_spec();
    let inv = v(one.div_spec(h));
    assert(inv > 0 as real) by (nonlinear_arith)
        requires
            inv * v(h) == 1 as real,
            v(h) > 0 as real,
    ;
    let sigma2 = p.sigma.mul_spec(p.sigma);
    let s = v(p.sigma);
    let w = v(T::half_spec().mul_spec(sigma2));
    assert(w >= 0 as real) by {
        let half = v(T::half_spec());
        assert(w == half * (s * s));
        assert(s * s >= 0 as real) by (nonlinear_arith);
        let ss = s * s;
        assert(half * ss >= 0 as real) by (nonlinear_arith)
            requires
                half + half == 1 as real,
                ss >= 0 as real,
        ;
    }
    let inv1 = one.div_spec(h);
    let a = v(T::half_spec().mul_spec(sigma2).mul_spec(nu).mul_spec(inv1.mul_spec(inv1)));
    let drift = p.k_speed.mul_spec(p.theta.sub_spec(nu));
    let gap = v(p.theta) - v(nu);
    assert(v(nu) >= 0 as real);
    lemma_signs(v(p.k_speed), gap, inv, a, v(drift), v(nu), w);
    assert(v(inner.0) == a + (if v(drift) <= 0 as real {
        -(v(drift) * inv)
    } else {
        0 as real
    }));
    assert(v(inner.2) == a + (if v(drift) > 0 as real {
        v(drift) * inv
    } else {
        0 as real
    }));
    assert(v(inner.0) >= 0 as real && v(inner.2) >= 0 as real);
    if i == 0 {
        assert(v(nu) <= v(p.theta));
        assert(v(inner.2) >= v(inner.0));
    }
    if i == line_len(grid) - 1 {
        assert(v(p.theta) <= v(nu));
        assert(v(inner.0) >= v(inner.2));
    }
    let low = fold_low(inner);
    let high = fold_high(inner);
    let row = stiff_row(p, grid, i / c, i % c);
    assert(i == 0 ==> row[0] == low.0 && row[2] == low.2);
    assert(i == line_len(grid) - 1 ==> row[0] == high.0 && row[2] == high.2);
}

/// In exact arithmetic the implicit half of the value equation is stable and monotone
/// for every step that is not negative: its matrix is dominant, its solve keeps the
/// order of right-hand sides, and solutions stay within their bounds.
pub proof fn implicit_half_is_stable_and_monotone<T: Real, P: Sync>(
    v: spec_fn(T) -> real,
    model: &HjbMarketMaker<T>,
    grid: &CartesianGrid<T, 1>,
    f: int,
    dt: T,
    below: Seq<T>,
    above: Seq<T>,
    least: real,
    most: real,
    i: int,
)
    requires
        exact(v),
        order_exact(v),
        axis_suits(v, model.setup(), grid),
        v(dt) >= 0 as real,
        below.len() == line_len(grid),
        above.len() == line_len(grid),
        0 <= i < line_len(grid),
        forall|k: int| 0 <= k < below.len() ==> v(#[trigger] below[k]) <= v(above[k]),
        forall|k: int| 0 <= k < below.len() ==> least <= v(#[trigger] below[k]) <= most,
    ensures
        ({
            let rows = stiff_line::<T, P, HjbMarketMaker<T>>(model, grid, f);
            &&& dominant(v, rows, dt, i)
            &&& v(solution(rows, dt, below, i)) <= v(solution(rows, dt, above, i))
            &&& least <= v(solution(rows, dt, below, i)) <= most
        }),
{
    let rows = stiff_line::<T, P, HjbMarketMaker<T>>(model, grid, f);
    assert forall|k: int| 0 <= k < rows.len() implies #[trigger] transports(v, rows, k) by {
        stiff_rows_transport::<T, P>(v, model, grid, f, k);
    }
    transport_is_dominant(v, rows, dt, i);
    transport_solves_keep_order(v, rows, dt, below, above, i);
    transport_solves_keep_bounds(v, rows, dt, below, least, most, i);
}

} // verus!
