//! How single paths move: variance, price, inventory and cash of one cell.
use vstd::prelude::*;

use crate::engine::driver::Driver;
use crate::engine::exact::{
    exact, lemma_associates, lemma_commutes, lemma_distributes, lemma_negates, lemma_products,
    order_exact, roots_exact,
};
use crate::engine::state::{BlockValues, FieldSpec};
use crate::engine::storage::Real;
use crate::geometry::cartesian::CartesianGrid;
use crate::geometry::grid::{slab_index, Grid};
use crate::geometry::index::in_ext;
use crate::physics::inventory::lemma_line_offset;
use crate::physics::market_making::{
    channel_depth, flat_book, level_name, liquidated, MarketMakerParams, MarketMakingEnsemble,
};
use crate::physics::model::Model;
use crate::physics::paths::volatility;
use crate::physics::quoting::{larger, penalty_growth};
use crate::physics::stochastic_vol::{started, StochVolPaths};
use crate::util::text::{decimal, decimals_are_digits, decimals_read_back};

verus! {

/// What a driver writes for the variance (field 0) and the price (field 1) of the path
/// at offset `o`, whose variance is `nu`: `next` from `out`.
///
/// The clock pulls the variance toward `theta` at rate `speed` and moves the price by
/// `mu`. The first Wiener process moves the variance alone, with a squared amplitude of
/// `sigma^2 nu`; any other moves the price alone, with a squared amplitude of `nu`.
/// A negative variance counts as zero.
pub open spec fn moves_as_a_path<T: Real>(
    v: spec_fn(T) -> real,
    mu: T,
    speed: T,
    theta: T,
    sigma: T,
    driver: Driver,
    nu: T,
    out: BlockValues<T>,
    next: BlockValues<T>,
    o: int,
) -> bool {
    let variance = larger(v(nu), 0 as real);
    match driver {
        Driver::Time => {
            &&& v(next.fields[0][o]) == v(speed) * (v(theta) - variance)
            &&& v(next.fields[1][o]) == v(mu)
        },
        Driver::Wiener(j) => if j == 0 {
            let a = v(next.fields[0][o]);
            &&& a * a == (v(sigma) * v(sigma)) * variance
            &&& v(sigma) >= 0 as real ==> a >= 0 as real
            &&& v(sigma) <= 0 as real ==> a <= 0 as real
            &&& next.fields[1] == out.fields[1]
        } else {
            let a = v(next.fields[1][o]);
            &&& a * a == variance
            &&& a >= 0 as real
            &&& next.fields[0] == out.fields[0]
        },
        Driver::Jump(_) => {
            &&& next.fields[0] == out.fields[0]
            &&& next.fields[1] == out.fields[1]
        },
    }
}

proof fn lemma_volatility<T: Real>(v: spec_fn(T) -> real, sigma: T, nu: T)
    requires
        exact(v),
        order_exact(v),
        roots_exact(v),
    ensures
        ({
            let variance = larger(v(nu), 0 as real);
            let root = v(volatility(nu));
            let a = v(sigma.mul_spec(volatility(nu)));
            &&& root >= 0 as real
            &&& root * root == variance
            &&& a * a == (v(sigma) * v(sigma)) * variance
            &&& v(sigma) >= 0 as real ==> a >= 0 as real
            &&& v(sigma) <= 0 as real ==> a <= 0 as real
        }),
{
    let floor = nu.max_spec(T::zero_spec());
    assert(v(floor) == larger(v(nu), 0 as real));
    let root = v(floor.sqrt_spec());
    let s = v(sigma);
    lemma_products(s, root, s, root);
    assert(s >= 0 as real ==> s * root >= 0 as real) by (nonlinear_arith)
        requires
            root >= 0 as real,
    ;
    assert(s <= 0 as real ==> s * root <= 0 as real) by (nonlinear_arith)
        requires
            root >= 0 as real,
    ;
}

/// In exact arithmetic every path of a stochastic-volatility ensemble moves by its
/// equation: `d nu = k (theta - nu) dt + sigma sqrt(nu) dW1`, `d S = mu dt + sqrt(nu) dW2`.
pub proof fn volatility_paths_obey_their_equation<T: Real, P: Sync>(
    v: spec_fn(T) -> real,
    model: &StochVolPaths<T>,
    driver: Driver,
    grid: &CartesianGrid<T, 1>,
    disc: &P,
    t: T,
    b: int,
    fields: Seq<FieldSpec>,
    values: Seq<BlockValues<T>>,
    out: BlockValues<T>,
    o: int,
)
    requires
        exact(v),
        order_exact(v),
        roots_exact(v),
        grid.valid(),
        0 <= o < grid.tile()[0],
        out.fields.len() == 2,
        driver == Driver::Time || driver == Driver::Wiener(0) ==> out.fields[0].len()
            == grid.tile()[0],
        driver == Driver::Time || driver == Driver::Wiener(1) ==> out.fields[1].len()
            == grid.tile()[0],
        driver is Wiener ==> driver->Wiener_0 < 2,
    ensures
        ({
            let p = model.setup();
            let next = model.vector_field(driver, grid, disc, t, b, fields, values, out);
            &&& moves_as_a_path(
                v,
                p.mu,
                p.k_speed,
                p.theta,
                p.sigma,
                driver,
                values[b].fields[0][o],
                out,
                next,
                o,
            )
            &&& next.rate == out.rate
        }),
{
    let p = model.setup();
    let nu = values[b].fields[0][o];
    lemma_line_offset(grid.tile(), o);
    lemma_volatility(v, p.sigma, nu);
    let next = model.vector_field(driver, grid, disc, t, b, fields, values, out);
    match driver {
        Driver::Time => {
            assert(next.fields[1][o] == p.mu);
        },
        Driver::Wiener(j) => {
            if j == 0 {
                assert(next.fields[0][o] == p.sigma.mul_spec(volatility(nu)));
            } else {
                assert(next.fields[1][o] == volatility(nu));
            }
        },
        Driver::Jump(_) => {},
    }
}

/// What a fill channel writes for the inventory (field 2) and the cash (field 3) of the
/// path at offset `o`, and its intensity there: `next` from `out`.
///
/// Channel 0 is the bid: a fill buys one unit at the price less the depth. Channel 1 is
/// the ask: a fill sells one unit at the price plus the depth. Either way the fill earns
/// the depth over the price. No cash is written for a withdrawn quote.
pub open spec fn fills_as_quoted<T: Real>(
    v: spec_fn(T) -> real,
    p: MarketMakerParams<T>,
    channel: usize,
    quote: (T, T),
    mid: T,
    out: BlockValues<T>,
    next: BlockValues<T>,
    o: int,
) -> bool {
    let units = v(next.fields[2][o]);
    let cash = v(next.fields[3][o]);
    let (depth, side) = if channel == 0 {
        (quote.0, p.buy)
    } else {
        (quote.1, p.sell)
    };
    &&& units == (if channel == 0 {
        1 as real
    } else {
        -(1 as real)
    })
    &&& if depth.is_finite_spec() {
        units * v(mid) + cash == v(depth)
    } else {
        next.fields[3][o] == out.fields[3][o]
    }
    &&& next.rate[o] == side.rate_at(depth)
}

/// In exact arithmetic every path of the controlled ensemble moves by its equation:
/// variance and price as in the plain ensemble, inventory and cash by fills at the
/// quotes looked up for the remaining time, the variance and the inventory.
pub proof fn controlled_paths_obey_their_equation<T: Real, P: Sync>(
    v: spec_fn(T) -> real,
    model: &MarketMakingEnsemble<T>,
    driver: Driver,
    grid: &CartesianGrid<T, 1>,
    disc: &P,
    t: T,
    b: int,
    fields: Seq<FieldSpec>,
    values: Seq<BlockValues<T>>,
    out: BlockValues<T>,
    o: int,
)
    requires
        exact(v),
        order_exact(v),
        roots_exact(v),
        grid.valid(),
        0 <= o < grid.tile()[0],
        out.fields.len() == 4,
        driver == Driver::Time || driver == Driver::Wiener(0) ==> out.fields[0].len()
            == grid.tile()[0],
        driver == Driver::Time || driver == Driver::Wiener(1) ==> out.fields[1].len()
            == grid.tile()[0],
        driver is Jump ==> out.fields[2].len() == grid.tile()[0] && out.fields[3].len()
            == grid.tile()[0] && out.rate.len() == grid.tile()[0],
        driver is Wiener ==> driver->Wiener_0 < 2,
        driver is Jump ==> driver->Jump_0 < 2,
    ensures
        ({
            let p = model.setup();
            let next = model.vector_field(driver, grid, disc, t, b, fields, values, out);
            let nu = values[b].fields[0][o];
            let mid = values[b].fields[1][o];
            let inv = values[b].fields[2][o];
            &&& moves_as_a_path(
                v,
                p.mu,
                p.k_speed,
                p.theta,
                p.sigma,
                driver,
                nu,
                out,
                next,
                o,
            )
            &&& match driver {
                Driver::Jump(channel) => fills_as_quoted(
                    v,
                    p,
                    channel,
                    model.quotes().quoted(
                        model.end().sub_spec(t),
                        nu,
                        inv.round_spec().to_i64_spec() as int,
                    ),
                    mid,
                    out,
                    next,
                    o,
                ),
                _ => next.fields[2] == out.fields[2] && next.fields[3] == out.fields[3]
                    && next.rate == out.rate,
            }
        }),
{
    let p = model.setup();
    let nu = values[b].fields[0][o];
    let mid = values[b].fields[1][o];
    let inv = values[b].fields[2][o];
    lemma_line_offset(grid.tile(), o);
    lemma_volatility(v, p.sigma, nu);
    let next = model.vector_field(driver, grid, disc, t, b, fields, values, out);
    match driver {
        Driver::Time => {
            assert(next.fields[1][o] == p.mu);
        },
        Driver::Wiener(j) => {
            if j == 0 {
                assert(next.fields[0][o] == p.sigma.mul_spec(volatility(nu)));
            } else {
                assert(next.fields[1][o] == volatility(nu));
            }
        },
        Driver::Jump(channel) => {
            let tau = model.end().sub_spec(t);
            let depth = channel_depth(&model.quotes(), tau, channel, nu, inv);
            let unit = next.fields[2][o];
            assert(v(T::one_spec()) == 1 as real && v(T::one_spec().neg_spec()) == -(1 as real));
            if depth.is_finite_spec() {
                assert(next.fields[3][o] == unit.mul_add_spec(mid.neg_spec(), depth));
                lemma_negates(v(unit), v(mid));
            }
        },
    }
}

/// In exact arithmetic terminal wealth is the cash and what the inventory fetches at the
/// midprice less the liquidation penalty: an empty book is worth its cash, cash counts
/// one for one, and from one whole inventory to another the wealth changes by the
/// midprice of the units between them less what the penalty grows by.
pub proof fn wealth_is_marked_to_market<T: Real>(
    v: spec_fn(T) -> real,
    p: MarketMakerParams<T>,
    cash: T,
    more: T,
    inv: T,
    other: T,
    mid: T,
    q: int,
    r: int,
)
    requires
        exact(v),
        v(inv) == q as real,
        v(other) == r as real,
    ensures
        q == 0 ==> v(liquidated(p, cash, inv, mid)) == v(cash),
        v(liquidated(p, more, inv, mid)) - v(liquidated(p, cash, inv, mid)) == v(more) - v(cash),
        v(liquidated(p, cash, other, mid)) - v(liquidated(p, cash, inv, mid)) == (r - q) as real
            * v(mid) - penalty_growth(v(p.alpha), q, r),
{
    let a = v(p.alpha);
    let m = v(mid);
    let (x, y) = (q as real, r as real);
    assert((a * x) * (-x) == -(a * (x * x)) && (a * y) * (-y) == -(a * (y * y))) by {
        lemma_negates(a * x, x);
        lemma_negates(a * y, y);
        lemma_associates(a, x, x);
        lemma_associates(a, y, y);
    }
    assert((q * q) as real == x * x) by (nonlinear_arith)
        requires
            x == q as real,
    ;
    assert((r * r) as real == y * y) by (nonlinear_arith)
        requires
            y == r as real,
    ;
    assert((r * r - q * q) as real == y * y - x * x);
    lemma_distributes(a, y * y, -(x * x));
    lemma_negates(a, x * x);
    lemma_distributes(m, y, -x);
    lemma_negates(x, m);
    lemma_commutes(m, y - x);
    assert(0 as real * m == 0 as real && a * (0 as real * (0 as real)) == 0 as real)
        by (nonlinear_arith);
}

/// The offset `o` of a field without ghosts, over a whole block.
proof fn lemma_cells_of_a_line<T: Real>(grid: &CartesianGrid<T, 1>, b: int, o: int)
    requires
        grid.valid(),
        0 <= o < grid.tile()[0],
    ensures
        slab_index(o, grid.extent_of(b), 0) == seq![o],
        in_ext(seq![o], grid.extent_of(b)),
{
    lemma_line_offset(grid.tile(), o);
}

/// In exact arithmetic the projection after a step keeps variances from being negative:
/// a path below zero is put back to zero, any other keeps its variance, and nothing else
/// of any path is touched. So in both ensembles.
pub proof fn projections_floor_the_variance<T: Real, P: Sync>(
    v: spec_fn(T) -> real,
    plain: &StochVolPaths<T>,
    controlled: &MarketMakingEnsemble<T>,
    grid: &CartesianGrid<T, 1>,
    fields: Seq<FieldSpec>,
    values: Seq<BlockValues<T>>,
    b: int,
    f: int,
    o: int,
)
    requires
        exact(v),
        order_exact(v),
        grid.valid(),
        fields.len() > 0,
        fields[0].halo == 0,
        0 <= b < values.len(),
        values[b].fields.len() == fields.len(),
        values[b].fields[0].len() == grid.tile()[0],
        0 <= f < fields.len(),
        0 <= o < grid.tile()[0],
    ensures
        ({
            let x = Model::<T, CartesianGrid<T, 1>, P, 1>::projected(plain, grid, fields, values);
            let y = Model::<T, CartesianGrid<T, 1>, P, 1>::projected(
                controlled,
                grid,
                fields,
                values,
            );
            &&& x == y
            &&& if f == 0 {
                v(x[b].fields[0][o]) == larger(v(values[b].fields[0][o]), 0 as real)
            } else {
                x[b].fields[f] == values[b].fields[f]
            }
        }),
{
    lemma_cells_of_a_line(grid, b, o);
}

/// A path ensemble starts with every path at the given variance and price, and nothing
/// else of it touched; a book starts with neither inventory nor cash.
pub proof fn paths_start_alike<T: Real>(
    grid: &CartesianGrid<T, 1>,
    fields: Seq<FieldSpec>,
    values: Seq<BlockValues<T>>,
    nu0: T,
    s0: T,
    b: int,
    f: int,
    o: int,
)
    requires
        grid.valid(),
        fields.len() >= 4,
        forall|e: int| 0 <= e < 4 ==> (#[trigger] fields[e]).halo == 0,
        0 <= b < values.len(),
        values[b].fields.len() == fields.len(),
        0 <= f < fields.len(),
        values[b].fields[f].len() == grid.tile()[0],
        0 <= o < grid.tile()[0],
    ensures
        started(grid, fields, values, nu0, s0)[b].fields[f][o] == (if f == 0 {
            nu0
        } else if f == 1 {
            s0
        } else {
            values[b].fields[f][o]
        }),
        flat_book(grid, fields, values)[b].fields[f][o] == (if f == 2 || f == 3 {
            T::zero_spec()
        } else {
            values[b].fields[f][o]
        }),
{
    lemma_cells_of_a_line(grid, b, o);
    assert(fields[0].halo == 0 && fields[1].halo == 0 && fields[2].halo == 0 && fields[3].halo
        == 0);
}

/// Different inventories have differently named value fields.
pub proof fn levels_are_told_apart_by_name(q: int, r: int)
    requires
        level_name(q) == level_name(r),
    ensures
        q == r,
{
    reveal_strlit("u_q");
    reveal_strlit("-");
    let head = "u_q"@;
    let (m, n) = (
        (if q < 0 {
            -q
        } else {
            q
        }) as nat,
        (if r < 0 {
            -r
        } else {
            r
        }) as nat,
    );
    decimals_read_back(m);
    decimals_read_back(n);
    decimals_are_digits(m);
    decimals_are_digits(n);
    let (x, y) = (level_name(q), level_name(r));
    if q < 0 {
        assert(x[3] == '-');
        assert(x.skip(4) =~= decimal(m));
    } else {
        assert(x[3] == decimal(m)[0]);
        assert(x.skip(3) =~= decimal(m));
    }
    if r < 0 {
        assert(y[3] == '-');
        assert(y.skip(4) =~= decimal(n));
    } else {
        assert(y[3] == decimal(n)[0]);
        assert(y.skip(3) =~= decimal(n));
    }
}

} // verus!
