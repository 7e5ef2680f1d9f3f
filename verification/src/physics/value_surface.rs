//! The value surface of the market maker: how its cells move, how its stiff rows
//! transport it, how long a step may be, and how its quotes are looked up.
use vstd::prelude::*;

use crate::engine::driver::Driver;
use crate::engine::exact::{
    exact, lemma_associates, lemma_cancels, lemma_commutes, lemma_distributes, lemma_negates,
    order_exact, power, powers_exact,
};
use crate::engine::state::{allocated_on, full_block, BlockValues, FieldSpec};
use crate::engine::storage::Real;
use crate::geometry::boundary::FaceBc;
use crate::geometry::cartesian::CartesianGrid;
use crate::geometry::grid::{
    ghosted, in_slab, lemma_spread, shifted, slab_at, slab_index, Grid,
};
use crate::geometry::halo::{
    extrapolation, face_ghosts_obey_their_face, field_slabs, filled, filling_keeps_the_interior,
    inward, lemma_field_filled, lemma_neighbor_in_range, with_field,
};
use crate::geometry::index::{delin, in_ext, lin, volume};
use crate::physics::inventory::{baked, whole};
use crate::physics::market_making::{
    ask_depth, bid_depth, clamped, extrapolated, fold_high, fold_low, joint_bound, level_rate,
    node_depths, ratio, recorded_step, stiff_row, transport_row, value_rate, variance_edge,
    worst_bound, DepthTables, HjbMarketMaker, LevelReads, MarketMakerParams,
};
use crate::physics::model::Model;
use crate::physics::quoting::larger;

verus! {

/// Offsets of a line with one ghost at either end.
proof fn lemma_ghosted_line(ext: Seq<int>, o: int)
    requires
        ext.len() == 1,
        -1 <= o <= ext[0],
    ensures
        slab_index(o + 1, ext, 1) == seq![o],
        slab_at(seq![o], ext, 1) == o + 1,
        in_ext(seq![o], ext) <==> 0 <= o < ext[0],
        volume(ghosted(ext, 1)) == ext[0] + 2,
{
    reveal_with_fuel(delin, 2);
    reveal_with_fuel(lin, 2);
    reveal_with_fuel(volume, 2);
    let e = ghosted(ext, 1);
    assert(e =~= seq![ext[0] + 2]);
    vstd::arithmetic::div_mod::lemma_small_mod((o + 1) as nat, (ext[0] + 2) as nat);
    assert(delin(o + 1, e) =~= seq![o + 1]);
    assert(slab_index(o + 1, ext, 1) =~= seq![o]);
    let s = seq![o];
    assert(shifted(s, 1) =~= seq![o + 1]);
    let w = seq![o + 1];
    assert(lin(w, e) == o + 1) by {
        assert(e[0] * lin(w.drop_first(), e.drop_first()) == 0) by {
            assert(lin(w.drop_first(), e.drop_first()) == 0);
        }
    }
    assert(e.drop_first().len() == 0);
    if in_ext(s, ext) {
        assert(0 <= s[0] < ext[0]);
    }
}

/// Every cell of every inventory level moves by the value equation of its inventory and
/// its variance: it reads its own level at the cell and beside it, and the levels one up
/// and one down at the cell, where there are such.
pub proof fn surfaces_move_level_by_level<T: Real, P: Sync>(
    model: &HjbMarketMaker<T>,
    grid: &CartesianGrid<T, 1>,
    disc: &P,
    t: T,
    b: int,
    fields: Seq<FieldSpec>,
    values: Seq<BlockValues<T>>,
    out: BlockValues<T>,
    f: int,
    i: int,
)
    requires
        grid.valid(),
        fields.len() == model.setup().levels(),
        values[b].fields.len() == fields.len(),
        out.fields.len() == fields.len(),
        0 <= f < fields.len(),
        out.fields[f].len() == grid.tile()[0] + 2,
        0 <= i < grid.tile()[0],
    ensures
        ({
            let p = model.setup();
            let u = values[b].fields;
            model.vector_field(Driver::Time, grid, disc, t, b, fields, values, out).fields[f][i + 1]
                == value_rate(
                p,
                p.q_min + f,
                grid.step(0),
                grid.center_of(b, seq![i], 0),
                (LevelReads {
                    c: u[f][i + 1],
                    p: u[f][i + 2],
                    m: u[f][i],
                    up: if p.q_min + f < p.q_max {
                        Some(u[f + 1][i + 1])
                    } else {
                        None
                    },
                    dn: if p.q_min < p.q_min + f {
                        Some(u[f - 1][i + 1])
                    } else {
                        None
                    },
                }),
            )
        }),
{
    let ext = grid.tile();
    lemma_ghosted_line(ext, i);
    lemma_ghosted_line(ext, i + 1);
    lemma_ghosted_line(ext, i - 1);
    let p = model.setup();
    let next = level_rate(p, grid, b, values[b].fields, f, out.fields[f]);
    assert(model.vector_field(Driver::Time, grid, disc, t, b, fields, values, out).fields[f]
        == next);
}

proof fn lemma_twice(two: real, x: real)
    requires
        two == 2 as real,
    ensures
        two * x == x + x,
{
    lemma_distributes(x, 1 as real, 1 as real);
    assert(1 as real * x == x) by (nonlinear_arith);
}

proof fn lemma_inner_row<T: Real>(
    v: spec_fn(T) -> real,
    p: MarketMakerParams<T>,
    h: T,
    nu: T,
    m: real,
    c: real,
    u: real,
    slope: real,
    curvature: real,
)
    requires
        exact(v),
        order_exact(v),
        v(h) != 0 as real,
        slope * v(h) == (if v(p.k_speed) * (v(p.theta) - v(nu)) > 0 as real {
            u - c
        } else {
            c - m
        }),
        (curvature * v(h)) * v(h) == u - c + (m - c),
    ensures
        ({
            let r = transport_row(p, h, nu);
            v(r.0) * m + v(r.1) * c + v(r.2) * u == (v(p.k_speed) * (v(p.theta) - v(nu))) * slope
                + v(T::half_spec()) * (v(p.sigma) * v(p.sigma)) * v(nu) * curvature
        }),
{
    let inv = T::one_spec().div_spec(h);
    let i = v(inv);
    let hh = v(h);
    assert(i * hh == 1 as real);
    let sigma2 = p.sigma.mul_spec(p.sigma);
    let w = v(T::half_spec().mul_spec(sigma2).mul_spec(nu));
    let a = T::half_spec().mul_spec(sigma2).mul_spec(nu).mul_spec(inv.mul_spec(inv));
    let drift = p.k_speed.mul_spec(p.theta.sub_spec(nu));
    let d = v(drift);
    let adv = d * i;
    let aa = v(a);
    assert(aa == w * (i * i));
    let r = transport_row(p, h, nu);
    assert(v(T::zero_spec()) == 0 as real);
    lemma_twice(v(T::from_u64_spec(2)), -aa);
    lemma_negates(d, i);
    let rise = if d > 0 as real {
        u - c
    } else {
        c - m
    };
    let lower = if d > 0 as real {
        aa
    } else {
        aa - adv
    };
    let upper = if d > 0 as real {
        aa + adv
    } else {
        aa
    };
    let middle = if d > 0 as real {
        -aa - aa - adv
    } else {
        -aa - aa + adv
    };
    assert(v(r.0) == lower);
    assert(v(r.2) == upper);
    assert(v(r.1) == middle) by {
        if d < 0 as real {
            assert(v(drift.abs_spec()) == -d);
            lemma_negates(-d, i);
        } else {
            assert(v(drift.abs_spec()) == d);
            lemma_negates(d, i);
            if d == 0 as real {
                assert(0 as real * i == 0 as real) by (nonlinear_arith);
            }
        }
    }
    lemma_distributes(m, aa, -adv);
    lemma_distributes(u, aa, adv);
    lemma_distributes(c, -aa - aa, -adv);
    lemma_distributes(c, -aa - aa, adv);
    lemma_distributes(c, -aa, -aa);
    lemma_negates(adv, m);
    lemma_negates(adv, c);
    lemma_negates(aa, c);
    let bend = u - c + (m - c);
    assert(aa * bend == aa * u - aa * c - aa * c + aa * m) by {
        lemma_distributes(aa, u - c, m - c);
        lemma_distributes(aa, u, -c);
        lemma_distributes(aa, m, -c);
        lemma_negates(aa, c);
    }
    assert(adv * rise == (if d > 0 as real {
        adv * u - adv * c
    } else {
        adv * c - adv * m
    })) by {
        lemma_distributes(adv, u, -c);
        lemma_distributes(adv, c, -m);
        lemma_negates(adv, c);
        lemma_negates(adv, m);
    }
    assert(adv * rise == d * slope) by {
        lemma_associates(d, i, rise);
        lemma_commutes(i, rise);
        lemma_undo(rise, i, hh, slope);
    }
    assert(aa * bend == w * curvature) by {
        lemma_associates(w, i * i, bend);
        lemma_commutes(i * i, bend);
        lemma_associates(bend, i, i);
        lemma_undo(bend, i, hh, curvature * hh);
        lemma_undo(curvature * hh, i, hh, curvature);
    }
}

proof fn lemma_undo(x: real, i: real, h: real, d: real)
    requires
        i * h == 1 as real,
        d * h == x,
        h != 0 as real,
    ensures
        x * i == d,
{
    lemma_associates(x, i, h);
    assert(x * (1 as real) == x) by (nonlinear_arith);
    lemma_cancels(x * i, d, h);
}

proof fn lemma_folded_low<T: Real>(v: spec_fn(T) -> real, r: (T, T, T), m: real, c: real, u: real)
    requires
        exact(v),
        m == c + c - u,
    ensures
        ({
            let f = fold_low(r);
            v(f.0) * m + v(f.1) * c + v(f.2) * u == v(r.0) * m + v(r.1) * c + v(r.2) * u
        }),
{
    let (x, y, z) = (v(r.0), v(r.1), v(r.2));
    lemma_twice(v(T::from_u64_spec(2)), x);
    lemma_distributes(c, x + x, y);
    lemma_distributes(c, x, x);
    lemma_distributes(u, z, -x);
    lemma_negates(x, u);
    lemma_distributes(x, c + c, -u);
    lemma_distributes(x, c, c);
    assert(0 as real * m == 0 as real) by (nonlinear_arith);
}

proof fn lemma_folded_high<T: Real>(v: spec_fn(T) -> real, r: (T, T, T), m: real, c: real, u: real)
    requires
        exact(v),
        u == c + c - m,
    ensures
        ({
            let f = fold_high(r);
            v(f.0) * m + v(f.1) * c + v(f.2) * u == v(r.0) * m + v(r.1) * c + v(r.2) * u
        }),
{
    let (x, y, z) = (v(r.0), v(r.1), v(r.2));
    lemma_twice(v(T::from_u64_spec(2)), z);
    lemma_distributes(c, z + z, y);
    lemma_distributes(c, z, z);
    lemma_distributes(m, x, -z);
    lemma_negates(z, m);
    lemma_distributes(z, c + c, -m);
    lemma_distributes(z, c, c);
    assert(0 as real * u == 0 as real) by (nonlinear_arith);
}

/// In exact arithmetic a stiff row applied to the values before, at and after its cell
/// is what the value equation transports there: the mean reversion along the upwinded
/// slope and half the variance of the variance times the central curvature. At the ends
/// of the domain the value beyond is the linear extrapolation.
pub proof fn stiff_rows_are_the_transport<T: Real>(
    v: spec_fn(T) -> real,
    p: MarketMakerParams<T>,
    grid: &CartesianGrid<T, 1>,
    b: int,
    i: int,
    before: real,
    at: real,
    after: real,
    slope: real,
    curvature: real,
)
    requires
        exact(v),
        order_exact(v),
        v(grid.step(0)) != 0 as real,
        b * grid.tile()[0] + i == 0 ==> before == at + at - after,
        b * grid.tile()[0] + i == grid.domain()[0] - 1 ==> after == at + at - before,
        slope * v(grid.step(0)) == (if v(p.k_speed) * (v(p.theta) - v(
            grid.center_of(b, seq![i], 0),
        )) > 0 as real {
            after - at
        } else {
            at - before
        }),
        (curvature * v(grid.step(0))) * v(grid.step(0)) == after - at + (before - at),
    ensures
        ({
            let row = stiff_row(p, grid, b, i);
            let nu = v(grid.center_of(b, seq![i], 0));
            v(row[0]) * before + v(row[1]) * at + v(row[2]) * after == (v(p.k_speed) * (v(p.theta)
                - nu)) * slope + v(T::half_spec()) * (v(p.sigma) * v(p.sigma)) * nu * curvature
        }),
{
    let inner = transport_row(p, grid.step(0), grid.center_of(b, seq![i], 0));
    lemma_inner_row(
        v,
        p,
        grid.step(0),
        grid.center_of(b, seq![i], 0),
        before,
        at,
        after,
        slope,
        curvature,
    );
    let global = b * grid.tile()[0] + i;
    let low = if global == 0 {
        fold_low(inner)
    } else {
        inner
    };
    if global == 0 {
        lemma_folded_low(v, inner, before, at, after);
    }
    if global == grid.domain()[0] - 1 {
        lemma_folded_high(v, low, before, at, after);
    }
}

/// What diffusion and advection allow per unit of time at a variance, times the squared
/// spacing: `sigma^2 nu + h |k (theta - nu)|`.
pub open spec fn stiffness<T: Real>(
    v: spec_fn(T) -> real,
    p: MarketMakerParams<T>,
    h: real,
    nu: real,
) -> real {
    let d = v(p.k_speed) * (v(p.theta) - nu);
    (v(p.sigma) * v(p.sigma)) * nu + h * (if d < 0 as real {
        -d
    } else {
        d
    })
}

proof fn lemma_bound<T: Real>(v: spec_fn(T) -> real, p: MarketMakerParams<T>, h: T, nu: T)
    requires
        exact(v),
        order_exact(v),
        powers_exact(v),
        v(h) > 0 as real,
    ensures
        v(joint_bound(p, h, nu)) * (v(h) * v(h)) == stiffness(v, p, v(h), v(nu)),
{
    let x = v(h);
    let s = x * x;
    reveal_with_fuel(power, 3);
    assert(1 as real * x == x) by (nonlinear_arith);
    assert(v(h.powi_spec(2)) == power(x, 2));
    assert(v(h.powi_spec(2)) == s);
    assert(s > 0 as real) by (nonlinear_arith)
        requires
            s == x * x,
            x > 0 as real,
    ;
    let top = p.sigma.mul_spec(p.sigma).mul_spec(nu);
    let q = v(top.div_spec(h.powi_spec(2)));
    assert(q * s == v(top));
    let drift = p.k_speed.mul_spec(p.theta.sub_spec(nu)).abs_spec();
    let r = v(drift.div_spec(h));
    assert(r * x == v(drift));
    lemma_distributes(s, q, r);
    lemma_associates(r, x, x);
    lemma_commutes(v(drift), x);
}

/// A point between two others is at most the larger of the ends, on a line.
proof fn lemma_line_between(a: real, s: real, lo: real, x: real, hi: real)
    requires
        lo <= x <= hi,
    ensures
        a + s * x <= larger(a + s * lo, a + s * hi),
{
    if s >= 0 as real {
        assert(s * x <= s * hi) by (nonlinear_arith)
            requires
                s >= 0 as real,
                x <= hi,
        ;
    } else {
        assert(s * x <= s * lo) by (nonlinear_arith)
            requires
                s < 0 as real,
                lo <= x,
        ;
    }
}

proof fn lemma_stiffness_between<T: Real>(
    v: spec_fn(T) -> real,
    p: MarketMakerParams<T>,
    h: real,
    lo: real,
    x: real,
    hi: real,
)
    requires
        lo <= x <= hi,
        hi <= v(p.theta) || v(p.theta) <= lo,
    ensures
        stiffness(v, p, h, x) <= larger(stiffness(v, p, h, lo), stiffness(v, p, h, hi)),
{
    let k = v(p.k_speed);
    let theta = v(p.theta);
    let s2 = v(p.sigma) * v(p.sigma);
    let up = (k >= 0 as real) == (hi <= theta);
    let g = if up {
        k
    } else {
        -k
    };
    lemma_stiffness_line(v, p, h, lo, g, hi <= theta);
    lemma_stiffness_line(v, p, h, x, g, hi <= theta);
    lemma_stiffness_line(v, p, h, hi, g, hi <= theta);
    lemma_line_between(h * (g * theta), s2 - h * g, lo, x, hi);
}

proof fn lemma_stiffness_line<T: Real>(
    v: spec_fn(T) -> real,
    p: MarketMakerParams<T>,
    h: real,
    x: real,
    g: real,
    below: bool,
)
    requires
        below ==> x <= v(p.theta),
        !below ==> x >= v(p.theta),
        g == (if (v(p.k_speed) >= 0 as real) == below {
            v(p.k_speed)
        } else {
            -v(p.k_speed)
        }),
    ensures
        stiffness(v, p, h, x) == h * (g * v(p.theta)) + (v(p.sigma) * v(p.sigma) - h * g) * x,
{
    let k = v(p.k_speed);
    let theta = v(p.theta);
    let s2 = v(p.sigma) * v(p.sigma);
    let d = k * (theta - x);
    let gap = theta - x;
    assert(k >= 0 as real && gap >= 0 as real ==> k * gap >= 0 as real) by (nonlinear_arith);
    assert(k >= 0 as real && gap <= 0 as real ==> k * gap <= 0 as real) by (nonlinear_arith);
    assert(k < 0 as real && gap >= 0 as real ==> k * gap <= 0 as real) by (nonlinear_arith);
    assert(k < 0 as real && gap <= 0 as real ==> k * gap >= 0 as real) by (nonlinear_arith);
    lemma_negates(k, gap);
    assert((if d < 0 as real {
        -d
    } else {
        d
    }) == g * gap);
    lemma_distributes(g, theta, -x);
    lemma_negates(g, x);
    lemma_distributes(h, g * theta, -(g * x));
    lemma_negates(h, g * x);
    lemma_associates(h, g, x);
    lemma_distributes(x, s2, -(h * g));
    lemma_negates(h * g, x);
}

/// In exact arithmetic the explicit step limit holds over the whole variance domain: at
/// every variance in it, the limit times what diffusion and advection take per unit of
/// time stays within four fifths. Ten times the limit is eight over the worst of them.
pub proof fn explicit_steps_are_limited_everywhere<T: Real>(
    v: spec_fn(T) -> real,
    p: MarketMakerParams<T>,
    h: T,
    nu: T,
    limit: T,
)
    requires
        exact(v),
        order_exact(v),
        powers_exact(v),
        v(h) > 0 as real,
        v(p.nu_min) <= v(nu) <= v(p.nu_max),
        v(worst_bound(p, h)) > 0 as real,
        limit == ratio::<T>(8, 10).div_spec(worst_bound(p, h)),
    ensures
        v(worst_bound(p, h)) * (v(h) * v(h)) >= stiffness(v, p, v(h), v(nu)),
        5 as real * (v(limit) * stiffness(v, p, v(h), v(nu))) <= 4 as real * (v(h) * v(h)),
        5 as real * (v(limit) * v(worst_bound(p, h))) == 4 as real,
{
    let (lo, x, hi) = (v(p.nu_min), v(nu), v(p.nu_max));
    let kink = clamped(p.theta, p.nu_min, p.nu_max);
    let m = v(kink);
    let hh = v(h);
    let s = hh * hh;
    assert(s > 0 as real) by (nonlinear_arith)
        requires
            s == hh * hh,
            hh > 0 as real,
    ;
    lemma_bound(v, p, h, p.nu_min);
    lemma_bound(v, p, h, p.nu_max);
    lemma_bound(v, p, h, kink);
    assert(lo <= m <= hi);
    if x <= m {
        lemma_stiffness_between(v, p, hh, lo, x, m);
    } else {
        lemma_stiffness_between(v, p, hh, m, x, hi);
    }
    let w = v(worst_bound(p, h));
    lemma_scaled(v(joint_bound(p, h, p.nu_min)), w, s);
    lemma_scaled(v(joint_bound(p, h, p.nu_max)), w, s);
    lemma_scaled(v(joint_bound(p, h, kink)), w, s);
    let l = v(limit);
    let q = v(ratio::<T>(8, 10));
    assert(v(T::from_u64_spec(8)) == 8 as real && v(T::from_u64_spec(10)) == 10 as real);
    assert(q * (10 as real) == 8 as real);
    assert(l * w == q);
    let st = stiffness(v, p, hh, x);
    assert(l > 0 as real) by (nonlinear_arith)
        requires
            l * w > 0 as real,
            w > 0 as real,
    ;
    lemma_scaled(st, w * s, l);
    lemma_commutes(st, l);
    lemma_commutes(w * s, l);
    lemma_associates(l, w, s);
    assert(q * s == (8 as real / (10 as real)) * s);
}

proof fn lemma_scaled(a: real, b: real, s: real)
    requires
        a <= b,
        s > 0 as real,
    ensures
        a * s <= b * s,
{
    assert(a * s <= b * s) by (nonlinear_arith)
        requires
            a <= b,
            s > 0 as real,
    ;
}

/// The step limits of the model: the explicit one is four fifths over the worst bound,
/// the one of the nonstiff part two fifths over the total arrival rate; there is none
/// where nothing moves.
pub proof fn limits_are_fractions_of_the_fastest_rate<T: Real, P: Sync>(
    v: spec_fn(T) -> real,
    model: &HjbMarketMaker<T>,
    spacing: [T; 1],
)
    requires
        exact(v),
        order_exact(v),
    ensures
        ({
            let p = model.setup();
            let rate = v(p.sell.lambda) + v(p.buy.lambda);
            let worst = v(worst_bound(p, spacing[0]));
            &&& match Model::<T, CartesianGrid<T, 1>, P, 1>::nonstiff_limit(model, spacing) {
                Some(dt) => rate > 0 as real && 5 as real * (v(dt) * rate) == 2 as real,
                None => rate <= 0 as real,
            }
            &&& match Model::<T, CartesianGrid<T, 1>, P, 1>::explicit_limit(model, spacing) {
                Some(dt) => worst > 0 as real && 5 as real * (v(dt) * worst) == 4 as real,
                None => worst <= 0 as real,
            }
        }),
{
    assert(v(T::from_u64_spec(8)) == 8 as real && v(T::from_u64_spec(10)) == 10 as real);
    assert(v(T::from_u64_spec(4)) == 4 as real && v(T::zero_spec()) == 0 as real);
    assert(v(ratio::<T>(8, 10)) * (10 as real) == 8 as real);
    assert(v(ratio::<T>(4, 10)) * (10 as real) == 4 as real);
}

/// The value is less than half away from the whole number.
pub open spec fn close_to(x: real, n: int) -> bool {
    2 as real * (x - n as real) < 1 as real && 2 as real * (n as real - x) < 1 as real
}

/// Rounding goes to the nearest whole number, and whole numbers convert to themselves.
pub open spec fn nearest_exact<T: Real>(v: spec_fn(T) -> real) -> bool {
    &&& forall|a: T, n: int| #[trigger] close_to(v(a), n) ==> v(a.round_spec()) == n as real
    &&& forall|a: T, n: int|
        0 <= n <= u64::MAX && #[trigger] whole(v, a, n) ==> a.to_u64_spec() == n
}

proof fn lemma_nearest<T: Real>(v: spec_fn(T) -> real, a: T, n: int)
    requires
        exact(v),
        order_exact(v),
        nearest_exact(v),
        0 <= n <= u64::MAX,
        close_to(v(a), n),
    ensures
        a.round_spec().max_spec(T::zero_spec()).to_u64_spec() == n,
{
    let r = a.round_spec().max_spec(T::zero_spec());
    assert(v(a.round_spec()) == n as real);
    assert(whole(v, r, n));
}

proof fn lemma_scaled_close(q: real, step: real, x: real, n: int)
    requires
        step > 0 as real,
        q * step == x,
        2 as real * (x - n as real * step) < step,
        2 as real * (n as real * step - x) < step,
    ensures
        close_to(q, n),
{
    let m = n as real;
    let d = q - m;
    lemma_distributes(step, q, -m);
    lemma_negates(m, step);
    assert(d * step == x - m * step);
    assert(2 as real * d < 1 as real) by (nonlinear_arith)
        requires
            step > 0 as real,
            2 as real * (d * step) < step,
    ;
    assert(-(2 as real * d) < 1 as real) by (nonlinear_arith)
        requires
            step > 0 as real,
            -(2 as real * (d * step)) < step,
    ;
}

/// In exact arithmetic quotes come from the nearest node: a remaining time less than half
/// a recorded step from frame `t`, a variance less than half a cell from the center of
/// cell `j`, and an inventory within the bounds are quoted the optimal depths of that
/// frame, cell and inventory. An inventory beyond a bound is quoted as at the bound.
pub proof fn quotes_come_from_the_nearest_node<T: Real>(
    v: spec_fn(T) -> real,
    p: MarketMakerParams<T>,
    tables: DepthTables<T>,
    surfaces: Seq<Seq<Vec<T>>>,
    tau: T,
    nu: T,
    q: int,
    t: int,
    j: int,
)
    requires
        exact(v),
        order_exact(v),
        nearest_exact(v),
        baked(p, tables, surfaces),
        v(tables.time_step()) > 0 as real,
        v(tables.cell_step()) > 0 as real,
        0 <= t < surfaces.len() <= u64::MAX,
        0 <= j < tables.cells(),
        2 as real * (v(tau) - t as real * v(tables.time_step())) < v(tables.time_step()),
        2 as real * (t as real * v(tables.time_step()) - v(tau)) < v(tables.time_step()),
        ({
            let center = v(tables.low_edge()) + (j as real + v(T::half_spec())) * v(
                tables.cell_step(),
            );
            &&& 2 as real * (v(nu) - center) < v(tables.cell_step())
            &&& 2 as real * (center - v(nu)) < v(tables.cell_step())
        }),
    ensures
        ({
            let held = if q < p.q_min {
                p.q_min as int
            } else if q > p.q_max {
                p.q_max as int
            } else {
                q
            };
            tables.quoted(tau, nu, q) == node_depths(p, surfaces[t], held - p.q_min, j)
        }),
{
    let dt = tables.time_step();
    let frame = tau.div_spec(dt);
    assert(v(frame) * v(dt) == v(tau));
    lemma_scaled_close(v(frame), v(dt), v(tau), t);
    lemma_nearest(v, frame, t);
    assert(tables.frame_of(tau) == t);
    let h = tables.cell_step();
    let half = v(T::half_spec());
    let place = nu.sub_spec(tables.low_edge()).div_spec(h);
    let x = v(nu) - v(tables.low_edge());
    assert(v(place) * v(h) == x);
    let cell = place.sub_spec(T::half_spec());
    lemma_distributes(v(h), j as real, half);
    lemma_distributes(v(h), v(place), -half);
    lemma_negates(half, v(h));
    assert(v(cell) * v(h) == x - half * v(h));
    lemma_scaled_close(v(cell), v(h), x - half * v(h), j);
    lemma_nearest(v, cell, j);
    assert(tables.cell_of(nu) == j);
    let n = tables.cells();
    let level = tables.level_of(q);
    let at = level * n + j;
    vstd::arithmetic::div_mod::lemma_fundamental_div_mod_converse(at, n, level, j);
    let levels = p.levels();
    assert(0 <= at < levels * n) by (nonlinear_arith)
        requires
            at == level * n + j,
            0 <= level < levels,
            0 <= j < n,
    ;
}

/// The quotes of a node weigh its value against those of the adjoining inventories at the
/// same variance: the bid that of one unit more, the ask that of one unit less. At a bound
/// of the inventory there is none to trade into.
pub proof fn quotes_weigh_the_adjoining_inventories<T: Real>(
    p: MarketMakerParams<T>,
    surface: Seq<Vec<T>>,
    value: spec_fn(int) -> T,
    q: int,
    cell: int,
)
    requires
        p.q_min <= q <= p.q_max,
        surface.len() == p.q_max - p.q_min + 1,
        forall|i: int|
            p.q_min <= i <= p.q_max ==> #[trigger] value(i) == surface[i - p.q_min]@[cell],
    ensures
        node_depths(p, surface, q - p.q_min, cell).0 == bid_depth(
            p,
            q,
            value(q),
            if q == p.q_max {
                None
            } else {
                Some(value(q + 1))
            },
        ),
        node_depths(p, surface, q - p.q_min, cell).1 == ask_depth(
            p,
            q,
            value(q),
            if q == p.q_min {
                None
            } else {
                Some(value(q - 1))
            },
        ),
{
    if q < p.q_max {
        assert(value(q + 1) == surface[q + 1 - p.q_min]@[cell]);
    }
    if q > p.q_min {
        assert(value(q - 1) == surface[q - 1 - p.q_min]@[cell]);
    }
}

/// In exact arithmetic the lattice of the quotes is that of the recorded surfaces: the
/// edge of the tables is the corner of the variance grid, and where the recorded times
/// are evenly spaced, they lie whole multiples of the tables' step after the first.
pub proof fn lattices_are_those_of_the_surfaces<T: Real>(
    v: spec_fn(T) -> real,
    grid: &CartesianGrid<T, 1>,
    taus: Seq<T>,
    first: real,
    step: real,
    t: int,
)
    requires
        exact(v),
        grid.valid(),
        grid.coords_of(0)[0] == 0,
        taus.len() > 1,
        forall|k: int| 0 <= k < taus.len() ==> v(#[trigger] taus[k]) == first + k as real * step,
        0 <= t < taus.len(),
    ensures
        v(variance_edge(grid)) == v(grid.corner(0)),
        v(taus[t]) - v(taus[0]) == t as real * v(recorded_step(taus)),
{
    let h = v(grid.step(0));
    let half = v(T::half_spec());
    let idx = seq![0int];
    let start = grid.coords_of(0)[0] * grid.tile()[0];
    assert(start == 0);
    assert(v(T::from_u64_spec(start as u64)) == 0 as real);
    assert(v(T::from_i64_spec(idx[0] as i64)) == 0 as real);
    lemma_negates(half, h);
    assert(v(taus[0]) == first + 0 as real * step);
    assert(v(taus[1]) == first + 1 as real * step);
    assert(0 as real * step == 0 as real && 1 as real * step == step) by (nonlinear_arith);
}

/// What extrapolating the first `n` fields makes of one field.
proof fn lemma_extrapolated_field<T: Real>(
    grid: &CartesianGrid<T, 1>,
    fields: Seq<FieldSpec>,
    values: Seq<BlockValues<T>>,
    n: nat,
    f: int,
)
    requires
        allocated_on::<T, T, CartesianGrid<T, 1>, 1>(fields, grid, values),
        n <= fields.len(),
        0 <= f < fields.len(),
    ensures
        allocated_on::<T, T, CartesianGrid<T, 1>, 1>(
            fields,
            grid,
            extrapolated(grid, fields, values, n),
        ),
        field_slabs(extrapolated(grid, fields, values, n), f) == (if f < n {
            filled(
                grid,
                &extrapolation(grid),
                fields[f].halo as int,
                field_slabs(values, f),
                1,
            )
        } else {
            field_slabs(values, f)
        }),
    decreases n,
{
    if n > 0 {
        let e = n - 1;
        lemma_extrapolated_field(grid, fields, values, e as nat, f);
        lemma_extrapolated_field(grid, fields, values, e as nat, e);
        let before = extrapolated(grid, fields, values, e as nat);
        let after = extrapolated(grid, fields, values, n);
        lemma_field_filled(grid, &extrapolation(grid), fields, before, e);
        let slabs = filled(
            grid,
            &extrapolation(grid),
            fields[e].halo as int,
            field_slabs(before, e),
            1,
        );
        reveal_with_fuel(filled, 2);
        assert(slabs.len() == before.len());
        assert(after == with_field(before, e, slabs));
        assert forall|b: int| 0 <= b < before.len() implies #[trigger] field_slabs(after, f)[b]
            == (if f == e {
            slabs[b]
        } else {
            field_slabs(before, f)[b]
        }) by {
            assert(full_block(fields, grid.extent_of(b), before[b]));
        }
        if f == e {
            assert(field_slabs(after, f) =~= slabs);
        } else {
            assert(field_slabs(after, f) =~= field_slabs(before, f));
        }
    }
}

/// In exact arithmetic the ghosts of a value surface continue it linearly at the ends of
/// the variance domain, twice the edge less the cell inside it; between blocks they are
/// the neighbor's edge; and no value inside a block is touched.
pub proof fn surfaces_continue_linearly<T: Real, P: Sync>(
    v: spec_fn(T) -> real,
    model: &HjbMarketMaker<T>,
    grid: &CartesianGrid<T, 1>,
    fields: Seq<FieldSpec>,
    values: Seq<BlockValues<T>>,
    t: T,
    b: int,
    f: int,
    i: int,
)
    requires
        exact(v),
        grid.valid(),
        grid.tile()[0] >= 2,
        allocated_on::<T, T, CartesianGrid<T, 1>, 1>(fields, grid, values),
        0 <= f < fields.len(),
        fields[f].halo == 1,
        0 <= b < grid.blocks(),
        0 <= i < grid.tile()[0],
    ensures
        ({
            let n = grid.tile()[0];
            let u = values[b].fields[f];
            let w = Model::<T, CartesianGrid<T, 1>, P, 1>::filled(
                model,
                grid,
                fields,
                values,
                t,
            )[b].fields[f];
            &&& w[i + 1] == u[i + 1]
            &&& match grid.neighbor(b, 0, -1) {
                Some(nb) => w[0] == values[nb].fields[f][n],
                None => v(w[0]) == 2 as real * v(u[1]) - v(u[2]),
            }
            &&& match grid.neighbor(b, 0, 1) {
                Some(nb) => w[n + 1] == values[nb].fields[f][1],
                None => v(w[n + 1]) == 2 as real * v(u[n]) - v(u[n - 1]),
            }
        }),
{
    let ext = grid.tile();
    let n = ext[0];
    let slabs = field_slabs(values, f);
    let rule = extrapolation(grid);
    lemma_extrapolated_field(grid, fields, values, fields.len(), f);
    let next = Model::<T, CartesianGrid<T, 1>, P, 1>::filled(model, grid, fields, values, t);
    let w = filled(grid, &rule, 1, slabs, 1);
    assert(field_slabs(next, f)[b] == w[b]);
    assert(next[b].fields[f] == w[b]);
    assert forall|p: int| 0 <= p < slabs.len() implies (#[trigger] slabs[p]).len() == volume(
        ghosted(ext, 1),
    ) by {
        assert(full_block(fields, grid.extent_of(p), values[p]));
    }
    lemma_ghosted_line(ext, i);
    lemma_ghosted_line(ext, -1);
    lemma_ghosted_line(ext, n);
    lemma_ghosted_line(ext, 0);
    lemma_ghosted_line(ext, 1);
    lemma_ghosted_line(ext, n - 1);
    lemma_ghosted_line(ext, n - 2);
    filling_keeps_the_interior(grid, &rule, 1, slabs, 1, b, seq![i]);
    let low = seq![-1int];
    let high = seq![n];
    assert(in_slab(low, ext, 1));
    assert(in_slab(high, ext, 1));
    face_ghosts_obey_their_face(grid, &rule, 1, slabs, 1, b, 0, low);
    face_ghosts_obey_their_face(grid, &rule, 1, slabs, 1, b, 0, high);
    let conditions: [FaceBc<T>; 1] = [FaceBc::Extrapolate];
    lemma_spread::<FaceBc<T>, 1>(conditions, |d: int| FaceBc::Extrapolate);
    lemma_blocks_of_a_line(grid, b);
    assert(v(T::from_i64_spec((0 + 2) as i64)) == 2 as real);
    assert(v(T::from_i64_spec((0 + 1) as i64)) == 1 as real);
    assert(low.update(0, -1 - (-1) * n) =~= seq![n - 1]);
    assert(low.update(0, inward(-1, 0, n)) =~= seq![0int]);
    assert(low.update(0, inward(-1, 1, n)) =~= seq![1int]);
    assert(high.update(0, n - 1 * n) =~= seq![0int]);
    assert(high.update(0, inward(1, 0, n)) =~= seq![n - 1]);
    assert(high.update(0, inward(1, 1, n)) =~= seq![n - 2]);
    let (a, c, d, e) = (v(slabs[b][1]), v(slabs[b][2]), v(slabs[b][n]), v(slabs[b][n - 1]));
    assert(1 as real * c == c && 1 as real * e == e) by (nonlinear_arith);
}

/// Neighbors along a line are blocks of it.
proof fn lemma_blocks_of_a_line<T: Real>(grid: &CartesianGrid<T, 1>, b: int)
    requires
        grid.valid(),
        0 <= b < grid.blocks(),
    ensures
        grid.neighbor(b, 0, -1) matches Some(nb) ==> 0 <= nb < grid.blocks(),
        grid.neighbor(b, 0, 1) matches Some(nb) ==> 0 <= nb < grid.blocks(),
{
    lemma_neighbor_in_range(grid, b, 0, -1);
    lemma_neighbor_in_range(grid, b, 0, 1);
}

} // verus!
