//! What quotes are worth: fill intensities, optimal depths, and the value equation
//! they enter.
use vstd::prelude::*;

use crate::engine::exact::{
    exact, exponentials_exact, growth_exact, lemma_associates, lemma_cancels, lemma_commutes,
    lemma_distributes, lemma_negates, order_exact,
};
use crate::engine::storage::Real;
use crate::physics::market_making::{
    ask_depth, bid_depth, buy_term, odd_down, odd_up, sell_term, value_rate, LevelReads,
    MarketMakerParams, Side,
};

verus! {

/// The larger of two reals.
pub open spec fn larger(a: real, b: real) -> real {
    if a < b {
        b
    } else {
        a
    }
}

proof fn lemma_scaled_less(k: real, a: real, b: real)
    requires
        k > 0 as real,
        a < b,
    ensures
        k * a < k * b,
{
    let d = b - a;
    assert(k * d > 0 as real) by (nonlinear_arith)
        requires
            k > 0 as real,
            d > 0 as real,
    ;
    lemma_distributes(k, a, d);
}

/// In exact arithmetic fills thin out exponentially with the quoted depth. A quote at
/// no depth is lifted at the arrival rate; quoting deeper by `d` multiplies the
/// intensity by the exponential of `-kappa d`; with a positive arrival rate and decay
/// a deeper quote is lifted strictly less often, but still is; and a withdrawn quote
/// is never lifted.
pub proof fn fills_decay_exponentially<T: Real>(
    v: spec_fn(T) -> real,
    side: Side<T>,
    near: T,
    far: T,
    decay: T,
)
    requires
        exact(v),
        growth_exact(v),
        v(decay) == -(v(side.kappa) * (v(far) - v(near))),
    ensures
        near.is_finite_spec() && v(near) == 0 as real ==> v(side.rate_at(near)) == v(side.lambda),
        near.is_finite_spec() && far.is_finite_spec() ==> v(side.rate_at(far)) == v(
            side.rate_at(near),
        ) * v(decay.exp_spec()),
        near.is_finite_spec() && far.is_finite_spec() && v(side.lambda) > 0 as real && v(side.kappa)
            > 0 as real && v(near) < v(far) ==> v(side.rate_at(near)) > v(
            side.rate_at(far),
        ) > 0 as real,
        !near.is_finite_spec() ==> v(side.rate_at(near)) == 0 as real,
{
    let l = v(side.lambda);
    let k = v(side.kappa);
    let a = side.kappa.neg_spec().mul_spec(near);
    let b = side.kappa.neg_spec().mul_spec(far);
    let ea = v(a.exp_spec());
    let eb = v(b.exp_spec());
    lemma_negates(k, v(near));
    lemma_negates(k, v(far));
    assert(v(a) == -(k * v(near)));
    assert(v(b) == -(k * v(far)));
    if v(near) == 0 as real {
        assert(k * (0 as real) == 0 as real) by (nonlinear_arith);
        assert(l * (1 as real) == l) by (nonlinear_arith);
    }
    lemma_distributes(k, v(far), -v(near));
    lemma_negates(k, v(near));
    assert(v(b) == v(a) + v(decay));
    assert(eb == ea * v(decay.exp_spec()));
    lemma_associates(l, ea, v(decay.exp_spec()));
    if l > 0 as real && k > 0 as real && v(near) < v(far) {
        lemma_scaled_less(k, v(near), v(far));
        assert(ea > eb > 0 as real);
        lemma_scaled_less(l, eb, ea);
        lemma_scaled_less(l, 0 as real, eb);
        assert(l * (0 as real) == 0 as real) by (nonlinear_arith);
    }
}

/// What the liquidation penalty grows by from inventory `q` to inventory `r`.
pub open spec fn penalty_growth(alpha: real, q: int, r: int) -> real {
    alpha * ((r * r - q * q) as real)
}

proof fn lemma_odd_values<T: Real>(v: spec_fn(T) -> real, q: int)
    requires
        exact(v),
        i64::MIN <= q <= i64::MAX,
    ensures
        v(odd_up::<T>(q)) == ((q + 1) * (q + 1) - q * q) as real,
        v(odd_down::<T>(q)) == ((q - 1) * (q - 1) - q * q) as real,
{
    let two = v(T::from_u64_spec(2));
    let x = v(T::from_i64_spec(q as i64));
    assert(two == 2 as real);
    assert(x == q as real);
    assert((q + 1) * (q + 1) - q * q == 2 * q + 1) by (nonlinear_arith);
    assert((q - 1) * (q - 1) - q * q == 1 - 2 * q) by (nonlinear_arith);
    assert(two * x == x + x) by (nonlinear_arith)
        requires
            two == 2 as real,
    ;
    lemma_negates(two, x);
}

proof fn lemma_depth<T: Real>(
    v: spec_fn(T) -> real,
    alpha: T,
    odd: T,
    side: Side<T>,
    spread: T,
    u: T,
    next: T,
    x: real,
)
    requires
        exact(v),
        order_exact(v),
        v(side.kappa) != 0 as real,
        v(side.kappa) * (x - v(side.epsilon) + v(next) - v(u) - v(alpha) * v(odd)) == 1 as real,
    ensures
        v(
            alpha.mul_add_spec(
                odd,
                T::one_spec().div_spec(side.kappa).add_spec(side.epsilon),
            ).sub_spec(next).add_spec(u).max_spec(spread),
        ) == larger(x, v(spread)),
{
    let k = v(side.kappa);
    let inverse = v(T::one_spec().div_spec(side.kappa));
    let gain = x - v(side.epsilon) + v(next) - v(u) - v(alpha) * v(odd);
    assert(inverse * k == 1 as real);
    lemma_commutes(k, gain);
    lemma_cancels(inverse, gain, k);
}

/// In exact arithmetic the optimal bid balances the chance of a fill against its worth.
/// A fill at depth `x` gains the depth less the fee, the value one level up over the
/// value here, less what the liquidation penalty grows by; the intensity falls at rate
/// `kappa`, so at the best depth the gain is `1 / kappa`. That depth is quoted, unless
/// it is within the minimum spread, and nothing is quoted where there is no level up.
pub proof fn bids_are_optimal<T: Real>(
    v: spec_fn(T) -> real,
    p: MarketMakerParams<T>,
    q: int,
    u: T,
    up: T,
    x: real,
)
    requires
        exact(v),
        order_exact(v),
        i64::MIN <= q <= i64::MAX,
        v(p.buy.kappa) != 0 as real,
        v(p.buy.kappa) * (x - v(p.buy.epsilon) + v(up) - v(u) - penalty_growth(
            v(p.alpha),
            q,
            q + 1,
        )) == 1 as real,
    ensures
        v(bid_depth(p, q, u, Some(up))) == larger(x, v(p.min_spread)),
        bid_depth(p, q, u, None) == T::infinity_spec(),
{
    lemma_odd_values::<T>(v, q);
    lemma_depth(v, p.alpha, odd_up(q), p.buy, p.min_spread, u, up, x);
}

/// In exact arithmetic the optimal ask balances the chance of a fill against its worth,
/// as the bid does, with the value one level down and the ask side's parameters.
pub proof fn asks_are_optimal<T: Real>(
    v: spec_fn(T) -> real,
    p: MarketMakerParams<T>,
    q: int,
    u: T,
    down: T,
    x: real,
)
    requires
        exact(v),
        order_exact(v),
        i64::MIN <= q <= i64::MAX,
        v(p.sell.kappa) != 0 as real,
        v(p.sell.kappa) * (x - v(p.sell.epsilon) + v(down) - v(u) - penalty_growth(
            v(p.alpha),
            q,
            q - 1,
        )) == 1 as real,
    ensures
        v(ask_depth(p, q, u, Some(down))) == larger(x, v(p.min_spread)),
        ask_depth(p, q, u, None) == T::infinity_spec(),
{
    lemma_odd_values::<T>(v, q);
    lemma_depth(v, p.alpha, odd_down(q), p.sell, p.min_spread, u, down, x);
}

proof fn lemma_fill_term<T: Real>(
    v: spec_fn(T) -> real,
    side: Side<T>,
    alpha: T,
    odd: T,
    qf: T,
    u: T,
    next: T,
    e: T,
)
    requires
        exact(v),
        exponentials_exact(v),
        v(side.kappa) != 0 as real,
        v(e) == -(v(side.kappa) * (v(side.epsilon) + v(alpha) * v(odd) - v(next) + v(u))),
    ensures
        ({
            let arg = alpha.mul_add_spec(odd, side.epsilon).sub_spec(next).add_spec(u);
            let term = side.lambda.mul_spec(
                qf.mul_add_spec(
                    side.epsilon,
                    side.kappa.neg_spec().mul_spec(arg).exp_spec().div_spec(side.kappa),
                ),
            );
            v(side.kappa) * (v(term) - v(side.lambda) * (v(qf) * v(side.epsilon))) == v(
                side.lambda,
            ) * v(e.exp_spec())
        }),
{
    let arg = alpha.mul_add_spec(odd, side.epsilon).sub_spec(next).add_spec(u);
    let k = v(side.kappa);
    let l = v(side.lambda);
    let power = side.kappa.neg_spec().mul_spec(arg);
    lemma_negates(k, v(arg));
    assert(v(power) == v(e));
    assert(v(power.exp_spec()) == v(e.exp_spec()));
    let quotient = v(power.exp_spec().div_spec(side.kappa));
    assert(quotient * k == v(e.exp_spec()));
    let hold = v(qf) * v(side.epsilon);
    lemma_distributes(l, hold, quotient);
    lemma_commutes(k, l * quotient);
    lemma_associates(l, quotient, k);
}

/// In exact arithmetic the bid's term of the value equation is `-lambda q epsilon` plus
/// `lambda / kappa` times an exponential, whose exponent is `-kappa` times what a fill
/// costs: the fee, what the liquidation penalty grows by, and the value lost in moving
/// one level up. Where there is no level up, only the first part is left.
pub proof fn bids_are_worth_their_fills<T: Real>(
    v: spec_fn(T) -> real,
    p: MarketMakerParams<T>,
    q: int,
    u: LevelReads<T>,
    e: T,
)
    requires
        exact(v),
        exponentials_exact(v),
        i64::MIN <= q <= i64::MAX,
        v(p.buy.kappa) != 0 as real,
        u.up matches Some(up) ==> v(e) == -(v(p.buy.kappa) * (v(p.buy.epsilon) + penalty_growth(
            v(p.alpha),
            q,
            q + 1,
        ) - v(up) + v(u.c))),
    ensures
        ({
            let hold = v(p.buy.lambda) * (q as real * v(p.buy.epsilon));
            let rest = v(buy_term(p, q, u)) + hold;
            match u.up {
                Some(_) => v(p.buy.kappa) * rest == v(p.buy.lambda) * v(e.exp_spec()),
                None => rest == 0 as real,
            }
        }),
{
    lemma_odd_values::<T>(v, q);
    let qf = T::from_i64_spec(q as i64);
    let (l, x, eps) = (v(p.buy.lambda), q as real, v(p.buy.epsilon));
    assert(v(qf) == x);
    lemma_negates(l, x);
    lemma_negates(x, eps);
    lemma_negates(l * x, eps);
    lemma_negates(l, x * eps);
    lemma_associates(l, x, eps);
    match u.up {
        Some(up) => {
            lemma_fill_term(v, p.buy, p.alpha, odd_up(q), qf.neg_spec(), u.c, up, e);
        },
        None => {},
    }
}

/// In exact arithmetic the ask's term of the value equation is `lambda q epsilon` plus
/// `lambda / kappa` times an exponential, whose exponent is `-kappa` times what a fill
/// costs: the fee, what the liquidation penalty grows by, and the value lost in moving
/// one level down. Where there is no level down, only the first part is left.
pub proof fn asks_are_worth_their_fills<T: Real>(
    v: spec_fn(T) -> real,
    p: MarketMakerParams<T>,
    q: int,
    u: LevelReads<T>,
    e: T,
)
    requires
        exact(v),
        exponentials_exact(v),
        i64::MIN <= q <= i64::MAX,
        v(p.sell.kappa) != 0 as real,
        u.dn matches Some(down) ==> v(e) == -(v(p.sell.kappa) * (v(p.sell.epsilon) + penalty_growth(
            v(p.alpha),
            q,
            q - 1,
        ) - v(down) + v(u.c))),
    ensures
        ({
            let hold = v(p.sell.lambda) * (q as real * v(p.sell.epsilon));
            let rest = v(sell_term(p, q, u)) - hold;
            match u.dn {
                Some(_) => v(p.sell.kappa) * rest == v(p.sell.lambda) * v(e.exp_spec()),
                None => rest == 0 as real,
            }
        }),
{
    lemma_odd_values::<T>(v, q);
    let qf = T::from_i64_spec(q as i64);
    let (l, x, eps) = (v(p.sell.lambda), q as real, v(p.sell.epsilon));
    assert(v(qf) == x);
    lemma_associates(l, x, eps);
    match u.dn {
        Some(down) => {
            lemma_fill_term(v, p.sell, p.alpha, odd_down(q), qf, u.c, down, e);
        },
        None => {},
    }
}

proof fn lemma_inverse_product(x: real, i: real, h: real, d: real)
    requires
        i * h == 1 as real,
        d * h == x,
        h != 0 as real,
    ensures
        x * i == d,
{
    lemma_associates(x, i, h);
    assert(x * (1 as real) == x) by (nonlinear_arith);
    lemma_cancels(x * i, d, h);
}

/// In exact arithmetic the value at a cell of positive variance spacing moves by the
/// value equation: the midprice drift earned on the inventory, less the running penalty
/// on its square, the mean reversion along the upwinded slope, half the variance of the
/// variance times the central curvature, and the terms of the two sides.
pub proof fn values_obey_the_equation<T: Real>(
    v: spec_fn(T) -> real,
    p: MarketMakerParams<T>,
    q: int,
    h: T,
    nu: T,
    u: LevelReads<T>,
    slope: real,
    curvature: real,
)
    requires
        exact(v),
        order_exact(v),
        i64::MIN <= q <= i64::MAX,
        v(h) != 0 as real,
        slope * v(h) == (if v(p.k_speed) * (v(p.theta) - v(nu)) > 0 as real {
            v(u.p) - v(u.c)
        } else {
            v(u.c) - v(u.m)
        }),
        (curvature * v(h)) * v(h) == v(u.p) - v(u.c) + (v(u.m) - v(u.c)),
    ensures
        v(value_rate(p, q, h, nu, u)) - v(sell_term(p, q, u)) - v(buy_term(p, q, u)) == v(p.mu)
            * q as real - v(p.psi) * (v(p.sigma) * v(p.sigma)) * v(nu) * q as real * q as real + (v(
            p.k_speed,
        ) * (v(p.theta) - v(nu))) * slope + v(T::half_spec()) * (v(p.sigma) * v(p.sigma)) * v(nu)
            * curvature,
        v(T::half_spec()) + v(T::half_spec()) == 1 as real,
{
    let inv = T::one_spec().div_spec(h);
    let inv2 = inv.mul_spec(inv);
    let i = v(inv);
    let qf = T::from_i64_spec(q as i64);
    assert(v(qf) == q as real);
    assert(i * v(h) == 1 as real);
    let drift = p.k_speed.mul_spec(p.theta.sub_spec(nu));
    let d_nu = if T::zero_spec().lt_spec(drift) {
        u.p.sub_spec(u.c).mul_spec(inv)
    } else {
        u.c.sub_spec(u.m).mul_spec(inv)
    };
    let rise = if T::zero_spec().lt_spec(drift) {
        v(u.p) - v(u.c)
    } else {
        v(u.c) - v(u.m)
    };
    lemma_inverse_product(rise, i, v(h), slope);
    assert(v(d_nu) == slope);
    let bend = T::from_u64_spec(2).mul_add_spec(u.c.neg_spec(), u.p.add_spec(u.m));
    let dd_nu = bend.mul_spec(inv2);
    let two = v(T::from_u64_spec(2));
    assert(two == 2 as real);
    assert(two * (-v(u.c)) == -v(u.c) - v(u.c)) by (nonlinear_arith)
        requires
            two == 2 as real,
    ;
    lemma_inverse_product(v(bend), i, v(h), curvature * v(h));
    lemma_inverse_product(curvature * v(h), i, v(h), curvature);
    lemma_associates(v(bend), i, i);
    assert(v(dd_nu) == curvature);
}

} // verus!
