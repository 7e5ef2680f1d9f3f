//! A symmetric book does not tell long from short.
use vstd::prelude::*;

use crate::engine::exact::{
    exact, exponentials_exact, lemma_negates, lemma_same_quotient, order_exact,
};
use crate::engine::storage::Real;
use crate::physics::market_making::{
    ask_depth, bid_depth, buy_term, odd_down, odd_up, sell_term, value_rate, LevelReads,
    MarketMakerParams,
};

verus! {

/// What the opposite inventory reads: the levels above and below change places.
pub open spec fn opposite<T>(u: LevelReads<T>) -> LevelReads<T> {
    LevelReads { c: u.c, p: u.p, m: u.m, up: u.dn, dn: u.up }
}

proof fn lemma_odd<T: Real>(v: spec_fn(T) -> real, q: int)
    requires
        exact(v),
        i64::MIN < q <= i64::MAX,
    ensures
        v(odd_down::<T>(-q)) == v(odd_up::<T>(q)),
        v(T::from_i64_spec((-q) as i64)) == -v(T::from_i64_spec(q as i64)),
{
    let two = v(T::from_u64_spec(2));
    let x = v(T::from_i64_spec(q as i64));
    let y = v(T::from_i64_spec((-q) as i64));
    assert(x == q as real);
    assert(y == (-q) as real);
    assert((-q) as real == -(q as real));
    assert((-two) * (-x) == two * x) by (nonlinear_arith);
}

/// Asks at one inventory are the bids at the opposite one.
proof fn lemma_opposite_terms<T: Real>(
    v: spec_fn(T) -> real,
    p: MarketMakerParams<T>,
    q: int,
    u: LevelReads<T>,
)
    requires
        exact(v),
        exponentials_exact(v),
        i64::MIN < q <= i64::MAX,
        p.sell == p.buy,
        v(p.buy.kappa) != 0 as real,
    ensures
        v(sell_term(p, -q, opposite(u))) == v(buy_term(p, q, u)),
{
    lemma_odd::<T>(v, q);
    let qf = T::from_i64_spec(q as i64);
    let side = p.buy;
    match u.up {
        None => {
            lemma_negates(v(side.lambda), v(qf));
        },
        Some(up) => {
            let bid = p.alpha.mul_add_spec(odd_up(q), side.epsilon).sub_spec(up).add_spec(u.c);
            let ask = p.alpha.mul_add_spec(odd_down(-q), side.epsilon).sub_spec(up).add_spec(u.c);
            assert(v(bid) == v(ask));
            let a = side.kappa.neg_spec().mul_spec(ask);
            let b = side.kappa.neg_spec().mul_spec(bid);
            assert(v(a) == v(b));
            assert(v(a.exp_spec()) == v(b.exp_spec()));
            lemma_same_quotient(v, a.exp_spec(), side.kappa, b.exp_spec(), side.kappa);
        },
    }
}

/// In exact arithmetic the value equation of a symmetric book, with equal sides and no
/// midprice drift, is unchanged under a change of the inventory's sign: a surface that
/// values an inventory and its opposite equally goes on doing so.
pub proof fn symmetric_books_value_opposites_equally<T: Real>(
    v: spec_fn(T) -> real,
    p: MarketMakerParams<T>,
    q: int,
    h: T,
    nu: T,
    u: LevelReads<T>,
)
    requires
        exact(v),
        exponentials_exact(v),
        i64::MIN < q <= i64::MAX,
        p.sell == p.buy,
        v(p.buy.kappa) != 0 as real,
        v(p.mu) == 0 as real,
    ensures
        v(value_rate(p, -q, h, nu, opposite(u))) == v(value_rate(p, q, h, nu, u)),
{
    lemma_opposite_terms(v, p, q, u);
    lemma_opposite_terms(v, p, -q, opposite(u));
    lemma_odd::<T>(v, q);
    assert(-(-q) == q);
    assert(opposite(opposite(u)) == u);
    let x = v(T::from_i64_spec(q as i64));
    let w = v(p.psi.mul_spec(p.sigma.mul_spec(p.sigma)).mul_spec(nu));
    assert((w * (-x)) * (-x) == (w * x) * x) by (nonlinear_arith);
    assert(0 as real * x == 0 as real && 0 as real * (-x) == 0 as real) by (nonlinear_arith);
}

/// In exact arithmetic a symmetric book quotes long and short as mirror images: the ask
/// at one inventory is as deep as the bid at the opposite one.
pub proof fn symmetric_books_quote_mirror_images<T: Real>(
    v: spec_fn(T) -> real,
    p: MarketMakerParams<T>,
    q: int,
    u_q: T,
    u_next: Option<T>,
)
    requires
        exact(v),
        order_exact(v),
        i64::MIN < q <= i64::MAX,
        p.sell == p.buy,
    ensures
        v(ask_depth(p, -q, u_q, u_next)) == v(bid_depth(p, q, u_q, u_next)),
{
    lemma_odd::<T>(v, q);
}

} // verus!
