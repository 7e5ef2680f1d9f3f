//! Optimal market making under stochastic volatility.
//!
//! A market maker quotes bid and ask depths around a midprice whose variance `nu`
//! follows a mean-reverting process. Market orders lift the quotes at exponential
//! intensities `lambda exp(-kappa depth)`, moving the (bounded, discrete)
//! inventory `q` by one. The value function `u(tau, nu, q)` in backward time obeys
//!
//! ```text
//! du/dtau = mu q - psi sigma^2 nu q^2 + k (theta - nu) u_nu
//!         + 1/2 sigma^2 nu u_nunu + Hs(u; q) + Hb(u; q)
//! ```
//!
//! with one optimized fill term per side:
//!
//! ```text
//! Hs = ls ( q es + exp(-ks (es + alpha (1 - 2q) - u(q-1) + u(q))) / ks)   q > q_min,
//! Hb = lb (-q eb + exp(-kb (eb + alpha (1 + 2q) - u(q+1) + u(q))) / kb)   q < q_max,
//! ```
//!
//! degenerating to `ls q es` and `-lb q eb` at the inventory bounds, where the side
//! is not quoted.
//!
//! **Discretization.** The variance lives on a 1-D grid; the discrete inventory is
//! **one field per level**, so the coupling across levels is ordinary cross-field
//! reads. The drift in `nu` is upwinded, the diffusion is central, and the
//! boundaries use linear extrapolation.
//!
//! **Side conventions.** A `sell` (ask) fill moves `q` down by one and its depth
//! comes from `u(q-1) - u(q)`; a `buy` (bid) fill moves `q` up by one and its depth
//! comes from `u(q+1) - u(q)`. Depths are infinite where a side is withdrawn and
//! clamped from below by the minimum spread.

use std::sync::Arc;

use vstd::prelude::*;

use crate::discretization::stencil::reader;
use crate::engine::exact::{exact, lemma_negates, order_exact};
use crate::engine::driver::{Driver, NoNoise, WienerJump};
use crate::engine::scratch::{Scratch, ScratchSpec};
use crate::engine::state::{
    allocated_on, full_block, tailored, BlockStateMut, BlockValues, FieldHandle, FieldSpec, State,
    StateBuilder,
};
use crate::engine::storage::{Real, StorageBackend};
use crate::geometry::cartesian::CartesianGrid;
use crate::geometry::grid::{in_slab, lemma_interior_in_slab, slab_fits, BlockId, Grid};
use crate::geometry::halo::{
    extrapolation, field_filled, fill_ghosts_extrapolate, lemma_field_filled, lemma_field_ok,
    ring_fits,
};
use crate::geometry::index::{in_ext, isizes, positive, volume};
use crate::geometry::sweep::{
    set_interior, sweep_field, with_interior, with_one, write_field, CellRule,
};
use crate::geometry::view::CartesianView;
use crate::physics::model::{Model, RhsContext};
use crate::physics::paths::{
    lemma_tailored_one, reversion, volatility, Floor, Reversion, ScaledVolatility, Uniform,
    Volatility,
};
use crate::physics::stochastic_vol::{floored, from_variance, set_uniform, started, uniform_field};
use crate::util::text::{decimal, leaked, push_decimal};

verus! {

/// Intensity parameters of one quoting side.
#[derive(Debug, Clone, Copy)]
pub struct Side<T> {
    /// Baseline market-order arrival rate.
    pub lambda: T,
    /// Fill-probability decay per unit of quoted depth.
    pub kappa: T,
    /// Fee or adverse-selection parameter.
    pub epsilon: T,
}

impl<T: Real> Side<T> {
    /// Fill intensity at a quoted depth: zero for a withdrawn quote.
    pub open spec fn rate_at(self, depth: T) -> T {
        if depth.is_finite_spec() {
            self.lambda.mul_spec(self.kappa.neg_spec().mul_spec(depth).exp_spec())
        } else {
            T::zero_spec()
        }
    }

    /// Fill intensity at a quoted depth (zero for an infinite, that is withdrawn,
    /// quote).
    pub fn fill_rate(&self, depth: T) -> (r: T)
        ensures
            r == self.rate_at(depth),
    {
        if depth.is_finite() {
            self.lambda.mul(self.kappa.neg().mul(depth).exp())
        } else {
            T::zero()
        }
    }
}

/// Parameters of the market-making model.
#[derive(Debug, Clone, Copy)]
pub struct MarketMakerParams<T> {
    /// Midprice drift per unit inventory.
    pub mu: T,
    /// Running inventory penalty.
    pub psi: T,
    /// Terminal liquidation penalty.
    pub alpha: T,
    /// Variance mean-reversion speed.
    pub k_speed: T,
    /// Long-run variance.
    pub theta: T,
    /// Volatility of variance.
    pub sigma: T,
    /// Ask side: fills decrease inventory.
    pub sell: Side<T>,
    /// Bid side: fills increase inventory.
    pub buy: Side<T>,
    /// Minimum inventory (selling forbidden here).
    pub q_min: isize,
    /// Maximum inventory (buying forbidden here).
    pub q_max: isize,
    /// Floor on quoted depths.
    pub min_spread: T,
    /// Variance-domain lower edge: the grid this model runs on must span the
    /// interval over which the stability bound is taken.
    pub nu_min: T,
    /// Variance-domain upper edge.
    pub nu_max: T,
}

/// The quotient of two whole numbers.
pub open spec fn ratio<T: Real>(a: u64, b: u64) -> T {
    T::from_u64_spec(a).div_spec(T::from_u64_spec(b))
}

fn quotient<T: Real>(a: u64, b: u64) -> (r: T)
    ensures
        r == ratio::<T>(a, b),
{
    T::from_u64(a).div(T::from_u64(b))
}

impl<T: Real> Default for MarketMakerParams<T> {
    /// The reference parameterization: a liquid book with mild inventory aversion.
    fn default() -> (r: Self)
        ensures
            r == (MarketMakerParams {
                mu: ratio::<T>(1, 100),
                psi: ratio::<T>(1, 10),
                alpha: ratio::<T>(1, 100),
                k_speed: T::one_spec(),
                theta: T::one_spec(),
                sigma: ratio::<T>(1, 10),
                sell: Side {
                    lambda: T::from_u64_spec(2),
                    kappa: T::from_u64_spec(2),
                    epsilon: ratio::<T>(4, 1000),
                },
                buy: Side {
                    lambda: T::one_spec(),
                    kappa: T::from_u64_spec(2),
                    epsilon: ratio::<T>(4, 1000),
                },
                q_min: -5isize,
                q_max: 5isize,
                min_spread: ratio::<T>(1, 10000),
                nu_min: ratio::<T>(1, 1000),
                nu_max: T::from_u64_spec(2),
            }),
    {
        MarketMakerParams {
            mu: quotient(1, 100),
            psi: quotient(1, 10),
            alpha: quotient(1, 100),
            k_speed: T::one(),
            theta: T::one(),
            sigma: quotient(1, 10),
            sell: Side {
                lambda: T::from_u64(2),
                kappa: T::from_u64(2),
                epsilon: quotient(4, 1000),
            },
            buy: Side { lambda: T::one(), kappa: T::from_u64(2), epsilon: quotient(4, 1000) },
            q_min: -5,
            q_max: 5,
            min_spread: quotient(1, 10000),
            nu_min: quotient(1, 1000),
            nu_max: T::from_u64(2),
        }
    }
}

impl<T: Real> MarketMakerParams<T> {
    /// Number of inventory levels.
    pub open spec fn levels(self) -> int {
        self.q_max - self.q_min + 1
    }

    /// There is an inventory level, and the levels can be counted.
    pub open spec fn bounded(self) -> bool {
        self.q_min <= self.q_max && self.levels() <= isize::MAX
    }

    /// Number of inventory levels (fields) this model carries.
    pub fn num_levels(&self) -> (r: usize)
        requires
            self.bounded(),
        ensures
            r == self.levels(),
    {
        (self.q_max - self.q_min + 1) as usize
    }
}

/// The number `2 q + 1`.
pub open spec fn odd_up<T: Real>(q: int) -> T {
    T::from_u64_spec(2).mul_add_spec(T::from_i64_spec(q as i64), T::one_spec())
}

/// The number `1 - 2 q`.
pub open spec fn odd_down<T: Real>(q: int) -> T {
    T::from_u64_spec(2).neg_spec().mul_add_spec(T::from_i64_spec(q as i64), T::one_spec())
}

/// Optimal depth of the bid at inventory `q`, infinite where the side is withdrawn.
pub open spec fn bid_depth<T: Real>(
    p: MarketMakerParams<T>,
    q: int,
    u_q: T,
    u_up: Option<T>,
) -> T {
    match u_up {
        None => T::infinity_spec(),
        Some(uu) => p.alpha.mul_add_spec(
            odd_up(q),
            T::one_spec().div_spec(p.buy.kappa).add_spec(p.buy.epsilon),
        ).sub_spec(uu).add_spec(u_q).max_spec(p.min_spread),
    }
}

/// Optimal depth of the ask at inventory `q`, infinite where the side is withdrawn.
pub open spec fn ask_depth<T: Real>(
    p: MarketMakerParams<T>,
    q: int,
    u_q: T,
    u_dn: Option<T>,
) -> T {
    match u_dn {
        None => T::infinity_spec(),
        Some(ud) => p.alpha.mul_add_spec(
            odd_down(q),
            T::one_spec().div_spec(p.sell.kappa).add_spec(p.sell.epsilon),
        ).sub_spec(ud).add_spec(u_q).max_spec(p.min_spread),
    }
}

/// Name of the value field at inventory `q`.
pub open spec fn level_name(q: int) -> Seq<char> {
    if q < 0 {
        "u_q"@ + "-"@ + decimal((-q) as nat)
    } else {
        "u_q"@ + decimal(q as nat)
    }
}

fn name_of(q: isize) -> (r: &'static str)
    ensures
        r@ == level_name(q as int),
{
    let mut s = String::new();
    s.append("u_q");
    if q < 0 {
        s.append("-");
        push_decimal(&mut s, (-(q + 1)) as u64 + 1);
        assert(s@ =~= level_name(q as int));
    } else {
        push_decimal(&mut s, q as u64);
        assert(s@ =~= level_name(q as int));
    }
    leaked(s)
}

/// The HJB model: value function over backward time, variance and inventory.
///
/// Lives on a 1-D variance grid with one field per inventory level, integrated
/// **forward in backward time** from the zero terminal condition (a freshly built
/// state). Deterministic.
#[derive(Debug, Clone)]
pub struct HjbMarketMaker<T: Real> {
    /// Model parameters.
    pub params: MarketMakerParams<T>,
    handles: Vec<FieldHandle<T>>,
}

/// The layout of the HJB model: one field per inventory level, moved by the clock.
pub open spec fn level_layout<T: Real>(p: MarketMakerParams<T>, fields: Seq<FieldSpec>) -> bool {
    &&& fields.len() == p.levels()
    &&& forall|f: int|
        0 <= f < fields.len() ==> (#[trigger] fields[f]).name@ == level_name(p.q_min + f)
            && fields[f].halo == 1 && fields[f].drivers@ == seq![Driver::Time]
}

/// What the value-function update reads at one cell besides the grid: the value at
/// the cell and its two neighbors, and the values one level up and down, absent at
/// the inventory bounds.
pub struct LevelReads<T> {
    /// Value at the cell.
    pub c: T,
    /// Value at the next cell.
    pub p: T,
    /// Value at the previous cell.
    pub m: T,
    /// Value one inventory level up.
    pub up: Option<T>,
    /// Value one inventory level down.
    pub dn: Option<T>,
}

/// The optimized fill term of the ask side.
pub open spec fn sell_term<T: Real>(p: MarketMakerParams<T>, q: int, u: LevelReads<T>) -> T {
    let qf = T::from_i64_spec(q as i64);
    match u.dn {
        None => p.sell.lambda.mul_spec(qf).mul_spec(p.sell.epsilon),
        Some(dn) => {
            let arg = p.alpha.mul_add_spec(odd_down(q), p.sell.epsilon).sub_spec(dn).add_spec(u.c);
            p.sell.lambda.mul_spec(
                qf.mul_add_spec(
                    p.sell.epsilon,
                    p.sell.kappa.neg_spec().mul_spec(arg).exp_spec().div_spec(p.sell.kappa),
                ),
            )
        },
    }
}

/// The optimized fill term of the bid side.
pub open spec fn buy_term<T: Real>(p: MarketMakerParams<T>, q: int, u: LevelReads<T>) -> T {
    let qf = T::from_i64_spec(q as i64);
    match u.up {
        None => p.buy.lambda.neg_spec().mul_spec(qf).mul_spec(p.buy.epsilon),
        Some(up) => {
            let arg = p.alpha.mul_add_spec(odd_up(q), p.buy.epsilon).sub_spec(up).add_spec(u.c);
            p.buy.lambda.mul_spec(
                qf.neg_spec().mul_add_spec(
                    p.buy.epsilon,
                    p.buy.kappa.neg_spec().mul_spec(arg).exp_spec().div_spec(p.buy.kappa),
                ),
            )
        },
    }
}

/// The derivative of the value function at inventory `q` and variance `nu`, on a
/// grid of spacing `h`: upwinded mean-reversion drift, central diffusion, source
/// and fill terms.
pub open spec fn value_rate<T: Real>(
    p: MarketMakerParams<T>,
    q: int,
    h: T,
    nu: T,
    u: LevelReads<T>,
) -> T {
    let inv = T::one_spec().div_spec(h);
    let inv2 = inv.mul_spec(inv);
    let sigma2 = p.sigma.mul_spec(p.sigma);
    let qf = T::from_i64_spec(q as i64);
    let drift = p.k_speed.mul_spec(p.theta.sub_spec(nu));
    let d_nu = if T::zero_spec().lt_spec(drift) {
        u.p.sub_spec(u.c).mul_spec(inv)
    } else {
        u.c.sub_spec(u.m).mul_spec(inv)
    };
    let dd_nu = T::from_u64_spec(2).mul_add_spec(u.c.neg_spec(), u.p.add_spec(u.m)).mul_spec(inv2);
    let source = p.mu.mul_add_spec(
        qf,
        p.psi.mul_spec(sigma2).mul_spec(nu).mul_spec(qf).mul_spec(qf).neg_spec(),
    );
    T::half_spec().mul_spec(sigma2).mul_spec(nu).mul_add_spec(
        dd_nu,
        drift.mul_add_spec(d_nu, source),
    ).add_spec(sell_term(p, q, u)).add_spec(buy_term(p, q, u))
}

/// What the update of level `f` reads at a cell of a block.
pub open spec fn level_reads<T: Real>(
    fields: Seq<Seq<T>>,
    ext: Seq<int>,
    f: int,
    idx: Seq<int>,
) -> LevelReads<T> {
    let u = reader(fields[f], ext, 1);
    LevelReads {
        c: u(idx),
        p: u(seq![idx[0] + 1]),
        m: u(seq![idx[0] - 1]),
        up: if f + 1 < fields.len() {
            Some(reader(fields[f + 1], ext, 1)(idx))
        } else {
            None
        },
        dn: if f > 0 {
            Some(reader(fields[f - 1], ext, 1)(idx))
        } else {
            None
        },
    }
}

/// The update of level `f` on a block.
pub open spec fn level_rate<T: Real>(
    p: MarketMakerParams<T>,
    grid: &CartesianGrid<T, 1>,
    b: int,
    fields: Seq<Seq<T>>,
    f: int,
    out: Seq<T>,
) -> Seq<T> {
    with_interior(
        out,
        grid.tile(),
        1,
        |idx: Seq<int>, old: T|
            value_rate(
                p,
                p.q_min + f,
                grid.step(0),
                grid.center_of(b, idx, 0),
                level_reads(fields, grid.tile(), f, idx),
            ),
    )
}

/// The update of the first `n` levels on a block.
pub open spec fn level_rates<T: Real>(
    p: MarketMakerParams<T>,
    grid: &CartesianGrid<T, 1>,
    b: int,
    fields: Seq<Seq<T>>,
    out: BlockValues<T>,
    n: int,
) -> BlockValues<T> {
    BlockValues {
        fields: Seq::new(
            out.fields.len(),
            |f: int|
                if f < n {
                    level_rate(p, grid, b, fields, f, out.fields[f])
                } else {
                    out.fields[f]
                },
        ),
        rate: out.rate,
    }
}

struct LevelRule<'a, 'b, T: Real> {
    params: &'a MarketMakerParams<T>,
    grid: &'a CartesianGrid<T, 1>,
    block: BlockId,
    q: isize,
    h: T,
    u: &'a CartesianView<'b, T, 1>,
    up: Option<CartesianView<'b, T, 1>>,
    dn: Option<CartesianView<'b, T, 1>>,
}

impl<'a, 'b, T: Real> LevelRule<'a, 'b, T> {
    spec fn reads(&self, idx: Seq<int>) -> LevelReads<T> {
        let u = reader(self.u.data(), self.u.ext(), self.u.width());
        LevelReads {
            c: u(idx),
            p: u(seq![idx[0] + 1]),
            m: u(seq![idx[0] - 1]),
            up: match self.up {
                None => None,
                Some(v) => Some(reader(v.data(), v.ext(), v.width())(idx)),
            },
            dn: match self.dn {
                None => None,
                Some(v) => Some(reader(v.data(), v.ext(), v.width())(idx)),
            },
        }
    }

    spec fn ready(&self) -> bool {
        &&& self.grid.valid()
        &&& self.block.id() < self.grid.blocks()
        &&& self.u.valid()
        &&& self.u.width() >= 1
        &&& positive(self.u.ext())
        &&& self.up matches Some(v) ==> v.valid() && v.ext() == self.u.ext()
        &&& self.dn matches Some(v) ==> v.valid() && v.ext() == self.u.ext()
    }

    fn sell(&self, qf: T, c: T, dn: Option<T>) -> (r: T)
        requires
            qf == T::from_i64_spec(self.q as i64),
        ensures
            forall|u: LevelReads<T>| u.c == c && u.dn == dn ==> r == #[trigger] sell_term(
                *self.params,
                self.q as int,
                u,
            ),
    {
        let p = self.params;
        match dn {
            None => p.sell.lambda.mul(qf).mul(p.sell.epsilon),
            Some(v) => {
                let odd = T::from_u64(2).neg().mul_add(qf, T::one());
                let arg = p.alpha.mul_add(odd, p.sell.epsilon).sub(v).add(c);
                p.sell.lambda.mul(
                    qf.mul_add(
                        p.sell.epsilon,
                        p.sell.kappa.neg().mul(arg).exp().div(p.sell.kappa),
                    ),
                )
            },
        }
    }

    fn buy(&self, qf: T, c: T, up: Option<T>) -> (r: T)
        requires
            qf == T::from_i64_spec(self.q as i64),
        ensures
            forall|u: LevelReads<T>| u.c == c && u.up == up ==> r == #[trigger] buy_term(
                *self.params,
                self.q as int,
                u,
            ),
    {
        let p = self.params;
        match up {
            None => p.buy.lambda.neg().mul(qf).mul(p.buy.epsilon),
            Some(v) => {
                let odd = T::from_u64(2).mul_add(qf, T::one());
                let arg = p.alpha.mul_add(odd, p.buy.epsilon).sub(v).add(c);
                p.buy.lambda.mul(
                    qf.neg().mul_add(
                        p.buy.epsilon,
                        p.buy.kappa.neg().mul(arg).exp().div(p.buy.kappa),
                    ),
                )
            },
        }
    }
}

impl<'a, 'b, T: Real> CellRule<T, 1> for LevelRule<'a, 'b, T> {
    closed spec fn reaches(&self, idx: Seq<int>) -> bool {
        self.ready() && in_ext(idx, self.u.ext())
    }

    closed spec fn value(&self, idx: Seq<int>, old: T) -> T {
        value_rate(
            *self.params,
            self.q as int,
            self.h,
            self.grid.center_of(self.block.id(), idx, 0),
            self.reads(idx),
        )
    }

    fn eval(&self, idx: [isize; 1], old: T) -> (r: T) {
        let p = self.params;
        let ghost c = isizes(idx);
        let ghost ext = self.u.ext();
        proof {
            assert(c[0] == idx[0]);
            assert(0 <= c[0] < ext[0]);
            lemma_interior_in_slab(c, ext, self.u.width());
            assert(in_slab(seq![c[0] + 1], ext, self.u.width()));
            assert(in_slab(seq![c[0] - 1], ext, self.u.width()));
            self.u.lemma_reach(seq![c[0] + 1]);
            assert(seq![c[0] + 1][0] <= isize::MAX);
        }
        let nu = self.grid.cell_center(self.block, idx)[0];
        let u_c = self.u.get(idx);
        let next: [isize; 1] = [idx[0] + 1];
        let prev: [isize; 1] = [idx[0] - 1];
        proof {
            assert(isizes(next) =~= seq![c[0] + 1]);
            assert(isizes(prev) =~= seq![c[0] - 1]);
        }
        let u_p = self.u.get(next);
        let u_m = self.u.get(prev);
        let up = match &self.up {
            None => None,
            Some(v) => {
                proof {
                    lemma_interior_in_slab(c, ext, v.width());
                }
                Some(v.get(idx))
            },
        };
        let dn = match &self.dn {
            None => None,
            Some(v) => {
                proof {
                    lemma_interior_in_slab(c, ext, v.width());
                }
                Some(v.get(idx))
            },
        };
        let inv = T::one().div(self.h);
        let inv2 = inv.mul(inv);
        let sigma2 = p.sigma.mul(p.sigma);
        let qf = T::from_i64(self.q as i64);
        let drift = p.k_speed.mul(p.theta.sub(nu));
        let d_nu = if T::zero().lt(drift) {
            u_p.sub(u_c).mul(inv)
        } else {
            u_c.sub(u_m).mul(inv)
        };
        let dd_nu = T::from_u64(2).mul_add(u_c.neg(), u_p.add(u_m)).mul(inv2);
        let sell = self.sell(qf, u_c, dn);
        let buy = self.buy(qf, u_c, up);
        let source = p.mu.mul_add(qf, p.psi.mul(sigma2).mul(nu).mul(qf).mul(qf).neg());
        let ghost u = self.reads(c);
        proof {
            assert(u.c == u_c && u.p == u_p && u.m == u_m && u.up == up && u.dn == dn);
            assert(sell == sell_term(*p, self.q as int, u));
            assert(buy == buy_term(*p, self.q as int, u));
        }
        T::half().mul(sigma2).mul(nu).mul_add(dd_nu, drift.mul_add(d_nu, source)).add(sell).add(buy)
    }
}

impl<T: Real> HjbMarketMaker<T> {
    /// The parameters.
    pub closed spec fn setup(&self) -> MarketMakerParams<T> {
        self.params
    }

    /// The handles of the value fields, in inventory order.
    pub closed spec fn fields_of(&self) -> Seq<FieldHandle<T>> {
        self.handles@
    }

    /// There is one field per inventory level, in inventory order.
    pub open spec fn registered(&self) -> bool {
        &&& self.setup().bounded()
        &&& self.fields_of().len() == self.setup().levels()
        &&& forall|f: int|
            0 <= f < self.fields_of().len() ==> (#[trigger] self.fields_of()[f]).pos() == f
    }

    /// A model with the given parameters; fields are registered when a simulation
    /// is made.
    pub fn new(params: MarketMakerParams<T>) -> (r: Self)
        ensures
            r.setup() == params,
            r.fields_of().len() == 0,
    {
        HjbMarketMaker { params, handles: Vec::new() }
    }

    /// Field handles in inventory order (index 0 is the minimum inventory).
    pub fn handles(&self) -> (r: &[FieldHandle<T>])
        requires
            self.fields_of().len() > 0,
        ensures
            r@ == self.fields_of(),
    {
        self.handles.as_slice()
    }

    /// Handle of the value field at inventory `q`.
    pub fn handle(&self, q: isize) -> (r: FieldHandle<T>)
        requires
            self.registered(),
            self.setup().q_min <= q <= self.setup().q_max,
        ensures
            r.pos() == q - self.setup().q_min,
    {
        let i = (q - self.params.q_min) as usize;
        let r = self.handles[i];
        assert(r == self.fields_of()[i as int]);
        r
    }

    /// Optimal quoted depths `(bid, ask)` at inventory `q` from the value at this
    /// level and its inventory neighbors (absent at the respective bound, where the
    /// side is withdrawn and the depth is infinite). Clamped by the minimum spread.
    pub fn optimal_depths(&self, q: isize, u_q: T, u_up: Option<T>, u_dn: Option<T>) -> (r: (T, T))
        ensures
            r.0 == bid_depth(self.setup(), q as int, u_q, u_up),
            r.1 == ask_depth(self.setup(), q as int, u_q, u_dn),
    {
        let p = &self.params;
        let qf = T::from_i64(q as i64);
        let bid = match u_up {
            None => T::infinity(),
            Some(uu) => p.alpha.mul_add(
                T::from_u64(2).mul_add(qf, T::one()),
                T::one().div(p.buy.kappa).add(p.buy.epsilon),
            ).sub(uu).add(u_q).max(p.min_spread),
        };
        let ask = match u_dn {
            None => T::infinity(),
            Some(ud) => p.alpha.mul_add(
                T::from_u64(2).neg().mul_add(qf, T::one()),
                T::one().div(p.sell.kappa).add(p.sell.epsilon),
            ).sub(ud).add(u_q).max(p.min_spread),
        };
        (bid, ask)
    }
}

/// The contents with the ghosts of the first `n` fields extrapolated.
pub open spec fn extrapolated<T: Real>(
    grid: &CartesianGrid<T, 1>,
    fields: Seq<FieldSpec>,
    v: Seq<BlockValues<T>>,
    n: nat,
) -> Seq<BlockValues<T>>
    decreases n,
{
    if n == 0 {
        v
    } else {
        field_filled(
            grid,
            &extrapolation(grid),
            fields,
            extrapolated(grid, fields, v, (n - 1) as nat),
            n - 1,
        )
    }
}

/// The stiff advection-diffusion operator at variance `nu` away from the ends of
/// the domain: coefficients of the lower neighbor, the cell and the upper neighbor.
pub open spec fn transport_row<T: Real>(p: MarketMakerParams<T>, h: T, nu: T) -> (T, T, T) {
    let inv = T::one_spec().div_spec(h);
    let inv2 = inv.mul_spec(inv);
    let sigma2 = p.sigma.mul_spec(p.sigma);
    let a = T::half_spec().mul_spec(sigma2).mul_spec(nu).mul_spec(inv2);
    let drift = p.k_speed.mul_spec(p.theta.sub_spec(nu));
    let adv = drift.mul_spec(inv);
    (
        a.add_spec(
            if drift.le_spec(T::zero_spec()) {
                adv.neg_spec()
            } else {
                T::zero_spec()
            },
        ),
        T::from_u64_spec(2).mul_add_spec(
            a.neg_spec(),
            drift.abs_spec().neg_spec().mul_spec(inv),
        ),
        a.add_spec(
            if T::zero_spec().lt_spec(drift) {
                adv
            } else {
                T::zero_spec()
            },
        ),
    )
}

/// A row with the extrapolated lower ghost, twice the edge less the inner cell,
/// folded in.
pub open spec fn fold_low<T: Real>(r: (T, T, T)) -> (T, T, T) {
    (T::zero_spec(), T::from_u64_spec(2).mul_add_spec(r.0, r.1), r.2.sub_spec(r.0))
}

/// A row with the extrapolated upper ghost folded in.
pub open spec fn fold_high<T: Real>(r: (T, T, T)) -> (T, T, T) {
    (r.0.sub_spec(r.2), T::from_u64_spec(2).mul_add_spec(r.2, r.1), T::zero_spec())
}

/// The stiff row of cell `i` of block `b`.
pub open spec fn stiff_row<T: Real>(
    p: MarketMakerParams<T>,
    grid: &CartesianGrid<T, 1>,
    b: int,
    i: int,
) -> [T; 3] {
    let inner = transport_row(p, grid.step(0), grid.center_of(b, seq![i], 0));
    let global = b * grid.tile()[0] + i;
    let low = if global == 0 {
        fold_low(inner)
    } else {
        inner
    };
    let r = if global == grid.domain()[0] - 1 {
        fold_high(low)
    } else {
        low
    };
    [r.0, r.1, r.2]
}

/// In exact arithmetic every stiff row sums to zero, at the ends of the domain too: a
/// constant value surface is not transported.
pub proof fn stiff_rows_sum_to_zero<T: Real>(
    v: spec_fn(T) -> real,
    p: MarketMakerParams<T>,
    grid: &CartesianGrid<T, 1>,
    b: int,
    i: int,
)
    requires
        exact(v),
        order_exact(v),
    ensures
        ({
            let row = stiff_row(p, grid, b, i);
            v(row[0]) + v(row[1]) + v(row[2]) == 0 as real
        }),
{
    let h = grid.step(0);
    let nu = grid.center_of(b, seq![i], 0);
    let r = transport_row(p, h, nu);
    let inv = v(T::one_spec().div_spec(h));
    let drift = p.k_speed.mul_spec(p.theta.sub_spec(nu));
    let d = v(drift);
    let zero = v(T::zero_spec());
    let two = T::from_u64_spec(2);
    assert(v(two) == 2 as real);
    assert forall|x: T, y: T| #[trigger] v(two.mul_add_spec(x, y)) == v(x) + v(x) + v(y) by {
        assert(v(two) * v(x) == v(x) + v(x)) by (nonlinear_arith)
            requires
                v(two) == 2 as real,
        ;
    }
    assert(v(r.0) + v(r.1) + v(r.2) == 0 as real) by {
        lemma_negates(d, inv);
        assert(zero == 0 as real);
        if d <= 0 as real {
            assert(drift.le_spec(T::zero_spec()));
            assert(!T::zero_spec().lt_spec(drift));
            if d < 0 as real {
                assert(-(-d) == d);
            } else {
                assert(-d == d);
            }
        } else {
            assert(!drift.le_spec(T::zero_spec()));
            assert(T::zero_spec().lt_spec(drift));
        }
        let adv = d * inv;
        assert(v(drift.abs_spec().neg_spec().mul_spec(T::one_spec().div_spec(h))) == (if d
            <= 0 as real {
            adv
        } else {
            -adv
        }));
    }
    let low = fold_low(r);
    assert(v(low.0) + v(low.1) + v(low.2) == v(r.0) + v(r.1) + v(r.2));
    let high = fold_high(r);
    assert(v(high.0) + v(high.1) + v(high.2) == v(r.0) + v(r.1) + v(r.2));
    let both = fold_high(low);
    assert(v(both.0) + v(both.1) + v(both.2) == v(low.0) + v(low.1) + v(low.2));
}

/// Explicit stability bound at variance `nu`: diffusion and advection jointly.
pub open spec fn joint_bound<T: Real>(p: MarketMakerParams<T>, h: T, nu: T) -> T {
    p.sigma.mul_spec(p.sigma).mul_spec(nu).div_spec(h.powi_spec(2)).add_spec(
        p.k_speed.mul_spec(p.theta.sub_spec(nu)).abs_spec().div_spec(h),
    )
}

/// A number moved into an interval.
pub open spec fn clamped<T: Real>(x: T, lo: T, hi: T) -> T {
    let y = if x.lt_spec(lo) {
        lo
    } else {
        x
    };
    if hi.lt_spec(y) {
        hi
    } else {
        y
    }
}

/// The largest stability bound over the variance domain. The bound is piecewise
/// linear with a kink at the long-run variance, so its maximum is at an end or
/// there.
pub open spec fn worst_bound<T: Real>(p: MarketMakerParams<T>, h: T) -> T {
    joint_bound(p, h, p.nu_min).max_spec(joint_bound(p, h, p.nu_max)).max_spec(
        joint_bound(p, h, clamped(p.theta, p.nu_min, p.nu_max)),
    )
}

impl<T: Real, P: Sync> Model<T, CartesianGrid<T, 1>, P, 1> for HjbMarketMaker<T> {
    type Drivers = NoNoise;

    open spec fn accepts(&self, grid: &CartesianGrid<T, 1>, disc: &P) -> bool {
        &&& self.setup().bounded()
        &&& ring_fits(grid, 1)
        &&& slab_fits(grid.tile(), 0)
        &&& grid.tile()[0] >= 2
    }

    open spec fn supports(
        &self,
        grid: &CartesianGrid<T, 1>,
        disc: &P,
        fields: Seq<FieldSpec>,
    ) -> bool {
        &&& self.registered()
        &&& level_layout(self.setup(), fields)
        &&& ring_fits(grid, 1)
        &&& grid.tile()[0] >= 2
    }

    open spec fn registers(&self, after: &Self, fields: Seq<FieldSpec>) -> bool {
        self.setup().bounded() ==> after.setup() == self.setup() && after.registered()
            && level_layout(self.setup(), fields)
    }

    open spec fn scratch_of(&self, grid: &CartesianGrid<T, 1>) -> ScratchSpec {
        ScratchSpec { slabs: 0, slab_len: 0 }
    }

    open spec fn filled(
        &self,
        grid: &CartesianGrid<T, 1>,
        fields: Seq<FieldSpec>,
        values: Seq<BlockValues<T>>,
        t: T,
    ) -> Seq<BlockValues<T>> {
        extrapolated(grid, fields, values, fields.len())
    }

    open spec fn vector_field(
        &self,
        driver: Driver,
        grid: &CartesianGrid<T, 1>,
        disc: &P,
        t: T,
        b: int,
        fields: Seq<FieldSpec>,
        values: Seq<BlockValues<T>>,
        out: BlockValues<T>,
    ) -> BlockValues<T> {
        level_rates(self.setup(), grid, b, values[b].fields, out, fields.len() as int)
    }

    open spec fn stiff_part(&self, grid: &CartesianGrid<T, 1>, b: int, f: int) -> Option<
        Seq<[T; 3]>,
    > {
        Some(
            Seq::new(
                volume(grid.tile()) as nat,
                |i: int| stiff_row(self.setup(), grid, b, i),
            ),
        )
    }

    open spec fn nonstiff_limit(&self, spacing: [T; 1]) -> Option<T> {
        let rate = self.setup().sell.lambda.add_spec(self.setup().buy.lambda);
        if T::zero_spec().lt_spec(rate) {
            Some(ratio::<T>(4, 10).div_spec(rate))
        } else {
            None
        }
    }

    open spec fn explicit_limit(&self, spacing: [T; 1]) -> Option<T> {
        let worst = worst_bound(self.setup(), spacing[0]);
        if T::zero_spec().lt_spec(worst) {
            Some(ratio::<T>(8, 10).div_spec(worst))
        } else {
            None
        }
    }

    fn register_fields(&mut self, builder: &mut StateBuilder<T>) {
        let ghost p = self.params;
        let mut handles: Vec<FieldHandle<T>> = Vec::new();
        let mut q = self.params.q_min;
        let q_max = self.params.q_max;
        if q <= q_max {
            let mut more = true;
            while more
                invariant
                    q_max == p.q_max,
                    p.q_min <= q <= q_max,
                    more ==> handles@.len() == q - p.q_min,
                    !more ==> q == q_max && handles@.len() == q - p.q_min + 1,
                    builder.fields().len() == handles@.len(),
                    forall|f: int|
                        0 <= f < handles@.len() ==> (#[trigger] handles@[f]).pos() == f,
                    forall|f: int|
                        0 <= f < builder.fields().len() ==> (#[trigger] builder.fields()[f]).name@
                            == level_name(p.q_min + f) && builder.fields()[f].halo == 1
                            && builder.fields()[f].drivers@ == seq![Driver::Time],
                decreases
                        q_max - q + (if more {
                            1int
                        } else {
                            0int
                        }),
            {
                let ghost before = builder.fields();
                let h = builder.register(name_of(q), 1);
                proof {
                    let after = builder.fields();
                    assert forall|f: int| 0 <= f < after.len() implies (
                    #[trigger] after[f]).name@ == level_name(p.q_min + f) && after[f].halo == 1
                        && after[f].drivers@ == seq![Driver::Time] by {
                        if f < before.len() {
                            assert(after.drop_last()[f] == after[f]);
                            assert(before[f] == after[f]);
                        } else {
                            assert(after.last() == after[f]);
                        }
                    }
                }
                handles.push(h);
                if q < q_max {
                    q = q + 1;
                } else {
                    more = false;
                }
            }
        }
        self.handles = handles;
    }

    fn scratch_spec(&self, grid: &CartesianGrid<T, 1>) -> (r: ScratchSpec) {
        ScratchSpec::none()
    }

    fn fill_ghosts<S: StorageBackend<T>>(
        &self,
        grid: &CartesianGrid<T, 1>,
        disc: &P,
        state: &mut State<T, S>,
        t: T,
    ) {
        let ghost fields = state.fields();
        let ghost v = state.values();
        let n = self.handles.len();
        let mut i: usize = 0;
        while i < n
            invariant
                i <= n,
                n == self.handles@.len(),
                n == fields.len(),
                self.registered(),
                level_layout(self.setup(), fields),
                ring_fits(grid, 1),
                grid.tile()[0] >= 2,
                grid.valid(),
                state.fields() == fields,
                allocated_on::<T, T, CartesianGrid<T, 1>, 1>(fields, grid, state.values()),
                state.values() == extrapolated(grid, fields, v, i as nat),
            decreases n - i,
        {
            let h = self.handles[i];
            proof {
                assert(h == self.fields_of()[i as int]);
                assert(fields[i as int].halo == 1);
                lemma_field_ok(grid, state, i as int);
                lemma_field_filled(grid, &extrapolation(grid), fields, state.values(), i as int);
                assert(forall|d: int| 0 <= d < 1 ==> #[trigger] grid.tile()[d] >= 2);
            }
            fill_ghosts_extrapolate(grid, state, h);
            i += 1;
        }
    }

    fn vector_field_block<S: StorageBackend<T>>(
        &self,
        driver: Driver,
        ctx: &RhsContext<'_, T, CartesianGrid<T, 1>, P>,
        state: &State<T, S>,
        out: &mut BlockStateMut<'_, T, S>,
        scratch: &mut Scratch<T, S>,
    ) {
        let grid = ctx.grid;
        let block = ctx.block;
        let ghost b = block.id();
        let ghost ext = grid.tile();
        let ghost fields = state.fields();
        let ghost slabs = state.values()[b].fields;
        let ghost start = out.storage.values();
        let ghost p = self.setup();
        let ghost layout = out.layout;
        let ghost slot = *final(out.storage);
        let h = grid.spacing(block)[0];
        let n = self.handles.len();
        proof {
            grid.lemma_blocks();
            assert(grid.extent_of(b) == ext);
            assert(driver == Driver::Time);
            assert(full_block(fields, ext, state.values()[b]));
            assert(out.storage.values() =~~= level_rates(p, grid, b, slabs, start, 0));
        }
        let mut i: usize = 0;
        while i < n
            invariant
                i <= n,
                n == self.handles@.len(),
                n == fields.len(),
                p == self.setup(),
                self.registered(),
                level_layout(p, fields),
                grid.valid(),
                positive(ext),
                ext == grid.tile(),
                b == block.id(),
                b < grid.blocks(),
                h == grid.step(0),
                fields == state.fields(),
                allocated_on::<T, T, CartesianGrid<T, 1>, 1>(fields, grid, state.values()),
                full_block(fields, ext, state.values()[b]),
                slabs == state.values()[b].fields,
                layout.fields() == fields,
                out.layout == layout,
                *final(out.storage) == slot,
                driver == Driver::Time,
                tailored(fields, ext, driver, start),
                tailored(fields, ext, driver, out.storage.values()),
                out.storage.values() == level_rates(p, grid, b, slabs, start, i as int),
            decreases n - i,
        {
            let ghost before = out.storage.values();
            let handle = self.handles[i];
            let q = self.params.q_min + i as isize;
            proof {
                assert(handle == self.fields_of()[i as int]);
                assert(fields[i as int].halo == 1);
                assert(grid.extent_of(b) == ext);
                assert(slab_fits(ext, fields[i as int].halo as int));
                assert(fields[i as int].drivers@[0] == Driver::Time);
                assert(fields[i as int].moved_by(Driver::Time));
                assert(before.fields[i as int].len() == volume(
                    crate::geometry::grid::ghosted(ext, 1),
                ));
                assert(state.values()[b].fields[i as int].len() == volume(
                    crate::geometry::grid::ghosted(ext, 1),
                ));
            }
            let u = state.view(grid, block, handle);
            let up = if i + 1 < n {
                let above = self.handles[i + 1];
                proof {
                    assert(above == self.fields_of()[i + 1]);
                    assert(fields[i + 1].halo == 1);
                    assert(slab_fits(ext, fields[i + 1].halo as int));
                    assert(state.values()[b].fields[i + 1].len() == volume(
                        crate::geometry::grid::ghosted(ext, 1),
                    ));
                }
                Some(state.view(grid, block, above))
            } else {
                None
            };
            let dn = if i > 0 {
                let below = self.handles[i - 1];
                proof {
                    assert(below == self.fields_of()[i - 1]);
                    assert(fields[i - 1].halo == 1);
                    assert(slab_fits(ext, fields[i - 1].halo as int));
                    assert(state.values()[b].fields[i - 1].len() == volume(
                        crate::geometry::grid::ghosted(ext, 1),
                    ));
                }
                Some(state.view(grid, block, below))
            } else {
                None
            };
            let rule = LevelRule { params: &self.params, grid, block, q, h, u: &u, up, dn };
            write_field(out, grid, block, handle, &rule);
            proof {
                let f = i as int;
                let after = out.storage.values();
                let slab = level_rate(p, grid, b, slabs, f, start.fields[f]);
                assert forall|idx: Seq<int>| rule.reads(idx) == #[trigger] level_reads(
                    slabs,
                    ext,
                    f,
                    idx,
                ) by {}
                assert(after.fields[f] =~= slab);
                lemma_tailored_one(fields, ext, driver, before, f, after.fields[f]);
                assert(after =~~= with_one(before, f, after.fields[f]));
                assert(after =~~= level_rates(p, grid, b, slabs, start, f + 1));
            }
            i += 1;
        }
    }

    fn project<S: StorageBackend<T>>(
        &self,
        grid: &CartesianGrid<T, 1>,
        disc: &P,
        state: &mut State<T, S>,
    ) {
    }

    /// The stiff advection-diffusion operator, one tridiagonal row per interior
    /// cell: the linear part of the drift that carries the explicit scheme's
    /// stiffness. Identical for every inventory level, so `field` is ignored; only
    /// the nonlinear, cross-level fill terms and the source are left to the
    /// explicit remainder. The extrapolated boundary is folded into the first and
    /// last rows of the domain, since the implicit solve sees no ghosts.
    fn stiff_rows(
        &self,
        grid: &CartesianGrid<T, 1>,
        disc: &P,
        block: BlockId,
        field: FieldHandle<T>,
        rows: &mut [[T; 3]],
    ) -> (r: bool) {
        let p = &self.params;
        let ghost b = block.id();
        let ghost want = Seq::new(
            volume(grid.tile()) as nat,
            |i: int| stiff_row(self.setup(), grid, b, i),
        );
        let h = grid.spacing(block)[0];
        let inv = T::one().div(h);
        let inv2 = inv.mul(inv);
        let sigma2 = p.sigma.mul(p.sigma);
        let bc = grid.block_cells()[0];
        let cells = grid.cells()[0];
        proof {
            let ext = grid.tile();
            reveal_with_fuel(volume, 2);
            assert(ext.drop_first().len() == 0);
            assert(volume(ext) == ext[0]);
            assert(grid.extent_of(b) == ext);
            assert(slab_fits(ext, 0));
            assert(crate::geometry::grid::ghosted(ext, 0) =~= ext);
            let t = grid.tiling();
            assert(t.drop_first().len() == 0);
            assert(volume(t) == t[0]);
            assert(grid.domain()[0] == t[0] * ext[0]);
            assert(positive(ext));
            assert(b * ext[0] + ext[0] <= t[0] * ext[0]) by (nonlinear_arith)
                requires
                    0 <= b < t[0],
                    ext[0] > 0,
            ;
        }
        let n = rows.len();
        let base = block.index() * bc;
        let mut i: usize = 0;
        while i < n
            invariant
                i <= n,
                n == rows@.len(),
                n == old(rows)@.len(),
                n == volume(grid.tile()),
                n == grid.tile()[0],
                n <= isize::MAX,
                grid.valid(),
                b == block.id(),
                b < grid.blocks(),
                *p == self.setup(),
                h == grid.step(0),
                inv == T::one_spec().div_spec(h),
                inv2 == inv.mul_spec(inv),
                sigma2 == p.sigma.mul_spec(p.sigma),
                base == b * grid.tile()[0],
                base + n <= cells,
                cells == grid.domain()[0],
                want == Seq::new(
                    volume(grid.tile()) as nat,
                    |i: int| stiff_row(self.setup(), grid, b, i),
                ),
                forall|k: int| 0 <= k < i ==> #[trigger] rows@[k] == want[k],
            decreases n - i,
        {
            let at: [isize; 1] = [i as isize];
            let nu = grid.cell_center(block, at)[0];
            let a = T::half().mul(sigma2).mul(nu).mul(inv2);
            let drift = p.k_speed.mul(p.theta.sub(nu));
            let adv = drift.mul(inv);
            let mut lo = a.add(
                if drift.le(T::zero()) {
                    adv.neg()
                } else {
                    T::zero()
                },
            );
            let mut ctr = T::from_u64(2).mul_add(a.neg(), drift.abs().neg().mul(inv));
            let mut hi = a.add(
                if T::zero().lt(drift) {
                    adv
                } else {
                    T::zero()
                },
            );
            proof {
                assert(isizes(at) =~= seq![i as int]);
            }
            let global = base + i;
            if global == 0 {
                ctr = T::from_u64(2).mul_add(lo, ctr);
                hi = hi.sub(lo);
                lo = T::zero();
            }
            if global == cells - 1 {
                ctr = T::from_u64(2).mul_add(hi, ctr);
                lo = lo.sub(hi);
                hi = T::zero();
            }
            rows[i] = [lo, ctr, hi];
            assert(rows@[i as int] =~= want[i as int]);
            i += 1;
        }
        assert(rows@ =~= want);
        true
    }

    /// Stable step of the nonstiff remainder: a bounded reaction that does not
    /// depend on the spacing, so an implicit-explicit scheme's step is capped by
    /// the fill intensity, not the grid.
    fn stable_dt_nonstiff(&self, spacing: [T; 1]) -> (r: Option<T>) {
        let rate = self.params.sell.lambda.add(self.params.buy.lambda);
        if T::zero().lt(rate) {
            Some(quotient::<T>(4, 10).div(rate))
        } else {
            None
        }
    }

    /// Binding bound of the explicit upwind and central scheme. The diffusion and
    /// advection restrictions are **joint**, not separate. The bound is taken over
    /// the model's own variance domain: a pure function of the spacing, so
    /// subcycling can evaluate it per level.
    fn stable_dt(&self, spacing: [T; 1]) -> (r: Option<T>) {
        let p = &self.params;
        let h = spacing[0];
        let worst = p.bound_at(h, p.nu_min).max(p.bound_at(h, p.nu_max)).max(
            p.bound_at(h, clamp(p.theta, p.nu_min, p.nu_max)),
        );
        if T::zero().lt(worst) {
            Some(quotient::<T>(8, 10).div(worst))
        } else {
            None
        }
    }
}

fn clamp<T: Real>(x: T, lo: T, hi: T) -> (r: T)
    ensures
        r == clamped(x, lo, hi),
{
    let y = if x.lt(lo) {
        lo
    } else {
        x
    };
    if hi.lt(y) {
        hi
    } else {
        y
    }
}

impl<T: Real> MarketMakerParams<T> {
    fn bound_at(&self, h: T, nu: T) -> (r: T)
        ensures
            r == joint_bound(*self, h, nu),
    {
        self.sigma.mul(self.sigma).mul(nu).div(h.powi(2)).add(
            self.k_speed.mul(self.theta.sub(nu)).abs().div(h),
        )
    }
}

/// Optimal quoted depths on the lattice of backward time, variance and inventory,
/// with nearest-node lookup: the interface between the [`HjbMarketMaker`] solve and
/// the controlled path ensemble ([`MarketMakingEnsemble`]).
///
/// For each recorded backward-time frame the depths of both sides are baked into
/// tables, inventory level by inventory level, an infinite depth marking a withdrawn
/// side.
#[derive(Debug, Clone)]
pub struct DepthTables<T: Real> {
    dtau: T,
    nu_min: T,
    dnu: T,
    n_nu: usize,
    q_min: isize,
    q_max: isize,
    bid: Vec<Vec<T>>,
    ask: Vec<Vec<T>>,
}

/// The value one inventory level up from level `qi`.
pub open spec fn level_up<T: Real>(surface: Seq<Vec<T>>, qi: int, cell: int) -> Option<T> {
    if qi + 1 < surface.len() {
        Some(surface[qi + 1]@[cell])
    } else {
        None
    }
}

/// The value one inventory level down from level `qi`.
pub open spec fn level_down<T: Real>(surface: Seq<Vec<T>>, qi: int, cell: int) -> Option<T> {
    if qi > 0 {
        Some(surface[qi - 1]@[cell])
    } else {
        None
    }
}

/// The depths `(bid, ask)` at a node of a recorded surface.
pub open spec fn node_depths<T: Real>(
    p: MarketMakerParams<T>,
    surface: Seq<Vec<T>>,
    qi: int,
    cell: int,
) -> (T, T) {
    let u = surface[qi]@[cell];
    (
        bid_depth(p, p.q_min + qi, u, level_up(surface, qi, cell)),
        ask_depth(p, p.q_min + qi, u, level_down(surface, qi, cell)),
    )
}

/// A recorded surface has one row per inventory level and one entry per cell.
pub open spec fn surface_fits<T: Real>(
    p: MarketMakerParams<T>,
    n: int,
    surface: Seq<Vec<T>>,
) -> bool {
    &&& surface.len() == p.levels()
    &&& forall|qi: int| 0 <= qi < surface.len() ==> (#[trigger] surface[qi])@.len() == n
}

/// The bid depths of a surface, level by level.
pub open spec fn baked_bids<T: Real>(
    p: MarketMakerParams<T>,
    n: int,
    surface: Seq<Vec<T>>,
) -> Seq<T> {
    Seq::new((p.levels() * n) as nat, |i: int| node_depths(p, surface, i / n, i % n).0)
}

/// The ask depths of a surface, level by level.
pub open spec fn baked_asks<T: Real>(
    p: MarketMakerParams<T>,
    n: int,
    surface: Seq<Vec<T>>,
) -> Seq<T> {
    Seq::new((p.levels() * n) as nat, |i: int| node_depths(p, surface, i / n, i % n).1)
}

/// Spacing of recorded backward times; a single one serves every horizon.
pub open spec fn recorded_step<T: Real>(taus: Seq<T>) -> T {
    if taus.len() > 1 {
        taus[1].sub_spec(taus[0])
    } else {
        T::largest_spec()
    }
}

/// Lower edge of the variance domain: half a cell below the first center.
pub open spec fn variance_edge<T: Real>(grid: &CartesianGrid<T, 1>) -> T {
    T::half_spec().mul_add_spec(grid.step(0).neg_spec(), grid.center_of(0, seq![0int], 0))
}

/// A whole number moved down to a limit.
pub open spec fn at_most(x: u64, limit: int) -> int {
    if x < limit {
        x as int
    } else {
        limit
    }
}

impl<T: Real> DepthTables<T> {
    /// Spacing of the recorded backward times.
    pub closed spec fn time_step(&self) -> T {
        self.dtau
    }

    /// Lower edge of the variance domain.
    pub closed spec fn low_edge(&self) -> T {
        self.nu_min
    }

    /// Spacing of the variance cells.
    pub closed spec fn cell_step(&self) -> T {
        self.dnu
    }

    /// Number of variance cells.
    pub closed spec fn cells(&self) -> int {
        self.n_nu as int
    }

    /// Least inventory.
    pub closed spec fn least(&self) -> int {
        self.q_min as int
    }

    /// Greatest inventory.
    pub closed spec fn greatest(&self) -> int {
        self.q_max as int
    }

    /// Bid depths per frame.
    pub closed spec fn bids(&self) -> Seq<Seq<T>> {
        Seq::new(self.bid@.len(), |t: int| self.bid@[t]@)
    }

    /// Ask depths per frame.
    pub closed spec fn asks(&self) -> Seq<Seq<T>> {
        Seq::new(self.ask@.len(), |t: int| self.ask@[t]@)
    }

    /// There is a frame, a cell and a level, and each frame has a depth per node.
    pub open spec fn sound(&self) -> bool {
        &&& self.bids().len() > 0
        &&& self.asks().len() == self.bids().len()
        &&& 0 < self.cells() <= usize::MAX
        &&& isize::MIN <= self.least() <= self.greatest() <= isize::MAX
        &&& self.greatest() - self.least() + 1 <= isize::MAX
        &&& (self.greatest() - self.least() + 1) * self.cells() <= usize::MAX
        &&& forall|t: int|
            0 <= t < self.bids().len() ==> (#[trigger] self.bids()[t]).len() == (self.greatest()
                - self.least() + 1) * self.cells()
        &&& forall|t: int|
            0 <= t < self.asks().len() ==> (#[trigger] self.asks()[t]).len() == (self.greatest()
                - self.least() + 1) * self.cells()
    }

    /// The recorded frame nearest to a remaining horizon.
    pub open spec fn frame_of(&self, tau: T) -> int {
        at_most(
            tau.div_spec(self.time_step()).round_spec().max_spec(T::zero_spec()).to_u64_spec(),
            self.bids().len() - 1,
        )
    }

    /// The cell nearest to a variance.
    pub open spec fn cell_of(&self, nu: T) -> int {
        at_most(
            nu.sub_spec(self.low_edge()).div_spec(self.cell_step()).sub_spec(
                T::half_spec(),
            ).round_spec().max_spec(T::zero_spec()).to_u64_spec(),
            self.cells() - 1,
        )
    }

    /// The level of an inventory moved into range.
    pub open spec fn level_of(&self, q: int) -> int {
        if q < self.least() {
            0
        } else if q > self.greatest() {
            self.greatest() - self.least()
        } else {
            q - self.least()
        }
    }

    /// The depths `(bid, ask)` at the nearest lattice node.
    pub open spec fn quoted(&self, tau: T, nu: T, q: int) -> (T, T) {
        let at = self.level_of(q) * self.cells() + self.cell_of(nu);
        (self.bids()[self.frame_of(tau)][at], self.asks()[self.frame_of(tau)][at])
    }

    /// Bake the depth tables from the recorded value surface. `taus` are the
    /// recorded backward-time levels (uniformly spaced, ascending from zero), and
    /// `surfaces[frame][level][cell]` is the value at each.
    pub fn build(
        model: &HjbMarketMaker<T>,
        grid: &CartesianGrid<T, 1>,
        taus: &[T],
        surfaces: &[Vec<Vec<T>>],
    ) -> (r: Self)
        requires
            model.setup().bounded(),
            grid.valid(),
            model.setup().levels() * grid.domain()[0] <= usize::MAX,
            forall|t: int|
                0 <= t < surfaces@.len() ==> surface_fits(
                    model.setup(),
                    grid.domain()[0],
                    (#[trigger] surfaces@[t])@,
                ),
        ensures
            r.time_step() == recorded_step(taus@),
            r.cell_step() == grid.step(0),
            r.low_edge() == variance_edge(grid),
            r.cells() == grid.domain()[0],
            r.least() == model.setup().q_min,
            r.greatest() == model.setup().q_max,
            r.bids() == Seq::new(
                surfaces@.len(),
                |t: int| baked_bids(model.setup(), grid.domain()[0], surfaces@[t]@),
            ),
            r.asks() == Seq::new(
                surfaces@.len(),
                |t: int| baked_asks(model.setup(), grid.domain()[0], surfaces@[t]@),
            ),
            surfaces@.len() > 0 ==> r.sound(),
    {
        let ghost p = model.setup();
        let n_nu = grid.cells()[0];
        let nq = model.params.num_levels();
        let ghost dom = grid.domain()[0];
        proof {
            grid.lemma_blocks();
            assert(grid.domain()[0] == grid.tiling()[0] * grid.tile()[0]);
            assert(grid.tiling()[0] > 0 && grid.tile()[0] > 0);
            assert(dom > 0) by (nonlinear_arith)
                requires
                    dom == grid.tiling()[0] * grid.tile()[0],
                    grid.tiling()[0] > 0,
                    grid.tile()[0] > 0,
            ;
            crate::geometry::index::lemma_volume_positive(grid.tiling());
        }
        let dtau = if taus.len() > 1 {
            taus[1].sub(taus[0])
        } else {
            T::largest()
        };
        let mut bid: Vec<Vec<T>> = Vec::new();
        let mut ask: Vec<Vec<T>> = Vec::new();
        let mut t: usize = 0;
        while t < surfaces.len()
            invariant
                t <= surfaces@.len(),
                p == model.setup(),
                p.bounded(),
                nq == p.levels(),
                n_nu == dom,
                n_nu > 0,
                nq * n_nu <= usize::MAX,
                forall|s: int|
                    0 <= s < surfaces@.len() ==> surface_fits(p, dom, (#[trigger] surfaces@[s])@),
                bid@.len() == t,
                ask@.len() == t,
                forall|s: int|
                    0 <= s < t ==> (#[trigger] bid@[s])@ == baked_bids(p, dom, surfaces@[s]@),
                forall|s: int|
                    0 <= s < t ==> (#[trigger] ask@[s])@ == baked_asks(p, dom, surfaces@[s]@),
            decreases surfaces.len() - t,
        {
            let (b, a) = Self::bake(model, n_nu, nq, &surfaces[t]);
            bid.push(b);
            ask.push(a);
            t += 1;
        }
        let dnu = grid.spacing(BlockId(0))[0];
        let first: [isize; 1] = [0];
        proof {
            assert(isizes(first) =~= seq![0int]);
        }
        let nu_min = T::half().mul_add(dnu.neg(), grid.cell_center(BlockId(0), first)[0]);
        let r = DepthTables {
            dtau,
            nu_min,
            dnu,
            n_nu,
            q_min: model.params.q_min,
            q_max: model.params.q_max,
            bid,
            ask,
        };
        proof {
            assert(r.bids() =~= Seq::new(
                surfaces@.len(),
                |t: int| baked_bids(p, dom, surfaces@[t]@),
            ));
            assert(r.asks() =~= Seq::new(
                surfaces@.len(),
                |t: int| baked_asks(p, dom, surfaces@[t]@),
            ));
        }
        r
    }

    /// Bake the depths of one frame.
    fn bake(model: &HjbMarketMaker<T>, n_nu: usize, nq: usize, surface: &Vec<Vec<T>>) -> (r: (
        Vec<T>,
        Vec<T>,
    ))
        requires
            model.setup().bounded(),
            nq == model.setup().levels(),
            n_nu > 0,
            nq * n_nu <= usize::MAX,
            surface_fits(model.setup(), n_nu as int, surface@),
        ensures
            r.0@ == baked_bids(model.setup(), n_nu as int, surface@),
            r.1@ == baked_asks(model.setup(), n_nu as int, surface@),
    {
        let ghost p = model.setup();
        let ghost n = n_nu as int;
        let ghost bids = baked_bids(p, n, surface@);
        let ghost asks = baked_asks(p, n, surface@);
        let mut b: Vec<T> = Vec::new();
        let mut a: Vec<T> = Vec::new();
        let mut qi: usize = 0;
        proof {
            assert(0 * n == 0);
        }
        while qi < nq
            invariant
                qi <= nq,
                p == model.setup(),
                p.bounded(),
                nq == p.levels(),
                n == n_nu,
                n > 0,
                surface_fits(p, n, surface@),
                bids == baked_bids(p, n, surface@),
                asks == baked_asks(p, n, surface@),
                b@.len() == qi * n,
                a@.len() == qi * n,
                forall|i: int| 0 <= i < b@.len() ==> #[trigger] b@[i] == bids[i],
                forall|i: int| 0 <= i < a@.len() ==> #[trigger] a@[i] == asks[i],
            decreases nq - qi,
        {
            let q = model.params.q_min + qi as isize;
            let mut cell: usize = 0;
            while cell < n_nu
                invariant
                    cell <= n_nu,
                    qi < nq,
                    p == model.setup(),
                    p.bounded(),
                    nq == p.levels(),
                    q == p.q_min + qi,
                    n == n_nu,
                    n > 0,
                    surface_fits(p, n, surface@),
                    bids == baked_bids(p, n, surface@),
                    asks == baked_asks(p, n, surface@),
                    b@.len() == qi * n + cell,
                    a@.len() == qi * n + cell,
                    forall|i: int| 0 <= i < b@.len() ==> #[trigger] b@[i] == bids[i],
                    forall|i: int| 0 <= i < a@.len() ==> #[trigger] a@[i] == asks[i],
                decreases n_nu - cell,
            {
                assert(surface@[qi as int]@.len() == n);
                let u_q = surface[qi][cell];
                let u_up = if qi + 1 < nq {
                    assert(surface@[qi + 1]@.len() == n);
                    Some(surface[qi + 1][cell])
                } else {
                    None
                };
                let u_dn = if qi > 0 {
                    assert(surface@[qi - 1]@.len() == n);
                    Some(surface[qi - 1][cell])
                } else {
                    None
                };
                let (db, da) = model.optimal_depths(q, u_q, u_up, u_dn);
                proof {
                    let i = qi * n + cell;
                    assert(i / n == qi && i % n == cell && i < p.levels() * n && 0 <= i)
                        by (nonlinear_arith)
                        requires
                            i == qi * n + cell,
                            0 <= cell < n,
                            0 <= qi < p.levels(),
                    ;
                    assert(bids[i] == node_depths(p, surface@, qi as int, cell as int).0);
                    assert(asks[i] == node_depths(p, surface@, qi as int, cell as int).1);
                }
                b.push(db);
                a.push(da);
                cell += 1;
            }
            assert((qi + 1) * n == qi * n + n) by (nonlinear_arith);
            qi += 1;
        }
        proof {
            assert(b@ =~= bids);
            assert(a@ =~= asks);
        }
        (b, a)
    }

    /// Depths `(bid, ask)` at remaining horizon `tau`, variance `nu` and inventory
    /// `q` (nearest lattice node, clamped into range). A withdrawn side reads an
    /// infinite depth.
    pub fn lookup(&self, tau: T, nu: T, q: isize) -> (r: (T, T))
        requires
            self.sound(),
        ensures
            r == self.quoted(tau, nu, q as int),
    {
        let frames = self.bid.len();
        let t = Self::limited(
            tau.div(self.dtau).round().max(T::zero()).to_u64(),
            frames - 1,
        );
        let cell = Self::limited(
            nu.sub(self.nu_min).div(self.dnu).sub(T::half()).round().max(T::zero()).to_u64(),
            self.n_nu - 1,
        );
        let qi = if q < self.q_min {
            0
        } else if q > self.q_max {
            (self.q_max - self.q_min) as usize
        } else {
            (q - self.q_min) as usize
        };
        proof {
            let n = self.cells();
            let levels = self.greatest() - self.least() + 1;
            assert(qi == self.level_of(q as int));
            assert(cell == self.cell_of(nu));
            assert(0 <= qi * n && qi * n + cell < levels * n) by (nonlinear_arith)
                requires
                    0 <= qi < levels,
                    0 <= cell < n,
            ;
            assert(t == self.frame_of(tau));
            assert(self.bids()[t as int].len() == levels * n);
            assert(self.asks()[t as int].len() == levels * n);
        }
        let at = qi * self.n_nu + cell;
        (self.bid[t][at], self.ask[t][at])
    }

    fn limited(x: u64, limit: usize) -> (r: usize)
        ensures
            r == at_most(x, limit as int),
    {
        if x < limit as u64 {
            x as usize
        } else {
            limit
        }
    }
}

/// A side at its inventory bound is withdrawn at every horizon and variance: the
/// bid at the greatest inventory and the ask at the least are quoted at infinite
/// depth. Where infinity is not finite, such a quote has zero fill intensity, and
/// the jump channel behind it never fires: inventory stays in its bounds without a
/// clamp.
pub proof fn withdrawn_quotes_never_fill<T: Real>(
    p: MarketMakerParams<T>,
    tables: DepthTables<T>,
    surfaces: Seq<Seq<Vec<T>>>,
    tau: T,
    nu: T,
    dt: T,
    key: u64,
    c: int,
)
    requires
        p.bounded(),
        tables.sound(),
        tables.least() == p.q_min,
        tables.greatest() == p.q_max,
        tables.bids() == Seq::new(
            surfaces.len(),
            |t: int| baked_bids(p, tables.cells(), surfaces[t]),
        ),
        tables.asks() == Seq::new(
            surfaces.len(),
            |t: int| baked_asks(p, tables.cells(), surfaces[t]),
        ),
        forall|t: int|
            0 <= t < surfaces.len() ==> surface_fits(p, tables.cells(), #[trigger] surfaces[t]),
        !T::infinity_spec().is_finite_spec(),
        T::zero_spec().le_spec(T::zero_spec()),
    ensures
        tables.quoted(tau, nu, p.q_max as int).0 == T::infinity_spec(),
        tables.quoted(tau, nu, p.q_min as int).1 == T::infinity_spec(),
        !crate::engine::driver::fires(
            p.buy.rate_at(tables.quoted(tau, nu, p.q_max as int).0),
            dt,
            key,
            c,
        ),
        !crate::engine::driver::fires(
            p.sell.rate_at(tables.quoted(tau, nu, p.q_min as int).1),
            dt,
            key,
            c,
        ),
{
    let n = tables.cells();
    let levels = p.levels();
    let t = tables.frame_of(tau);
    let cell = tables.cell_of(nu);
    assert(0 <= t < surfaces.len());
    assert(0 <= cell < n);
    let top = (levels - 1) * n + cell;
    let bottom = 0 * n + cell;
    assert(0 <= top < levels * n && top / n == levels - 1 && top % n == cell) by (nonlinear_arith)
        requires
            top == (levels - 1) * n + cell,
            0 <= cell < n,
            levels >= 1,
    ;
    assert(0 <= bottom < levels * n && bottom / n == 0 && bottom % n == cell) by (nonlinear_arith)
        requires
            bottom == 0 * n + cell,
            0 <= cell < n,
            levels >= 1,
    ;
    assert(surface_fits(p, n, surfaces[t]));
    assert(tables.bids()[t] == baked_bids(p, n, surfaces[t]));
    assert(tables.asks()[t] == baked_asks(p, n, surfaces[t]));
}

/// The **controlled** market-making system as a path ensemble, one path per cell.
///
/// Per path: a mean-reverting variance and a diffusive midprice driven by two Wiener
/// processes, plus two jump channels, bid and ask fills, that fire at the optimal
/// quotes looked up from a [`DepthTables`]. A bid fill moves inventory up by one and
/// pays the price less the depth; an ask fill moves it down by one and earns the
/// price plus the depth. Withdrawn sides read an infinite depth, hence zero
/// intensity, so inventory stays in bounds with no explicit clamp.
///
/// Variance is moved by the first Wiener process, the price by the second; bid fills
/// are the first jump channel, ask fills the second.
#[derive(Debug, Clone)]
pub struct MarketMakingEnsemble<T: Real> {
    /// Model parameters (shared with the HJB solve).
    pub params: MarketMakerParams<T>,
    /// Optimal quotes from the HJB solve.
    pub tables: Arc<DepthTables<T>>,
    /// Trading horizon; the remaining time indexes the tables.
    pub horizon: T,
    nu: Option<FieldHandle<T>>,
    mid: Option<FieldHandle<T>>,
    inv: Option<FieldHandle<T>>,
    cash: Option<FieldHandle<T>>,
}

/// The layout of the controlled ensemble.
pub open spec fn maker_layout(fields: Seq<FieldSpec>) -> bool {
    &&& fields.len() == 4
    &&& fields[0].name@ == "nu"@
    &&& fields[0].halo == 0
    &&& fields[0].drivers@ == seq![Driver::Time, Driver::Wiener(0)]
    &&& fields[1].name@ == "mid"@
    &&& fields[1].halo == 0
    &&& fields[1].drivers@ == seq![Driver::Time, Driver::Wiener(1)]
    &&& fields[2].name@ == "inv"@
    &&& fields[2].halo == 0
    &&& fields[2].drivers@ == seq![Driver::Jump(0), Driver::Jump(1)]
    &&& fields[3].name@ == "cash"@
    &&& fields[3].halo == 0
    &&& fields[3].drivers@ == seq![Driver::Jump(0), Driver::Jump(1)]
}

/// Inventory and cash set to zero, in every interior cell.
pub open spec fn flat_book<T: Real>(
    grid: &CartesianGrid<T, 1>,
    fields: Seq<FieldSpec>,
    v: Seq<BlockValues<T>>,
) -> Seq<BlockValues<T>> {
    uniform_field(
        grid,
        fields,
        uniform_field(grid, fields, v, 2, T::zero_spec()),
        3,
        T::zero_spec(),
    )
}

/// Cash and inventory of a path, liquidated at the midprice under the terminal penalty.
pub open spec fn liquidated<T: Real>(p: MarketMakerParams<T>, cash: T, inv: T, mid: T) -> T {
    p.alpha.mul_spec(inv).mul_add_spec(inv.neg_spec(), inv.mul_add_spec(mid, cash))
}

/// The depth a channel quotes at, given the state of a path: channel 0 is the bid.
pub open spec fn channel_depth<T: Real>(
    tables: &DepthTables<T>,
    tau: T,
    channel: usize,
    nu: T,
    inv: T,
) -> T {
    let quote = tables.quoted(tau, nu, inv.round_spec().to_i64_spec() as int);
    if channel == 0 {
        quote.0
    } else {
        quote.1
    }
}

/// The inventory step of a channel.
pub open spec fn channel_step<T: Real>(channel: usize) -> T {
    if channel == 0 {
        T::one_spec()
    } else {
        T::one_spec().neg_spec()
    }
}

/// The side behind a channel.
pub open spec fn channel_side<T: Real>(p: MarketMakerParams<T>, channel: usize) -> Side<T> {
    if channel == 0 {
        p.buy
    } else {
        p.sell
    }
}

/// Increments and intensities of a fill channel on a block: the inventory step, the
/// cash step where the side is quoted, and the fill intensity.
pub open spec fn fill_field<T: Real>(
    p: MarketMakerParams<T>,
    tables: &DepthTables<T>,
    tau: T,
    channel: usize,
    ext: Seq<int>,
    slabs: Seq<Seq<T>>,
    out: BlockValues<T>,
) -> BlockValues<T> {
    let nu = reader(slabs[0], ext, 0);
    let mid = reader(slabs[1], ext, 0);
    let inv = reader(slabs[2], ext, 0);
    BlockValues {
        fields: out.fields.update(
            2,
            with_interior(
                out.fields[2],
                ext,
                0,
                |idx: Seq<int>, old: T| channel_step::<T>(channel),
            ),
        ).update(
            3,
            with_interior(
                out.fields[3],
                ext,
                0,
                |idx: Seq<int>, old: T|
                    {
                        let depth = channel_depth(tables, tau, channel, nu(idx), inv(idx));
                        if depth.is_finite_spec() {
                            channel_step::<T>(channel).mul_add_spec(mid(idx).neg_spec(), depth)
                        } else {
                            old
                        }
                    },
            ),
        ),
        rate: with_interior(
            out.rate,
            ext,
            0,
            |idx: Seq<int>, old: T|
                channel_side(p, channel).rate_at(
                    channel_depth(tables, tau, channel, nu(idx), inv(idx)),
                ),
        ),
    }
}

struct Quote<'a, 'b, T: Real> {
    tables: &'a DepthTables<T>,
    tau: T,
    channel: usize,
    nu: &'a CartesianView<'b, T, 1>,
    inv: &'a CartesianView<'b, T, 1>,
}

impl<'a, 'b, T: Real> Quote<'a, 'b, T> {
    spec fn ready(&self) -> bool {
        &&& self.tables.sound()
        &&& self.nu.valid()
        &&& self.inv.valid()
        &&& self.inv.ext() == self.nu.ext()
    }

    spec fn depth(&self, idx: Seq<int>) -> T {
        channel_depth(
            self.tables,
            self.tau,
            self.channel,
            reader(self.nu.data(), self.nu.ext(), self.nu.width())(idx),
            reader(self.inv.data(), self.inv.ext(), self.inv.width())(idx),
        )
    }

    fn depth_at(&self, idx: [isize; 1]) -> (r: T)
        requires
            self.ready(),
            in_ext(isizes(idx), self.nu.ext()),
        ensures
            r == self.depth(isizes(idx)),
    {
        proof {
            lemma_interior_in_slab(isizes(idx), self.nu.ext(), self.nu.width());
            lemma_interior_in_slab(isizes(idx), self.inv.ext(), self.inv.width());
        }
        let held: i64 = self.inv.get(idx).round().to_i64();
        let q = if held > isize::MAX as i64 {
            isize::MAX
        } else if held < isize::MIN as i64 {
            isize::MIN
        } else {
            held as isize
        };
        assert(self.tables.level_of(q as int) == self.tables.level_of(held as int));
        let (bid, ask) = self.tables.lookup(self.tau, self.nu.get(idx), q);
        if self.channel == 0 {
            bid
        } else {
            ask
        }
    }
}

struct CashRule<'a, 'b, T: Real> {
    quote: &'a Quote<'a, 'b, T>,
    mid: &'a CartesianView<'b, T, 1>,
    step: T,
}

impl<'a, 'b, T: Real> CellRule<T, 1> for CashRule<'a, 'b, T> {
    closed spec fn reaches(&self, idx: Seq<int>) -> bool {
        &&& self.quote.ready()
        &&& in_ext(idx, self.quote.nu.ext())
        &&& self.mid.valid()
        &&& self.mid.ext() == self.quote.nu.ext()
    }

    closed spec fn value(&self, idx: Seq<int>, old: T) -> T {
        let depth = self.quote.depth(idx);
        if depth.is_finite_spec() {
            self.step.mul_add_spec(
                reader(self.mid.data(), self.mid.ext(), self.mid.width())(idx).neg_spec(),
                depth,
            )
        } else {
            old
        }
    }

    fn eval(&self, idx: [isize; 1], old: T) -> (r: T) {
        proof {
            lemma_interior_in_slab(isizes(idx), self.mid.ext(), self.mid.width());
        }
        let depth = self.quote.depth_at(idx);
        if depth.is_finite() {
            self.step.mul_add(self.mid.get(idx).neg(), depth)
        } else {
            old
        }
    }
}

struct RateRule<'a, 'b, T: Real> {
    quote: &'a Quote<'a, 'b, T>,
    side: &'a Side<T>,
}

impl<'a, 'b, T: Real> CellRule<T, 1> for RateRule<'a, 'b, T> {
    closed spec fn reaches(&self, idx: Seq<int>) -> bool {
        self.quote.ready() && in_ext(idx, self.quote.nu.ext())
    }

    closed spec fn value(&self, idx: Seq<int>, old: T) -> T {
        self.side.rate_at(self.quote.depth(idx))
    }

    fn eval(&self, idx: [isize; 1], old: T) -> (r: T) {
        self.side.fill_rate(self.quote.depth_at(idx))
    }
}

impl<T: Real> MarketMakingEnsemble<T> {
    /// The parameters.
    pub closed spec fn setup(&self) -> MarketMakerParams<T> {
        self.params
    }

    /// The quotes.
    pub closed spec fn quotes(&self) -> DepthTables<T> {
        *self.tables
    }

    /// The trading horizon.
    pub closed spec fn end(&self) -> T {
        self.horizon
    }

    /// Variance, price, inventory and cash are fields 0 to 3.
    pub closed spec fn registered(&self) -> bool {
        &&& self.nu matches Some(h) && h.pos() == 0
        &&& self.mid matches Some(h) && h.pos() == 1
        &&& self.inv matches Some(h) && h.pos() == 2
        &&& self.cash matches Some(h) && h.pos() == 3
    }

    /// A controlled-system ensemble for the given parameters, optimal-quote tables
    /// and trading horizon.
    pub fn new(params: MarketMakerParams<T>, tables: Arc<DepthTables<T>>, horizon: T) -> (r: Self)
        ensures
            r.setup() == params,
            r.quotes() == *tables,
            r.end() == horizon,
    {
        MarketMakingEnsemble { params, tables, horizon, nu: None, mid: None, inv: None, cash: None }
    }

    /// Handle of the variance field.
    pub fn nu(&self) -> (r: FieldHandle<T>)
        requires
            self.registered(),
        ensures
            r.pos() == 0,
    {
        self.nu.unwrap()
    }

    /// Handle of the midprice field.
    pub fn mid(&self) -> (r: FieldHandle<T>)
        requires
            self.registered(),
        ensures
            r.pos() == 1,
    {
        self.mid.unwrap()
    }

    /// Handle of the inventory field.
    pub fn inv(&self) -> (r: FieldHandle<T>)
        requires
            self.registered(),
        ensures
            r.pos() == 2,
    {
        self.inv.unwrap()
    }

    /// Handle of the cash field.
    pub fn cash(&self) -> (r: FieldHandle<T>)
        requires
            self.registered(),
        ensures
            r.pos() == 3,
    {
        self.cash.unwrap()
    }

    /// Start every path at variance `nu0` and price `s0` with zero inventory and cash.
    pub fn initialize<S: StorageBackend<T>>(
        &self,
        grid: &CartesianGrid<T, 1>,
        state: &mut State<T, S>,
        nu0: T,
        s0: T,
    )
        requires
            self.registered(),
            grid.valid(),
            allocated_on::<T, T, CartesianGrid<T, 1>, 1>(
                old(state).fields(),
                grid,
                old(state).values(),
            ),
            old(state).fields().len() >= 4,
        ensures
            final(state).fields() == old(state).fields(),
            final(state).values() == flat_book(
                grid,
                old(state).fields(),
                started(grid, old(state).fields(), old(state).values(), nu0, s0),
            ),
            allocated_on::<T, T, CartesianGrid<T, 1>, 1>(
                old(state).fields(),
                grid,
                final(state).values(),
            ),
    {
        set_uniform(grid, state, self.nu(), nu0);
        set_uniform(grid, state, self.mid(), s0);
        set_uniform(grid, state, self.inv(), T::zero());
        set_uniform(grid, state, self.cash(), T::zero());
    }

    /// Terminal wealth of one path: the mark-to-market value after liquidating the
    /// inventory at the midprice under the terminal penalty.
    pub fn terminal_wealth(&self, cash: T, inv: T, mid: T) -> (r: T)
        ensures
            r == liquidated(self.setup(), cash, inv, mid),
    {
        self.params.alpha.mul(inv).mul_add(inv.neg(), inv.mul_add(mid, cash))
    }

    /// Increments and intensities of one fill channel.
    fn write_fills<S: StorageBackend<T>>(
        &self,
        grid: &CartesianGrid<T, 1>,
        block: BlockId,
        tau: T,
        channel: usize,
        state: &State<T, S>,
        out: &mut BlockStateMut<'_, T, S>,
    )
        requires
            self.registered(),
            self.quotes().sound(),
            grid.valid(),
            block.id() < grid.blocks(),
            maker_layout(state.fields()),
            allocated_on::<T, T, CartesianGrid<T, 1>, 1>(state.fields(), grid, state.values()),
            old(out).layout.fields() == state.fields(),
            channel <= 1,
            tailored(
                state.fields(),
                grid.tile(),
                Driver::Jump(channel),
                old(out).storage.values(),
            ),
        ensures
            final(out).storage.values() == fill_field(
                self.setup(),
                &self.quotes(),
                tau,
                channel,
                grid.tile(),
                state.values()[block.id()].fields,
                old(out).storage.values(),
            ),
            tailored(
                state.fields(),
                grid.tile(),
                Driver::Jump(channel),
                final(out).storage.values(),
            ),
            *final(final(out).storage) == *final(old(out).storage),
    {
        let ghost b = block.id();
        let ghost ext = grid.tile();
        let ghost fields = state.fields();
        let ghost driver = Driver::Jump(channel);
        let ghost start = out.storage.values();
        proof {
            grid.lemma_blocks();
            assert(grid.extent_of(b) == ext);
            assert(full_block(fields, ext, state.values()[b]));
            assert(slab_fits(grid.extent_of(b), fields[0].halo as int));
            assert(fields[2].drivers@[channel as int] == driver);
            assert(fields[3].drivers@[channel as int] == driver);
            assert(fields[2].moved_by(driver));
            assert(fields[3].moved_by(driver));
            assert(crate::geometry::grid::ghosted(ext, 0) =~= ext);
            assert(start.fields[2].len() == volume(ext));
            assert(start.fields[3].len() == volume(ext));
        }
        let nu = state.view(grid, block, self.nu());
        let mid = state.view(grid, block, self.mid());
        let inv = state.view(grid, block, self.inv());
        let step = if channel == 0 {
            T::one()
        } else {
            T::one().neg()
        };
        let side = if channel == 0 {
            &self.params.buy
        } else {
            &self.params.sell
        };
        let quote = Quote { tables: &self.tables, tau, channel, nu: &nu, inv: &inv };
        write_field(out, grid, block, self.inv(), &Uniform { value: step });
        let ghost one = out.storage.values();
        let cash = CashRule { quote: &quote, mid: &mid, step };
        write_field(out, grid, block, self.cash(), &cash);
        let ghost two = out.storage.values();
        let rule = RateRule { quote: &quote, side };
        let mut rate = out.intensity_mut(grid, block);
        set_interior(&mut rate, &rule);
        proof {
            let end = out.storage.values();
            let want = fill_field(
                self.setup(),
                &self.quotes(),
                tau,
                channel,
                ext,
                state.values()[b].fields,
                start,
            );
            assert(end.fields[2] =~= want.fields[2]);
            assert(end.fields[3] =~= want.fields[3]);
            assert(end.rate =~= want.rate);
            assert(end =~~= want);
            assert forall|f: int| 0 <= f < fields.len() implies (#[trigger] end.fields[f]).len()
                == start.fields[f].len() by {}
        }
    }
}

impl<T: Real, P: Sync> Model<T, CartesianGrid<T, 1>, P, 1> for MarketMakingEnsemble<T> {
    type Drivers = WienerJump<2, 2>;

    open spec fn accepts(&self, grid: &CartesianGrid<T, 1>, disc: &P) -> bool {
        slab_fits(grid.tile(), 0) && self.quotes().sound()
    }

    open spec fn supports(
        &self,
        grid: &CartesianGrid<T, 1>,
        disc: &P,
        fields: Seq<FieldSpec>,
    ) -> bool {
        self.registered() && maker_layout(fields) && self.quotes().sound()
    }

    open spec fn registers(&self, after: &Self, fields: Seq<FieldSpec>) -> bool {
        &&& after.setup() == self.setup()
        &&& after.quotes() == self.quotes()
        &&& after.end() == self.end()
        &&& after.registered()
        &&& maker_layout(fields)
    }

    open spec fn scratch_of(&self, grid: &CartesianGrid<T, 1>) -> ScratchSpec {
        ScratchSpec { slabs: 0, slab_len: 0 }
    }

    open spec fn vector_field(
        &self,
        driver: Driver,
        grid: &CartesianGrid<T, 1>,
        disc: &P,
        t: T,
        b: int,
        fields: Seq<FieldSpec>,
        values: Seq<BlockValues<T>>,
        out: BlockValues<T>,
    ) -> BlockValues<T> {
        let p = self.setup();
        let nu = values[b].fields[0];
        match driver {
            Driver::Time => from_variance(
                grid.tile(),
                from_variance(
                    grid.tile(),
                    out,
                    0,
                    nu,
                    |x: T| reversion(p.k_speed, p.theta, x),
                ),
                1,
                nu,
                |x: T| p.mu,
            ),
            Driver::Wiener(j) => if j == 0 {
                from_variance(
                    grid.tile(),
                    out,
                    0,
                    nu,
                    |x: T| p.sigma.mul_spec(volatility(x)),
                )
            } else {
                from_variance(grid.tile(), out, 1, nu, |x: T| volatility(x))
            },
            Driver::Jump(channel) => fill_field(
                p,
                &self.quotes(),
                self.end().sub_spec(t),
                channel,
                grid.tile(),
                values[b].fields,
                out,
            ),
        }
    }

    open spec fn projected(
        &self,
        grid: &CartesianGrid<T, 1>,
        fields: Seq<FieldSpec>,
        values: Seq<BlockValues<T>>,
    ) -> Seq<BlockValues<T>> {
        floored(grid, fields, values)
    }

    fn register_fields(&mut self, builder: &mut StateBuilder<T>) {
        let wiener0: [Driver; 2] = [Driver::Time, Driver::Wiener(0)];
        let wiener1: [Driver; 2] = [Driver::Time, Driver::Wiener(1)];
        let fills: [Driver; 2] = [Driver::Jump(0), Driver::Jump(1)];
        assert(wiener0@ =~= seq![Driver::Time, Driver::Wiener(0)]);
        assert(wiener1@ =~= seq![Driver::Time, Driver::Wiener(1)]);
        assert(fills@ =~= seq![Driver::Jump(0), Driver::Jump(1)]);
        self.nu = Some(builder.register_driven("nu", 0, &wiener0));
        let ghost f1 = builder.fields();
        assert(f1.drop_last().len() == 0);
        self.mid = Some(builder.register_driven("mid", 0, &wiener1));
        let ghost f2 = builder.fields();
        self.inv = Some(builder.register_driven("inv", 0, &fills));
        let ghost f3 = builder.fields();
        self.cash = Some(builder.register_driven("cash", 0, &fills));
        proof {
            let f4 = builder.fields();
            assert(f4.last() == f4[3]);
            assert(f4.drop_last()[2] == f4[2] && f3.last() == f3[2]);
            assert(f4.drop_last()[1] == f4[1] && f3.drop_last()[1] == f3[1] && f2.last() == f2[1]);
            assert(f4.drop_last()[0] == f4[0] && f3.drop_last()[0] == f3[0]);
            assert(f2.drop_last()[0] == f2[0] && f1.last() == f1[0]);
            assert(maker_layout(f4));
        }
    }

    fn scratch_spec(&self, grid: &CartesianGrid<T, 1>) -> (r: ScratchSpec) {
        ScratchSpec::none()
    }

    fn fill_ghosts<S: StorageBackend<T>>(
        &self,
        grid: &CartesianGrid<T, 1>,
        disc: &P,
        state: &mut State<T, S>,
        t: T,
    ) {
    }

    fn vector_field_block<S: StorageBackend<T>>(
        &self,
        driver: Driver,
        ctx: &RhsContext<'_, T, CartesianGrid<T, 1>, P>,
        state: &State<T, S>,
        out: &mut BlockStateMut<'_, T, S>,
        scratch: &mut Scratch<T, S>,
    ) {
        let grid = ctx.grid;
        let block = ctx.block;
        let ghost b = block.id();
        let ghost ext = grid.tile();
        let ghost fields = state.fields();
        let ghost start = out.storage.values();
        proof {
            assert(grid.extent_of(b) == ext);
            assert(full_block(fields, ext, state.values()[b]));
            assert(slab_fits(grid.extent_of(b), fields[0].halo as int));
            assert(fields[0].drivers@[0] == Driver::Time);
            assert(fields[0].drivers@[1] == Driver::Wiener(0));
            assert(fields[1].drivers@[0] == Driver::Time);
            assert(fields[1].drivers@[1] == Driver::Wiener(1));
        }
        let nu = state.view(grid, block, self.nu());
        match driver {
            Driver::Time => {
                let drift = Reversion {
                    speed: self.params.k_speed,
                    level: self.params.theta,
                    nu: &nu,
                };
                assert(fields[0].moved_by(driver) && fields[1].moved_by(driver));
                write_field(out, grid, block, self.nu(), &drift);
                let ghost mid = out.storage.values();
                proof {
                    assert(mid =~~= from_variance(
                        ext,
                        start,
                        0,
                        nu.data(),
                        |x: T| reversion(self.params.k_speed, self.params.theta, x),
                    ));
                    lemma_tailored_one(fields, ext, driver, start, 0, mid.fields[0]);
                    assert(mid =~~= with_one(start, 0, mid.fields[0]));
                }
                write_field(out, grid, block, self.mid(), &Uniform { value: self.params.mu });
                proof {
                    let end = out.storage.values();
                    assert(end =~~= from_variance(ext, mid, 1, nu.data(), |x: T| self.params.mu));
                    lemma_tailored_one(fields, ext, driver, mid, 1, end.fields[1]);
                    assert(end =~~= with_one(mid, 1, end.fields[1]));
                }
            },
            Driver::Wiener(j) => {
                if j == 0 {
                    assert(fields[0].moved_by(driver));
                    let amp = ScaledVolatility { scale: self.params.sigma, nu: &nu };
                    write_field(out, grid, block, self.nu(), &amp);
                    proof {
                        let end = out.storage.values();
                        assert(end =~~= from_variance(
                            ext,
                            start,
                            0,
                            nu.data(),
                            |x: T| self.params.sigma.mul_spec(volatility(x)),
                        ));
                        lemma_tailored_one(fields, ext, driver, start, 0, end.fields[0]);
                        assert(end =~~= with_one(start, 0, end.fields[0]));
                    }
                } else {
                    assert(fields[1].moved_by(driver));
                    write_field(out, grid, block, self.mid(), &Volatility { nu: &nu });
                    proof {
                        let end = out.storage.values();
                        assert(end =~~= from_variance(
                            ext,
                            start,
                            1,
                            nu.data(),
                            |x: T| volatility(x),
                        ));
                        lemma_tailored_one(fields, ext, driver, start, 1, end.fields[1]);
                        assert(end =~~= with_one(start, 1, end.fields[1]));
                    }
                }
            },
            Driver::Jump(channel) => {
                let tau = self.horizon.sub(ctx.t);
                self.write_fills(grid, block, tau, channel, state, out);
            },
        }
    }

    fn project<S: StorageBackend<T>>(
        &self,
        grid: &CartesianGrid<T, 1>,
        disc: &P,
        state: &mut State<T, S>,
    ) {
        let ghost fields = state.fields();
        let ghost v = state.values();
        sweep_field(grid, state, self.nu(), &Floor);
        assert(state.values() =~~= floored(grid, fields, v));
    }

    fn stiff_rows(
        &self,
        grid: &CartesianGrid<T, 1>,
        disc: &P,
        block: BlockId,
        field: FieldHandle<T>,
        rows: &mut [[T; 3]],
    ) -> (r: bool) {
        false
    }

    fn stable_dt_nonstiff(&self, spacing: [T; 1]) -> (r: Option<T>) {
        None
    }

    fn stable_dt(&self, spacing: [T; 1]) -> (r: Option<T>) {
        None
    }
}

} // verus!
