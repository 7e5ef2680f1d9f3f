//! The controlled market-making system end to end: solve for the optimal quotes,
//! bake the depth tables, run the controlled jump-diffusion ensemble, and check
//! the economics an optimal maker must exhibit.

use std::sync::Arc;

use legendre::engine::monte_carlo::{path_grid, MonteCarlo};
use legendre::engine::scheduler::{RayonScheduler, Scheduler, SerialScheduler};
use legendre::engine::simulation::Simulation;
use legendre::engine::state::{FieldHandle, State};
use legendre::engine::storage::{DenseStorage, Real, Scalar, SystemAllocator};
use legendre::geometry::cartesian::CartesianGrid;
use legendre::geometry::grid::{BlockId, Grid};
use legendre::geometry::view::for_each_interior;
use legendre::integrators::euler::ForwardEuler;
use legendre::integrators::euler_maruyama::EulerMaruyama;
use legendre::physics::market_making::{
    DepthTables, HjbMarketMaker, MarketMakerParams, MarketMakingEnsemble, Side,
};
use legendre::physics::model::Model;

#[derive(Debug, Clone, Copy, PartialEq, PartialOrd)]
struct F(f64);

impl Scalar for F {
    fn zero() -> Self {
        F(0.0)
    }
}

impl Real for F {
    fn add(self, other: Self) -> Self {
        F(self.0 + other.0)
    }
    fn sub(self, other: Self) -> Self {
        F(self.0 - other.0)
    }
    fn mul(self, other: Self) -> Self {
        F(self.0 * other.0)
    }
    fn div(self, other: Self) -> Self {
        F(self.0 / other.0)
    }
    fn lt(self, other: Self) -> bool {
        self.0 < other.0
    }
    fn le(self, other: Self) -> bool {
        self.0 <= other.0
    }
    fn neg(self) -> Self {
        F(-self.0)
    }
    fn sqrt(self) -> Self {
        F(self.0.sqrt())
    }
    fn abs(self) -> Self {
        F(self.0.abs())
    }
    fn ln(self) -> Self {
        F(self.0.ln())
    }
    fn cos(self) -> Self {
        F(self.0.cos())
    }
    fn exp_m1(self) -> Self {
        F(self.0.exp_m1())
    }
    fn max(self, other: Self) -> Self {
        F(self.0.max(other.0))
    }
    fn min(self, other: Self) -> Self {
        F(self.0.min(other.0))
    }
    fn powi(self, n: i32) -> Self {
        F(self.0.powi(n))
    }
    fn equals(self, other: Self) -> bool {
        self.0 == other.0
    }
    fn one() -> Self {
        F(1.0)
    }
    fn tau() -> Self {
        F(std::f64::consts::TAU)
    }
    fn mul_add(self, a: Self, b: Self) -> Self {
        F(self.0.mul_add(a.0, b.0))
    }
    fn is_finite(self) -> bool {
        self.0.is_finite()
    }
    fn half() -> Self {
        F(0.5)
    }
    fn round(self) -> Self {
        F(self.0.round())
    }
    fn exp(self) -> Self {
        F(self.0.exp())
    }
    fn sin(self) -> Self {
        F(self.0.sin())
    }
    fn tanh(self) -> Self {
        F(self.0.tanh())
    }
    fn hypot(self, other: Self) -> Self {
        F(self.0.hypot(other.0))
    }
    fn total_lt(self, other: Self) -> bool {
        self.0.total_cmp(&other.0).is_lt()
    }
    fn to_bits(self) -> u64 {
        self.0.to_bits()
    }
    fn to_u64(self) -> u64 {
        self.0 as u64
    }
    fn to_i64(self) -> i64 {
        self.0 as i64
    }
    fn infinity() -> Self {
        F(f64::INFINITY)
    }
    fn largest() -> Self {
        F(f64::MAX)
    }
    fn from_i64(x: i64) -> Self {
        F(x as f64)
    }
    fn from_u64(x: u64) -> Self {
        F(x as f64)
    }
}

fn cells<const D: usize>(interior: [usize; D]) -> Vec<[isize; D]> {
    let mut out = Vec::new();
    for_each_interior(interior, &mut out);
    out
}

const NU_MIN: f64 = 0.001;
const NU_MAX: f64 = 2.0;

fn nu_grid(n: usize, block: usize) -> CartesianGrid<F, 1> {
    let dnu = (NU_MAX - NU_MIN) / n as f64;
    CartesianGrid::new([n], [block], [F(NU_MIN)], [F(dnu)]).unwrap()
}

/// The whole value surface as `surface[level][cell]`.
fn surface(
    grid: &CartesianGrid<F, 1>,
    state: &State<F, DenseStorage<F>>,
    handles: &[FieldHandle<F>],
) -> Vec<Vec<F>> {
    handles
        .iter()
        .map(|&h| {
            let mut col = Vec::new();
            for b in 0..grid.num_blocks() {
                let v = state.view(grid, BlockId(b as u32), h);
                for idx in cells(grid.block_cells()) {
                    col.push(v.get(idx));
                }
            }
            col
        })
        .collect()
}

/// Solve forward in backward time, recording the value surface every step.
fn solve_hjb(
    params: MarketMakerParams<F>,
    dt: f64,
    steps: usize,
) -> (CartesianGrid<F, 1>, Vec<F>, Vec<Vec<Vec<F>>>) {
    let grid = nu_grid(80, 20);
    let mut sim = Simulation::new(
        grid.clone(),
        (),
        HjbMarketMaker::new(params),
        ForwardEuler,
        SerialScheduler,
        SystemAllocator,
    );
    let handles = sim.model().handles().to_vec();
    let mut taus = vec![F(0.0)];
    let mut surfaces = vec![surface(&grid, sim.state(), &handles)];
    for i in 0..steps {
        sim.step(F(dt));
        taus.push(F((i + 1) as f64 * dt));
        surfaces.push(surface(&grid, sim.state(), &handles));
    }
    (grid, taus, surfaces)
}

/// The controlled ensemble after the full run.
struct Terminal {
    inv: Vec<f64>,
    wealth_mean: f64,
    wealth_std: f64,
}

fn simulate<Sch: Scheduler>(
    params: MarketMakerParams<F>,
    horizon: f64,
    nu0: F,
    s0: f64,
    paths: usize,
    seed: u64,
    scheduler: Sch,
) -> Terminal {
    let dt = {
        let model = HjbMarketMaker::new(params);
        let g = nu_grid(80, 20);
        <HjbMarketMaker<F> as Model<F, CartesianGrid<F, 1>, (), 1>>::stable_dt(
            &model,
            g.spacing(BlockId(0)),
        )
        .unwrap()
        .0
    };
    let steps = (horizon / dt).ceil() as usize;
    let (nu_g, taus, surfaces) = solve_hjb(params, dt, steps);
    let tables =
        Arc::new(DepthTables::build(&HjbMarketMaker::new(params), &nu_g, &taus, &surfaces));

    let grid = path_grid(paths, 4000).unwrap();
    let model = MarketMakingEnsemble::new(params, Arc::clone(&tables), F(horizon));
    let sim = Simulation::new(
        grid,
        (),
        model,
        EulerMaruyama { seed },
        scheduler,
        SystemAllocator,
    );
    let mut mc = MonteCarlo::new(sim);
    {
        let model = mc.simulation().model().clone();
        let (g, state) = mc.simulation_mut().state_mut();
        model.initialize(g, state, nu0, F(s0));
    }
    mc.run(steps, F(dt));

    let model = mc.simulation().model().clone();
    let (inv_h, cash_h, mid_h) = (model.inv(), model.cash(), model.mid());
    let wealth = mc.stats(|p| model.terminal_wealth(p.get(cash_h), p.get(inv_h), p.get(mid_h)));

    let mut inv = Vec::with_capacity(paths);
    for b in 0..mc.simulation().grid().num_blocks() {
        let v = mc
            .simulation()
            .state()
            .view(mc.simulation().grid(), BlockId(b as u32), inv_h);
        for idx in cells(mc.simulation().grid().block_cells()) {
            inv.push(v.get(idx).0);
        }
    }
    Terminal { inv, wealth_mean: wealth.mean.0, wealth_std: wealth.std_dev().0 }
}

#[test]
fn inventory_stays_within_the_quoting_bounds() {
    let params = MarketMakerParams::<F>::default();
    let term = simulate(params, 3.0, params.theta, 100.0, 20_000, 1, SerialScheduler);
    assert!(
        term.inv
            .iter()
            .all(|&q| q >= params.q_min as f64 - 1e-9 && q <= params.q_max as f64 + 1e-9),
        "inventory left [{}, {}]",
        params.q_min,
        params.q_max
    );
    assert!(term.inv.iter().all(|&q| q == q.round()));
}

#[test]
fn market_maker_earns_positive_expected_wealth() {
    let params = MarketMakerParams::<F>::default();
    let term = simulate(params, 3.0, params.theta, 100.0, 40_000, 2, SerialScheduler);
    assert!(
        term.wealth_mean > 0.5,
        "expected terminal wealth {:.4} should be solidly positive",
        term.wealth_mean
    );
    assert!(term.wealth_std > 0.0, "wealth must vary across paths");
}

#[test]
fn symmetric_book_has_no_inventory_bias() {
    let side = Side { lambda: F(1.5), kappa: F(2.0), epsilon: F(0.004) };
    let params = MarketMakerParams {
        mu: F(0.0),
        sell: side,
        buy: side,
        ..MarketMakerParams::default()
    };
    let term = simulate(params, 3.0, params.theta, 100.0, 40_000, 3, SerialScheduler);
    let mean_inv = term.inv.iter().sum::<f64>() / term.inv.len() as f64;
    assert!(
        mean_inv.abs() < 0.05,
        "symmetric book should hold mean inventory near 0, got {mean_inv:.4}"
    );
}

#[test]
fn controlled_ensemble_is_scheduler_independent() {
    let params = MarketMakerParams::<F>::default();
    let s = simulate(params, 2.0, params.theta, 100.0, 16_000, 42, SerialScheduler);
    let p = simulate(params, 2.0, params.theta, 100.0, 16_000, 42, RayonScheduler);
    assert_eq!(s.inv, p.inv, "inventory paths must be schedule-independent");
    assert_eq!(s.wealth_mean, p.wealth_mean, "wealth must be schedule-independent");
}

#[test]
fn depth_tables_answer_with_the_nearest_node() {
    let params = MarketMakerParams::<F> { q_min: -1, q_max: 1, ..MarketMakerParams::default() };
    let grid = CartesianGrid::new([2], [2], [F(0.0)], [F(1.0)]).unwrap();
    let flat = vec![vec![F(0.0); 2]; 3];
    let tilted = vec![
        vec![F(0.0), F(0.0)],
        vec![F(0.25), F(0.5)],
        vec![F(0.0), F(0.0)],
    ];
    let model = HjbMarketMaker::new(params);
    let tables = DepthTables::build(&model, &grid, &[F(0.0), F(0.5)], &[flat, tilted]);

    let base = model.optimal_depths(0, F(0.0), Some(F(0.0)), Some(F(0.0)));
    assert_eq!(tables.lookup(F(0.1), F(0.2), 0), base);
    assert_eq!(
        tables.lookup(F(0.4), F(1.9), 0),
        model.optimal_depths(0, F(0.5), Some(F(0.0)), Some(F(0.0)))
    );
    assert_eq!(
        tables.lookup(F(9.0), F(-3.0), 0),
        model.optimal_depths(0, F(0.25), Some(F(0.0)), Some(F(0.0)))
    );
    let (bid, ask) = tables.lookup(F(0.0), F(0.5), 7);
    assert!(bid.0.is_infinite() && ask.0.is_finite());
    let (bid, ask) = tables.lookup(F(0.0), F(0.5), -7);
    assert!(bid.0.is_finite() && ask.0.is_infinite());
    assert_eq!(params.sell.fill_rate(ask), F(0.0));
}

#[test]
fn terminal_wealth_marks_inventory_and_penalizes_it() {
    let params = MarketMakerParams::<F> { alpha: F(0.25), ..MarketMakerParams::default() };
    let grid = CartesianGrid::new([1], [1], [F(0.0)], [F(1.0)]).unwrap();
    let n = params.num_levels();
    let tables = DepthTables::build(
        &HjbMarketMaker::new(params),
        &grid,
        &[F(0.0)],
        &[vec![vec![F(0.0)]; n]],
    );
    let model = MarketMakingEnsemble::new(params, Arc::new(tables), F(1.0));
    assert_eq!(model.terminal_wealth(F(10.0), F(2.0), F(100.0)), F(10.0 + 2.0 * (100.0 - 0.5)));
}

#[test]
fn initializing_starts_every_path_flat() {
    let params = MarketMakerParams::<F>::default();
    let nu = CartesianGrid::new([1], [1], [F(0.0)], [F(1.0)]).unwrap();
    let tables = DepthTables::build(
        &HjbMarketMaker::new(params),
        &nu,
        &[F(0.0)],
        &[vec![vec![F(0.0)]; params.num_levels()]],
    );
    let mut sim = Simulation::new(
        path_grid(8, 4).unwrap(),
        (),
        MarketMakingEnsemble::new(params, Arc::new(tables), F(1.0)),
        EulerMaruyama { seed: 3 },
        SerialScheduler,
        SystemAllocator,
    );
    let model = sim.model().clone();
    let (inv, cash) = (model.inv(), model.cash());
    let (grid, state) = sim.state_mut();
    for b in 0..grid.num_blocks() {
        state.slab_mut(BlockId(b as u32), inv).fill(F(3.0));
        state.slab_mut(BlockId(b as u32), cash).fill(F(-7.0));
    }
    model.initialize(grid, state, F(0.5), F(100.0));
    for b in 0..2 {
        for (field, value) in
            [(model.nu(), 0.5), (model.mid(), 100.0), (inv, 0.0), (cash, 0.0)]
        {
            assert!(state.slab(BlockId(b), field).iter().all(|v| v.0 == value));
        }
    }
}
