//! The stochastic-volatility market-making solver: properties that an optimal
//! market maker's value function and quotes must have.

use legendre::engine::scheduler::{RayonScheduler, Scheduler, SerialScheduler};
use legendre::engine::simulation::Simulation;
use legendre::engine::state::{FieldHandle, State, StateBuilder};
use legendre::engine::storage::{DenseStorage, Real, Scalar, SystemAllocator};
use legendre::geometry::cartesian::CartesianGrid;
use legendre::geometry::grid::{BlockId, Grid};
use legendre::geometry::view::for_each_interior;
use legendre::integrators::euler::ForwardEuler;
use legendre::physics::market_making::{HjbMarketMaker, MarketMakerParams, Side};
use legendre::physics::model::Model;

#[derive(Debug, Clone, Copy, PartialEq, PartialOrd)]
struct F(f64);

impl Scalar for F {
    fn zero() -> Self {
        F(0.0)
    }
}

impl Real for F {
    fn add(self, other: Self) -> Self {
        F(self.0 + other.0)
    }
    fn sub(self, other: Self) -> Self {
        F(self.0 - other.0)
    }
    fn mul(self, other: Self) -> Self {
        F(self.0 * other.0)
    }
    fn div(self, other: Self) -> Self {
        F(self.0 / other.0)
    }
    fn lt(self, other: Self) -> bool {
        self.0 < other.0
    }
    fn le(self, other: Self) -> bool {
        self.0 <= other.0
    }
    fn neg(self) -> Self {
        F(-self.0)
    }
    fn sqrt(self) -> Self {
        F(self.0.sqrt())
    }
    fn abs(self) -> Self {
        F(self.0.abs())
    }
    fn ln(self) -> Self {
        F(self.0.ln())
    }
    fn cos(self) -> Self {
        F(self.0.cos())
    }
    fn exp_m1(self) -> Self {
        F(self.0.exp_m1())
    }
    fn max(self, other: Self) -> Self {
        F(self.0.max(other.0))
    }
    fn min(self, other: Self) -> Self {
        F(self.0.min(other.0))
    }
    fn powi(self, n: i32) -> Self {
        F(self.0.powi(n))
    }
    fn equals(self, other: Self) -> bool {
        self.0 == other.0
    }
    fn one() -> Self {
        F(1.0)
    }
    fn tau() -> Self {
        F(std::f64::consts::TAU)
    }
    fn mul_add(self, a: Self, b: Self) -> Self {
        F(self.0.mul_add(a.0, b.0))
    }
    fn is_finite(self) -> bool {
        self.0.is_finite()
    }
    fn half() -> Self {
        F(0.5)
    }
    fn round(self) -> Self {
        F(self.0.round())
    }
    fn exp(self) -> Self {
        F(self.0.exp())
    }
    fn sin(self) -> Self {
        F(self.0.sin())
    }
    fn tanh(self) -> Self {
        F(self.0.tanh())
    }
    fn hypot(self, other: Self) -> Self {
        F(self.0.hypot(other.0))
    }
    fn total_lt(self, other: Self) -> bool {
        self.0.total_cmp(&other.0).is_lt()
    }
    fn to_bits(self) -> u64 {
        self.0.to_bits()
    }
    fn to_u64(self) -> u64 {
        self.0 as u64
    }
    fn to_i64(self) -> i64 {
        self.0 as i64
    }
    fn infinity() -> Self {
        F(f64::INFINITY)
    }
    fn largest() -> Self {
        F(f64::MAX)
    }
    fn from_i64(x: i64) -> Self {
        F(x as f64)
    }
    fn from_u64(x: u64) -> Self {
        F(x as f64)
    }
}

fn cells<const D: usize>(interior: [usize; D]) -> Vec<[isize; D]> {
    let mut out = Vec::new();
    for_each_interior(interior, &mut out);
    out
}

const NU_MIN: f64 = 0.001;
const NU_MAX: f64 = 2.0;

fn nu_grid(n: usize, block: usize) -> CartesianGrid<F, 1> {
    let dnu = (NU_MAX - NU_MIN) / n as f64;
    CartesianGrid::new([n], [block], [F(NU_MIN)], [F(dnu)]).unwrap()
}

/// The whole value surface as `surface[level][cell]`.
fn surface(
    grid: &CartesianGrid<F, 1>,
    state: &State<F, DenseStorage<F>>,
    handles: &[FieldHandle<F>],
) -> Vec<Vec<F>> {
    handles
        .iter()
        .map(|&h| {
            let mut col = Vec::new();
            for b in 0..grid.num_blocks() {
                let v = state.view(grid, BlockId(b as u32), h);
                for idx in cells(grid.block_cells()) {
                    col.push(v.get(idx));
                }
            }
            col
        })
        .collect()
}

/// The model's stable step on a grid.
fn stable_dt(params: MarketMakerParams<F>, grid: &CartesianGrid<F, 1>) -> f64 {
    let model = HjbMarketMaker::new(params);
    <HjbMarketMaker<F> as Model<F, CartesianGrid<F, 1>, (), 1>>::stable_dt(
        &model,
        grid.spacing(BlockId(0)),
    )
    .unwrap()
    .0
}

/// Solve forward in backward time and return `u[level][cell]`.
fn solve<Sch: Scheduler>(
    params: MarketMakerParams<F>,
    grid: CartesianGrid<F, 1>,
    scheduler: Sch,
    dt: f64,
    steps: usize,
) -> Vec<Vec<f64>> {
    let mut sim = Simulation::new(
        grid,
        (),
        HjbMarketMaker::new(params),
        ForwardEuler,
        scheduler,
        SystemAllocator,
    );
    for _ in 0..steps {
        sim.step(F(dt));
    }
    surface(sim.grid(), sim.state(), sim.model().handles())
        .iter()
        .map(|col| col.iter().map(|x| x.0).collect())
        .collect()
}

/// Profit per unit time of a maker quoting the myopic optimal spread on both sides
/// at flat inventory.
fn spread_floor(p: &MarketMakerParams<F>) -> f64 {
    let alpha = p.alpha.0;
    let (s, b) = (p.sell, p.buy);
    s.lambda.0 * (-s.kappa.0 * (s.epsilon.0 + alpha)).exp() / s.kappa.0
        + b.lambda.0 * (-b.kappa.0 * (b.epsilon.0 + alpha)).exp() / b.kappa.0
}

fn even_side() -> Side<F> {
    Side { lambda: F(1.5), kappa: F(2.0), epsilon: F(0.004) }
}

#[test]
fn flat_inventory_earns_the_closed_form_spread_floor() {
    let p = MarketMakerParams::<F>::default();
    let floor = spread_floor(&p);
    let dt = 1e-3;
    let q0 = (-p.q_min) as usize;

    let one = solve(p, nu_grid(16, 16), SerialScheduler, dt, 1);
    for cell in &one[q0] {
        assert_eq!(
            *cell,
            dt * floor,
            "first step at flat inventory must equal dt times the spread floor"
        );
    }

    let (steps, n) = (100, 16);
    let tau = dt * steps as f64;
    let horizon = solve(p, nu_grid(n, n), SerialScheduler, dt, steps);
    for cell in &horizon[q0] {
        let ratio = cell / (floor * tau);
        assert!(
            (0.9..=1.0).contains(&ratio),
            "flat-inventory value {cell} should track the spread floor (ratio {ratio:.4})"
        );
    }
}

#[test]
fn symmetric_book_values_are_inventory_symmetric() {
    let side = even_side();
    let params = MarketMakerParams {
        mu: F(0.0),
        sell: side,
        buy: side,
        ..MarketMakerParams::default()
    };
    let grid = nu_grid(32, 16);
    let dt = stable_dt(params, &grid);
    let u = solve(params, grid, SerialScheduler, dt, 300);

    let n = params.num_levels();
    for qi in 0..n {
        let mirror = n - 1 - qi;
        for (a, b) in u[qi].iter().zip(&u[mirror]) {
            assert!((a - b).abs() <= 1e-12 * a.abs().max(1.0), "{a} vs {b}");
        }
    }
}

#[test]
fn holding_inventory_is_penalized() {
    let side = even_side();
    let params = MarketMakerParams {
        mu: F(0.0),
        psi: F(0.5),
        sell: side,
        buy: side,
        ..MarketMakerParams::default()
    };
    let grid = nu_grid(40, 20);
    let dt = stable_dt(params, &grid);
    let u = solve(params, grid, SerialScheduler, dt, 400);

    let q0 = (-params.q_min) as usize;
    let n = u[0].len();
    for cell in 0..n {
        for qi in q0..params.num_levels() - 1 {
            assert!(
                u[qi][cell] >= u[qi + 1][cell] - 1e-12,
                "value must not increase outward from level {qi} (cell {cell})"
            );
        }
        let best = u.iter().map(|c| c[cell]).fold(f64::MIN, f64::max);
        assert!(
            (u[q0][cell] - best).abs() < 1e-12,
            "flat inventory must be the most valuable state at cell {cell}"
        );
    }
}

#[test]
fn long_inventory_skews_quotes_toward_offloading() {
    let side = even_side();
    let params = MarketMakerParams {
        mu: F(0.0),
        sell: side,
        buy: side,
        ..MarketMakerParams::default()
    };
    let grid = nu_grid(64, 16);
    let dt = stable_dt(params, &grid);
    let steps = (5.0 / dt).ceil() as usize;
    let u = solve(params, grid, RayonScheduler, dt, steps);

    let model = HjbMarketMaker::new(params);
    let cell = u[0].len() / 2;
    let depths = |q: isize| {
        let qi = (q - params.q_min) as usize;
        let up = if q < params.q_max { Some(F(u[qi + 1][cell])) } else { None };
        let dn = if q > params.q_min { Some(F(u[qi - 1][cell])) } else { None };
        let (bid, ask) = model.optimal_depths(q, F(u[qi][cell]), up, dn);
        (bid.0, ask.0)
    };

    let (bid0, ask0) = depths(0);
    assert!((bid0 - ask0).abs() < 1e-9, "flat book: bid {bid0} vs ask {ask0}");

    for q in 1..params.q_max {
        let (bid_long, ask_long) = depths(q);
        assert!(ask_long < bid_long, "long q={q}: ask {ask_long} vs bid {bid_long}");
        let (bid_short, ask_short) = depths(-q);
        assert!(bid_short < ask_short, "short q={q}: bid {bid_short} vs ask {ask_short}");
        assert!(
            (ask_long - bid_short).abs() < 1e-9 && (bid_long - ask_short).abs() < 1e-9,
            "long/short quotes must mirror: ({bid_long},{ask_long}) vs ({bid_short},{ask_short})"
        );
    }
}

#[test]
fn positive_inventory_drift_biases_the_maker_long() {
    let side = even_side();
    let params = MarketMakerParams {
        mu: F(0.05),
        psi: F(0.1),
        sell: side,
        buy: side,
        ..MarketMakerParams::default()
    };
    let grid = nu_grid(64, 16);
    let dt = stable_dt(params, &grid);
    let steps = (5.0 / dt).ceil() as usize;
    let u = solve(params, grid, SerialScheduler, dt, steps);

    let q0 = (-params.q_min) as usize;
    let cell = u[0].len() / 2;
    assert!(
        u[q0 + 1][cell] > u[q0][cell] && u[q0][cell] > u[q0 - 1][cell],
        "value must increase with inventory near flat: {} < {} < {}",
        u[q0 - 1][cell],
        u[q0][cell],
        u[q0 + 1][cell],
    );

    let model = HjbMarketMaker::new(params);
    let up = Some(F(u[q0 + 1][cell]));
    let dn = Some(F(u[q0 - 1][cell]));
    let (bid, ask) = model.optimal_depths(0, F(u[q0][cell]), up, dn);
    assert!(bid < ask, "a rising book quotes a tighter bid: bid {bid:?} vs ask {ask:?}");
}

#[test]
fn optimal_depths_clamp_and_withdraw() {
    let params = MarketMakerParams::<F>::default();
    let mut model = HjbMarketMaker::new(params);
    let mut builder = StateBuilder::<F>::new();
    <HjbMarketMaker<F> as Model<F, CartesianGrid<F, 1>, (), 1>>::register_fields(
        &mut model,
        &mut builder,
    );

    let (bid, ask) = model.optimal_depths(0, F(0.0), Some(F(0.0)), Some(F(0.0)));
    assert!((bid.0 - (1.0 / 2.0 + 0.004 + 0.01)).abs() < 1e-15);
    assert!((ask.0 - (1.0 / 2.0 + 0.004 + 0.01)).abs() < 1e-15);

    let (_, ask_clamped) = model.optimal_depths(0, F(0.0), Some(F(0.0)), Some(F(10.0)));
    assert_eq!(ask_clamped, params.min_spread);

    let (bid_top, _) = model.optimal_depths(params.q_max, F(0.0), None, Some(F(0.0)));
    assert!(bid_top.0.is_infinite());
    assert_eq!(params.buy.fill_rate(bid_top), F(0.0));
    assert!(params.buy.fill_rate(F(0.5)) > F(0.0));
}

#[test]
fn solve_is_bitwise_scheduler_independent() {
    let params = MarketMakerParams::<F>::default();
    let dt = 0.01;
    let serial = solve(params, nu_grid(64, 16), SerialScheduler, dt, 200);
    let parallel = solve(params, nu_grid(64, 16), RayonScheduler, dt, 200);
    assert_eq!(serial, parallel, "scheduling must not change results");
}

#[test]
fn inventory_levels_have_their_own_named_fields() {
    let params = MarketMakerParams::<F>::default();
    assert_eq!(params.num_levels(), (params.q_max - params.q_min + 1) as usize);
    let mut model = HjbMarketMaker::new(params);
    let mut builder = StateBuilder::<F>::new();
    <HjbMarketMaker<F> as Model<F, CartesianGrid<F, 1>, (), 1>>::register_fields(
        &mut model,
        &mut builder,
    );
    assert_eq!(model.handles().len(), params.num_levels());
    let grid = nu_grid(4, 4);
    let state: State<F, DenseStorage<F>> = builder.build(&grid, &SystemAllocator);
    for q in params.q_min..=params.q_max {
        let spec = &state.layout().specs()[model.handle(q).index()];
        let expected = if q < 0 { format!("u_q-{}", -q) } else { format!("u_q{q}") };
        assert_eq!(spec.name, expected);
    }
}
