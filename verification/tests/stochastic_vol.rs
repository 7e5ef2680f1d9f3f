//! The stochastic-volatility path ensemble: the analytic mean-reversion law,
//! variance positivity, an unbiased price drift, and scheduler determinism.

use legendre::engine::scheduler::{RayonScheduler, Scheduler, SerialScheduler};
use legendre::engine::simulation::Simulation;
use legendre::engine::storage::{Real, Scalar, SystemAllocator};
use legendre::geometry::cartesian::CartesianGrid;
use legendre::geometry::grid::{BlockId, Grid};
use legendre::geometry::view::for_each_interior;
use legendre::integrators::euler_maruyama::EulerMaruyama;
use legendre::physics::stochastic_vol::{StochVolParams, StochVolPaths};

#[derive(Debug, Clone, Copy, PartialEq, PartialOrd)]
struct F(f64);

impl Scalar for F {
    fn zero() -> Self {
        F(0.0)
    }
}

impl Real for F {
    fn add(self, other: Self) -> Self {
        F(self.0 + other.0)
    }
    fn sub(self, other: Self) -> Self {
        F(self.0 - other.0)
    }
    fn mul(self, other: Self) -> Self {
        F(self.0 * other.0)
    }
    fn div(self, other: Self) -> Self {
        F(self.0 / other.0)
    }
    fn lt(self, other: Self) -> bool {
        self.0 < other.0
    }
    fn le(self, other: Self) -> bool {
        self.0 <= other.0
    }
    fn neg(self) -> Self {
        F(-self.0)
    }
    fn sqrt(self) -> Self {
        F(self.0.sqrt())
    }
    fn abs(self) -> Self {
        F(self.0.abs())
    }
    fn ln(self) -> Self {
        F(self.0.ln())
    }
    fn cos(self) -> Self {
        F(self.0.cos())
    }
    fn exp_m1(self) -> Self {
        F(self.0.exp_m1())
    }
    fn max(self, other: Self) -> Self {
        F(self.0.max(other.0))
    }
    fn min(self, other: Self) -> Self {
        F(self.0.min(other.0))
    }
    fn powi(self, n: i32) -> Self {
        F(self.0.powi(n))
    }
    fn equals(self, other: Self) -> bool {
        self.0 == other.0
    }
    fn one() -> Self {
        F(1.0)
    }
    fn tau() -> Self {
        F(std::f64::consts::TAU)
    }
    fn mul_add(self, a: Self, b: Self) -> Self {
        F(self.0.mul_add(a.0, b.0))
    }
    fn is_finite(self) -> bool {
        self.0.is_finite()
    }
    fn half() -> Self {
        F(0.5)
    }
    fn round(self) -> Self {
        F(self.0.round())
    }
    fn exp(self) -> Self {
        F(self.0.exp())
    }
    fn sin(self) -> Self {
        F(self.0.sin())
    }
    fn tanh(self) -> Self {
        F(self.0.tanh())
    }
    fn hypot(self, other: Self) -> Self {
        F(self.0.hypot(other.0))
    }
    fn total_lt(self, other: Self) -> bool {
        self.0.total_cmp(&other.0).is_lt()
    }
    fn to_bits(self) -> u64 {
        self.0.to_bits()
    }
    fn to_u64(self) -> u64 {
        self.0 as u64
    }
    fn to_i64(self) -> i64 {
        self.0 as i64
    }
    fn infinity() -> Self {
        F(f64::INFINITY)
    }
    fn largest() -> Self {
        F(f64::MAX)
    }
    fn from_i64(x: i64) -> Self {
        F(x as f64)
    }
    fn from_u64(x: u64) -> Self {
        F(x as f64)
    }
}

fn cells<const D: usize>(interior: [usize; D]) -> Vec<[isize; D]> {
    let mut out = Vec::new();
    for_each_interior(interior, &mut out);
    out
}

/// Simulate `paths` paths from (`nu0`, `s0`); return the terminal samples.
fn run<Sch: Scheduler>(
    params: StochVolParams<F>,
    paths: usize,
    block: usize,
    nu0: f64,
    s0: f64,
    dt: f64,
    steps: usize,
    seed: u64,
    scheduler: Sch,
) -> (Vec<f64>, Vec<f64>) {
    let grid = CartesianGrid::new([paths], [block], [F(0.0)], [F(1.0)]).unwrap();
    let mut sim = Simulation::new(
        grid,
        (),
        StochVolPaths::new(params),
        EulerMaruyama { seed },
        scheduler,
        SystemAllocator,
    );
    {
        let model = sim.model().clone();
        let (grid, state) = sim.state_mut();
        model.initialize(grid, state, F(nu0), F(s0));
    }
    for _ in 0..steps {
        sim.step(F(dt));
    }
    let (nu_h, mid_h) = (sim.model().nu(), sim.model().mid());
    let mut nu = Vec::with_capacity(paths);
    let mut mid = Vec::with_capacity(paths);
    for b in 0..sim.grid().num_blocks() {
        let block = BlockId(b as u32);
        let vnu = sim.state().view(sim.grid(), block, nu_h);
        let vmid = sim.state().view(sim.grid(), block, mid_h);
        for idx in cells(sim.grid().block_cells()) {
            nu.push(vnu.get(idx).0);
            mid.push(vmid.get(idx).0);
        }
    }
    (nu, mid)
}

fn params(mu: f64, k_speed: f64, theta: f64, sigma: f64) -> StochVolParams<F> {
    StochVolParams { mu: F(mu), k_speed: F(k_speed), theta: F(theta), sigma: F(sigma) }
}

fn mean(xs: &[f64]) -> f64 {
    xs.iter().sum::<f64>() / xs.len() as f64
}

fn variance(xs: &[f64]) -> f64 {
    let m = mean(xs);
    xs.iter().map(|x| (x - m) * (x - m)).sum::<f64>() / xs.len() as f64
}

#[test]
fn cir_variance_mean_reverts_to_theta() {
    let (k_speed, theta) = (1.0, 1.0);
    let p = params(0.0, k_speed, theta, 0.1);
    let (nu0, dt, steps) = (2.0, 0.01, 100);
    let t = dt * steps as f64;
    let (nu, _) = run(p, 40_000, 4000, nu0, 100.0, dt, steps, 7, SerialScheduler);

    let expected = theta + (nu0 - theta) * (-k_speed * t).exp();
    let got = mean(&nu);
    assert!(
        (got - expected).abs() < 0.01,
        "ensemble mean {got:.5} should track analytic {expected:.5} at t={t}"
    );
    assert!(got < nu0 - 0.5 && got > theta, "mean {got} must lie between");
}

#[test]
fn variance_stays_positive_under_heavy_vol_of_vol() {
    let p = params(0.0, 1.0, 0.2, 0.8);
    let (nu, _) = run(p, 20_000, 4000, 0.02, 100.0, 0.01, 200, 11, SerialScheduler);
    assert!(
        nu.iter().all(|&v| v >= 0.0),
        "positivity violated: min {}",
        nu.iter().copied().fold(f64::INFINITY, f64::min)
    );
}

#[test]
fn midprice_drift_is_unbiased() {
    let (mu, theta) = (0.05, 1.0);
    let p = params(mu, 1.0, theta, 0.1);
    let (s0, dt, steps) = (100.0, 0.01, 100);
    let t = dt * steps as f64;
    let (_, mid) = run(p, 40_000, 4000, theta, s0, dt, steps, 3, SerialScheduler);

    let got = mean(&mid);
    let expected = s0 + mu * t;
    assert!((got - expected).abs() < 0.02, "mean {got:.4} should equal {expected:.4}");
    let var = variance(&mid);
    let target = theta * t;
    assert!(
        (0.5 * target..2.0 * target).contains(&var),
        "price variance {var:.4} should be of order {target:.4}"
    );
}

#[test]
fn paths_are_bitwise_scheduler_independent() {
    let p = StochVolParams::<F>::default();
    let serial = run(p, 16_000, 4000, 1.0, 100.0, 0.01, 50, 42, SerialScheduler);
    let parallel = run(p, 16_000, 4000, 1.0, 100.0, 0.01, 50, 42, RayonScheduler);
    assert_eq!(serial, parallel, "scheduling must not change the sampled paths");
}
