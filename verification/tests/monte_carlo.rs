//! The Monte Carlo harness, which drives any model as a path ensemble and reduces a
//! per-path functional to summary statistics.

use std::sync::{Arc, Mutex};

use legendre::engine::monte_carlo::{ensemble_stats, path_grid, MonteCarlo, Stats};
use legendre::engine::observer::Observer;
use legendre::engine::scheduler::SerialScheduler;
use legendre::engine::simulation::Simulation;
use legendre::engine::state::{State, StateBuilder};
use legendre::engine::storage::{DenseStorage, Real, Scalar, SystemAllocator};
use legendre::geometry::cartesian::CartesianGrid;
use legendre::geometry::sweep::fill_from_fn;
use legendre::integrators::euler_maruyama::EulerMaruyama;
use legendre::physics::stochastic_vol::{StochVolParams, StochVolPaths};

#[derive(Debug, Clone, Copy, PartialEq, PartialOrd)]
struct F(f64);

impl Scalar for F {
    fn zero() -> Self {
        F(0.0)
    }
}

impl Real for F {
    fn add(self, other: Self) -> Self {
        F(self.0 + other.0)
    }
    fn sub(self, other: Self) -> Self {
        F(self.0 - other.0)
    }
    fn mul(self, other: Self) -> Self {
        F(self.0 * other.0)
    }
    fn div(self, other: Self) -> Self {
        F(self.0 / other.0)
    }
    fn lt(self, other: Self) -> bool {
        self.0 < other.0
    }
    fn le(self, other: Self) -> bool {
        self.0 <= other.0
    }
    fn neg(self) -> Self {
        F(-self.0)
    }
    fn sqrt(self) -> Self {
        F(self.0.sqrt())
    }
    fn abs(self) -> Self {
        F(self.0.abs())
    }
    fn ln(self) -> Self {
        F(self.0.ln())
    }
    fn cos(self) -> Self {
        F(self.0.cos())
    }
    fn exp_m1(self) -> Self {
        F(self.0.exp_m1())
    }
    fn max(self, other: Self) -> Self {
        F(self.0.max(other.0))
    }
    fn min(self, other: Self) -> Self {
        F(self.0.min(other.0))
    }
    fn powi(self, n: i32) -> Self {
        F(self.0.powi(n))
    }
    fn equals(self, other: Self) -> bool {
        self.0 == other.0
    }
    fn one() -> Self {
        F(1.0)
    }
    fn tau() -> Self {
        F(std::f64::consts::TAU)
    }
    fn mul_add(self, a: Self, b: Self) -> Self {
        F(self.0.mul_add(a.0, b.0))
    }
    fn is_finite(self) -> bool {
        self.0.is_finite()
    }
    fn half() -> Self {
        F(0.5)
    }
    fn round(self) -> Self {
        F(self.0.round())
    }
    fn exp(self) -> Self {
        F(self.0.exp())
    }
    fn sin(self) -> Self {
        F(self.0.sin())
    }
    fn tanh(self) -> Self {
        F(self.0.tanh())
    }
    fn hypot(self, other: Self) -> Self {
        F(self.0.hypot(other.0))
    }
    fn total_lt(self, other: Self) -> bool {
        self.0.total_cmp(&other.0).is_lt()
    }
    fn to_bits(self) -> u64 {
        self.0.to_bits()
    }
    fn to_u64(self) -> u64 {
        self.0 as u64
    }
    fn to_i64(self) -> i64 {
        self.0 as i64
    }
    fn infinity() -> Self {
        F(f64::INFINITY)
    }
    fn largest() -> Self {
        F(f64::MAX)
    }
    fn from_i64(x: i64) -> Self {
        F(x as f64)
    }
    fn from_u64(x: u64) -> Self {
        F(x as f64)
    }
}

type Ensemble =
    MonteCarlo<F, (), StochVolPaths<F>, EulerMaruyama, SerialScheduler, SystemAllocator, 1>;

/// A stochastic-volatility ensemble started at (`nu0`, `s0`).
fn ensemble(
    params: StochVolParams<F>,
    paths: usize,
    block: usize,
    nu0: f64,
    s0: f64,
    seed: u64,
) -> Ensemble {
    let grid = path_grid(paths, block).unwrap();
    let sim = Simulation::new(
        grid,
        (),
        StochVolPaths::new(params),
        EulerMaruyama { seed },
        SerialScheduler,
        SystemAllocator,
    );
    let mut mc = MonteCarlo::new(sim);
    let model = mc.simulation().model().clone();
    let (g, state) = mc.simulation_mut().state_mut();
    model.initialize(g, state, F(nu0), F(s0));
    mc
}

#[test]
fn run_and_reduce_recovers_the_cir_mean() {
    let params = StochVolParams::<F>::default();
    let (nu0, dt, steps) = (2.0, 0.01, 100);
    let mut mc = ensemble(params, 40_000, 4000, nu0, 100.0, 7);
    mc.run(steps, F(dt));

    let nu = mc.simulation().model().nu();
    let stats = mc.stats(|p| p.get(nu));

    let t = dt * steps as f64;
    let expected =
        params.theta.0 + (nu0 - params.theta.0) * (-params.k_speed.0 * t).exp();
    assert_eq!(stats.count, 40_000, "every path is one sample");
    assert!(
        (stats.mean.0 - expected).abs() < 0.01,
        "ensemble mean {:.5} should match analytic {expected:.5}",
        stats.mean.0
    );
    assert!(stats.std_dev() > F(0.0) && stats.min < stats.mean && stats.mean < stats.max);
}

#[test]
fn stats_summarize_a_multi_field_payoff() {
    let params = StochVolParams::<F> { mu: F(0.0), ..StochVolParams::default() };
    let (dt, steps, s0) = (0.01, 100, 100.0);
    let mut mc = ensemble(params, 40_000, 4000, params.theta.0, s0, 3);
    mc.run(steps, F(dt));

    let (nu, mid) = (mc.simulation().model().nu(), mc.simulation().model().mid());
    let stats = mc.stats(|p| F(p.get(nu).0 + p.get(mid).0));
    assert!(
        (stats.mean.0 - (params.theta.0 + s0)).abs() < 0.05,
        "mean {:.4} should be {:.4}",
        stats.mean.0,
        params.theta.0 + s0
    );
}

#[test]
fn constant_functional_has_zero_variance() {
    let mc = ensemble(StochVolParams::default(), 8_000, 4000, 1.0, 100.0, 1);
    let stats = mc.stats(|_| F(3.5));
    assert_eq!(stats.count, 8_000);
    assert_eq!(stats.mean, F(3.5));
    assert_eq!(stats.variance, F(0.0));
    assert_eq!(stats.min, F(3.5));
    assert_eq!(stats.max, F(3.5));
}

#[test]
fn ensemble_stats_free_function_matches_the_wrapper() {
    let mc = ensemble(StochVolParams::default(), 8_000, 4000, 1.5, 100.0, 2);
    let nu = mc.simulation().model().nu();
    let via_wrapper = mc.stats(|p| p.get(nu));
    let direct: Stats<F> =
        ensemble_stats(mc.simulation().grid(), mc.simulation().state(), |p| p.get(nu));
    assert_eq!(via_wrapper, direct);
}

#[test]
fn path_grid_requires_divisible_sizes() {
    assert!(path_grid::<F>(100_000, 4000).is_ok());
    assert!(path_grid::<F>(100, 0).is_err());
    assert!(path_grid::<F>(100, 7).is_err(), "paths must divide into blocks");
}

#[test]
fn stats_of_four_known_paths() {
    let grid: CartesianGrid<F, 1> = path_grid(4, 2).unwrap();
    let mut builder = StateBuilder::<F>::new();
    let x = builder.register("x", 1);
    let mut state: State<F, DenseStorage<F>> = builder.build(&grid, &SystemAllocator);
    // The unit interval: cell centres are 1, 3, 5 and 7 eighths.
    fill_from_fn(&grid, &mut state, x, |[c]: [F; 1]| F(8.0 * c.0));
    let stats = ensemble_stats(&grid, &state, |p| p.get(x));
    assert_eq!(
        stats,
        Stats { count: 4, mean: F(4.0), variance: F(5.0), min: F(1.0), max: F(7.0) }
    );
    assert_eq!(stats.std_dev(), F(5.0f64.sqrt()));
}

struct Steps(Arc<Mutex<Vec<(u64, f64)>>>);

impl Observer<CartesianGrid<F, 1>, F, DenseStorage<F>> for Steps {
    fn observe(
        &mut self,
        step: u64,
        t: F,
        _epoch: u64,
        _grid: &CartesianGrid<F, 1>,
        _state: &State<F, DenseStorage<F>>,
    ) {
        self.0.lock().unwrap().push((step, t.0));
    }
}

#[test]
fn runs_show_observers_every_step() {
    let mut mc = ensemble(StochVolParams::default(), 8, 4, 1.0, 100.0, 1);
    let seen = Arc::new(Mutex::new(Vec::new()));
    mc.simulation_mut().attach_observer(Box::new(Steps(Arc::clone(&seen))));
    mc.run(3, F(0.25));
    assert_eq!(*seen.lock().unwrap(), vec![(1, 0.25), (2, 0.5), (3, 0.75)]);
}
