//! The jump driver and the mixed driver set, on per-cell jump-diffusions.

use legendre::engine::driver::{Driver, WienerJump};
use legendre::engine::scheduler::{RayonScheduler, Scheduler, SerialScheduler};
use legendre::engine::scratch::{Scratch, ScratchSpec};
use legendre::engine::simulation::Simulation;
use legendre::engine::state::{BlockStateMut, FieldHandle, State, StateBuilder};
use legendre::engine::storage::{Real, Scalar, StorageBackend, SystemAllocator};
use legendre::geometry::cartesian::CartesianGrid;
use legendre::geometry::grid::{BlockId, Grid};
use legendre::geometry::view::for_each_interior;
use legendre::integrators::euler_maruyama::EulerMaruyama;
use legendre::physics::model::{Model, RhsContext};

#[derive(Debug, Clone, Copy, PartialEq, PartialOrd)]
struct F(f64);

impl Scalar for F {
    fn zero() -> Self {
        F(0.0)
    }
}

impl Real for F {
    fn add(self, other: Self) -> Self {
        F(self.0 + other.0)
    }
    fn sub(self, other: Self) -> Self {
        F(self.0 - other.0)
    }
    fn mul(self, other: Self) -> Self {
        F(self.0 * other.0)
    }
    fn div(self, other: Self) -> Self {
        F(self.0 / other.0)
    }
    fn lt(self, other: Self) -> bool {
        self.0 < other.0
    }
    fn le(self, other: Self) -> bool {
        self.0 <= other.0
    }
    fn neg(self) -> Self {
        F(-self.0)
    }
    fn sqrt(self) -> Self {
        F(self.0.sqrt())
    }
    fn abs(self) -> Self {
        F(self.0.abs())
    }
    fn ln(self) -> Self {
        F(self.0.ln())
    }
    fn cos(self) -> Self {
        F(self.0.cos())
    }
    fn exp_m1(self) -> Self {
        F(self.0.exp_m1())
    }
    fn max(self, other: Self) -> Self {
        F(self.0.max(other.0))
    }
    fn min(self, other: Self) -> Self {
        F(self.0.min(other.0))
    }
    fn powi(self, n: i32) -> Self {
        F(self.0.powi(n))
    }
    fn equals(self, other: Self) -> bool {
        self.0 == other.0
    }
    fn one() -> Self {
        F(1.0)
    }
    fn tau() -> Self {
        F(std::f64::consts::TAU)
    }
    fn mul_add(self, a: Self, b: Self) -> Self {
        F(self.0.mul_add(a.0, b.0))
    }
    fn is_finite(self) -> bool {
        self.0.is_finite()
    }
    fn half() -> Self {
        F(0.5)
    }
    fn round(self) -> Self {
        F(self.0.round())
    }
    fn exp(self) -> Self {
        F(self.0.exp())
    }
    fn sin(self) -> Self {
        F(self.0.sin())
    }
    fn tanh(self) -> Self {
        F(self.0.tanh())
    }
    fn hypot(self, other: Self) -> Self {
        F(self.0.hypot(other.0))
    }
    fn total_lt(self, other: Self) -> bool {
        self.0.total_cmp(&other.0).is_lt()
    }
    fn to_bits(self) -> u64 {
        self.0.to_bits()
    }
    fn to_u64(self) -> u64 {
        self.0 as u64
    }
    fn to_i64(self) -> i64 {
        self.0 as i64
    }
    fn infinity() -> Self {
        F(f64::INFINITY)
    }
    fn largest() -> Self {
        F(f64::MAX)
    }
    fn from_i64(x: i64) -> Self {
        F(x as f64)
    }
    fn from_u64(x: u64) -> Self {
        F(x as f64)
    }
}

fn cells<const D: usize>(interior: [usize; D]) -> Vec<[isize; D]> {
    let mut out = Vec::new();
    for_each_interior(interior, &mut out);
    out
}

const MU: f64 = 0.1;
const SIGMA: f64 = 0.5;
const PAYOFF: f64 = 2.0;

/// `dw = mu dt + sigma dW`, and on each fire a counter moves by one and a sum by
/// the payoff, at the intensity held in a static field.
#[derive(Clone)]
struct JumpDiffusion {
    w: Option<FieldHandle<F>>,
    count: Option<FieldHandle<F>>,
    jsum: Option<FieldHandle<F>>,
    lam: Option<FieldHandle<F>>,
}

impl Model<F, CartesianGrid<F, 1>, (), 1> for JumpDiffusion {
    type Drivers = WienerJump<1, 1>;

    fn register_fields(&mut self, builder: &mut StateBuilder<F>) {
        self.w = Some(builder.register_driven("w", 0, &[Driver::Time, Driver::Wiener(0)]));
        self.count = Some(builder.register_driven("count", 0, &[Driver::Jump(0)]));
        self.jsum = Some(builder.register_driven("jsum", 0, &[Driver::Jump(0)]));
        self.lam = Some(builder.register_static("lam", 0));
    }

    fn vector_field_block<S: StorageBackend<F>>(
        &self,
        driver: Driver,
        ctx: &RhsContext<'_, F, CartesianGrid<F, 1>, ()>,
        state: &State<F, S>,
        out: &mut BlockStateMut<'_, F, S>,
        _scratch: &mut Scratch<F, S>,
    ) {
        let (grid, block) = (ctx.grid, ctx.block);
        let interior = cells(grid.block_cells());
        match driver {
            Driver::Time => {
                let mut dw = out.view_mut(grid, block, self.w.unwrap());
                for &idx in &interior {
                    dw.set(idx, F(MU));
                }
            }
            Driver::Wiener(0) => {
                let mut amp = out.view_mut(grid, block, self.w.unwrap());
                for &idx in &interior {
                    amp.set(idx, F(SIGMA));
                }
            }
            Driver::Jump(0) => {
                let mut dcount = out.view_mut(grid, block, self.count.unwrap());
                for &idx in &interior {
                    dcount.set(idx, F(1.0));
                }
                let mut djsum = out.view_mut(grid, block, self.jsum.unwrap());
                for &idx in &interior {
                    djsum.set(idx, F(PAYOFF));
                }
                let lam = state.view(grid, block, self.lam.unwrap());
                let mut rate = out.intensity_mut(grid, block);
                for &idx in &interior {
                    rate.set(idx, lam.get(idx));
                }
            }
            Driver::Wiener(_) | Driver::Jump(_) => unreachable!("one of each is declared"),
        }
    }

    fn scratch_spec(&self, _grid: &CartesianGrid<F, 1>) -> ScratchSpec {
        ScratchSpec::none()
    }

    fn fill_ghosts<S: StorageBackend<F>>(
        &self,
        _grid: &CartesianGrid<F, 1>,
        _disc: &(),
        _state: &mut State<F, S>,
        _t: F,
    ) {
    }

    fn project<S: StorageBackend<F>>(&self, _grid: &CartesianGrid<F, 1>, _disc: &(), _state: &mut State<F, S>) {}

    fn stiff_rows(
        &self,
        _grid: &CartesianGrid<F, 1>,
        _disc: &(),
        _block: BlockId,
        _field: FieldHandle<F>,
        _rows: &mut [[F; 3]],
    ) -> bool {
        false
    }

    fn stable_dt_nonstiff(&self, _spacing: [F; 1]) -> Option<F> {
        None
    }

    fn stable_dt(&self, _spacing: [F; 1]) -> Option<F> {
        None
    }
}

struct Paths {
    count: Vec<f64>,
    jsum: Vec<f64>,
    w: Vec<f64>,
}

/// Simulate `paths` jump-diffusion paths, intensity `lam_of(path)`.
fn run<Sch: Scheduler>(
    lam_of: impl Fn(usize) -> f64,
    paths: usize,
    block: usize,
    dt: f64,
    steps: usize,
    seed: u64,
    scheduler: Sch,
) -> Paths {
    let grid = CartesianGrid::new([paths], [block], [F(0.0)], [F(1.0)]).unwrap();
    let model = JumpDiffusion { w: None, count: None, jsum: None, lam: None };
    let mut sim =
        Simulation::new(grid, (), model, EulerMaruyama { seed }, scheduler, SystemAllocator);

    let lam_h = sim.model().lam.unwrap();
    {
        let (g, state) = sim.state_mut();
        for b in 0..g.num_blocks() {
            let blk = BlockId(b as u32);
            let base = b * block;
            let mut v = state.view_mut(g, blk, lam_h);
            for idx in cells(g.block_cells()) {
                v.set(idx, F(lam_of(base + idx[0] as usize)));
            }
        }
    }

    for _ in 0..steps {
        sim.step(F(dt));
    }

    let (count_h, jsum_h, w_h) =
        (sim.model().count.unwrap(), sim.model().jsum.unwrap(), sim.model().w.unwrap());
    let (mut count, mut jsum, mut w) = (Vec::new(), Vec::new(), Vec::new());
    for b in 0..sim.grid().num_blocks() {
        let blk = BlockId(b as u32);
        let (vc, vj, vw) = (
            sim.state().view(sim.grid(), blk, count_h),
            sim.state().view(sim.grid(), blk, jsum_h),
            sim.state().view(sim.grid(), blk, w_h),
        );
        for idx in cells(sim.grid().block_cells()) {
            count.push(vc.get(idx).0);
            jsum.push(vj.get(idx).0);
            w.push(vw.get(idx).0);
        }
    }
    Paths { count, jsum, w }
}

fn mean(xs: &[f64]) -> f64 {
    xs.iter().sum::<f64>() / xs.len() as f64
}

fn variance(xs: &[f64]) -> f64 {
    let m = mean(xs);
    xs.iter().map(|x| (x - m) * (x - m)).sum::<f64>() / xs.len() as f64
}

/// Expected count of a thinned process: each step fires with probability
/// `1 - exp(-lambda dt)`.
fn thinned_mean(lam: f64, dt: f64, steps: usize) -> f64 {
    steps as f64 * (1.0 - (-lam * dt).exp())
}

#[test]
fn jump_count_matches_thinned_poisson_mean() {
    let (lam, dt, steps) = (2.0, 0.01, 100);
    let p = run(|_| lam, 50_000, 5000, dt, steps, 1, SerialScheduler);
    let got = mean(&p.count);
    let expected = thinned_mean(lam, dt, steps);
    assert!((got - expected).abs() < 0.03, "mean count {got:.4} vs {expected:.4}");
    assert!(
        p.count.iter().all(|&c| c == c.round() && c >= 0.0),
        "counts must be non-negative integers"
    );
}

#[test]
fn coupled_fields_move_on_the_same_fire() {
    let p = run(|_| 3.0, 20_000, 5000, 0.01, 100, 5, SerialScheduler);
    for (c, j) in p.count.iter().zip(&p.jsum) {
        assert_eq!(*j, c * PAYOFF, "coupled fields diverged: count {c}, jsum {j}");
    }
}

#[test]
fn intensity_is_read_per_cell() {
    let (lo, hi, dt, steps) = (1.0, 5.0, 0.01, 100);
    let n = 40_000;
    let p = run(
        |i| if i < n / 2 { lo } else { hi },
        n,
        5000,
        dt,
        steps,
        9,
        SerialScheduler,
    );
    let lo_mean = mean(&p.count[..n / 2]);
    let hi_mean = mean(&p.count[n / 2..]);
    assert!((lo_mean - thinned_mean(lo, dt, steps)).abs() < 0.05, "low group {lo_mean:.4}");
    assert!((hi_mean - thinned_mean(hi, dt, steps)).abs() < 0.05, "high group {hi_mean:.4}");
    assert!(hi_mean > lo_mean, "higher intensity must fire more often");
}

#[test]
fn zero_intensity_never_fires() {
    let p = run(|_| 0.0, 10_000, 5000, 0.01, 200, 3, SerialScheduler);
    assert!(
        p.count.iter().all(|&c| c == 0.0) && p.jsum.iter().all(|&j| j == 0.0),
        "a zero-intensity jump driver must never fire"
    );
}

#[test]
fn wiener_and_jump_coexist_in_a_mixed_set() {
    let (dt, steps) = (0.01, 100);
    let t = dt * steps as f64;
    let p = run(|_| 3.0, 50_000, 5000, dt, steps, 7, SerialScheduler);
    let (m, v) = (mean(&p.w), variance(&p.w));
    assert!((m - MU * t).abs() < 0.02, "mean {m:.4} should be {:.4}", MU * t);
    assert!(
        (v - SIGMA * SIGMA * t).abs() < 0.02,
        "variance {v:.4} should be {:.4}",
        SIGMA * SIGMA * t
    );
}

#[test]
fn jump_paths_are_bitwise_scheduler_independent() {
    let s = run(|_| 2.5, 16_000, 4000, 0.01, 60, 42, SerialScheduler);
    let p = run(|_| 2.5, 16_000, 4000, 0.01, 60, 42, RayonScheduler);
    assert_eq!(s.count, p.count, "counts must be schedule-independent");
    assert_eq!(s.jsum, p.jsum, "jump sums must be schedule-independent");
    assert_eq!(s.w, p.w, "diffusion must be schedule-independent");
}
