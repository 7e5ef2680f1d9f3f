//! The whole chain on the heat equation, in two and three dimensions: a discrete
//! eigenmode must decay by the scheme's exact factor.

use legendre::discretization::finite_difference::FiniteDifference;
use legendre::discretization::operators::{Discretizes, Laplacian};
use legendre::discretization::stencil::Stencil;
use legendre::engine::driver::{Driver, NoNoise};
use legendre::engine::scheduler::{RayonScheduler, Scheduler, SerialScheduler};
use legendre::engine::scratch::{Scratch, ScratchSpec};
use legendre::engine::simulation::Simulation;
use legendre::engine::state::{BlockStateMut, FieldHandle, State, StateBuilder};
use legendre::engine::storage::{Real, Scalar, StorageBackend, SystemAllocator};
use legendre::geometry::cartesian::CartesianGrid;
use legendre::geometry::grid::{BlockId, Grid};
use legendre::geometry::halo::fill_ghosts_mirror;
use legendre::geometry::view::for_each_interior;
use legendre::integrators::euler::ForwardEuler;
use legendre::integrators::rk4::RungeKutta4;
use legendre::integrators::scheme::Integrator;
use legendre::physics::model::{Model, RhsContext};

#[derive(Debug, Clone, Copy, PartialEq, PartialOrd)]
struct F(f64);

impl Scalar for F {
    fn zero() -> Self {
        F(0.0)
    }
}

impl Real for F {
    fn add(self, other: Self) -> Self {
        F(self.0 + other.0)
    }
    fn sub(self, other: Self) -> Self {
        F(self.0 - other.0)
    }
    fn mul(self, other: Self) -> Self {
        F(self.0 * other.0)
    }
    fn div(self, other: Self) -> Self {
        F(self.0 / other.0)
    }
    fn lt(self, other: Self) -> bool {
        self.0 < other.0
    }
    fn le(self, other: Self) -> bool {
        self.0 <= other.0
    }
    fn neg(self) -> Self {
        F(-self.0)
    }
    fn sqrt(self) -> Self {
        F(self.0.sqrt())
    }
    fn abs(self) -> Self {
        F(self.0.abs())
    }
    fn ln(self) -> Self {
        F(self.0.ln())
    }
    fn cos(self) -> Self {
        F(self.0.cos())
    }
    fn exp_m1(self) -> Self {
        F(self.0.exp_m1())
    }
    fn max(self, other: Self) -> Self {
        F(self.0.max(other.0))
    }
    fn min(self, other: Self) -> Self {
        F(self.0.min(other.0))
    }
    fn powi(self, n: i32) -> Self {
        F(self.0.powi(n))
    }
    fn equals(self, other: Self) -> bool {
        self.0 == other.0
    }
    fn one() -> Self {
        F(1.0)
    }
    fn tau() -> Self {
        F(std::f64::consts::TAU)
    }
    fn mul_add(self, a: Self, b: Self) -> Self {
        F(self.0.mul_add(a.0, b.0))
    }
    fn is_finite(self) -> bool {
        self.0.is_finite()
    }
    fn half() -> Self {
        F(0.5)
    }
    fn round(self) -> Self {
        F(self.0.round())
    }
    fn exp(self) -> Self {
        F(self.0.exp())
    }
    fn sin(self) -> Self {
        F(self.0.sin())
    }
    fn tanh(self) -> Self {
        F(self.0.tanh())
    }
    fn hypot(self, other: Self) -> Self {
        F(self.0.hypot(other.0))
    }
    fn total_lt(self, other: Self) -> bool {
        self.0.total_cmp(&other.0).is_lt()
    }
    fn to_bits(self) -> u64 {
        self.0.to_bits()
    }
    fn to_u64(self) -> u64 {
        self.0 as u64
    }
    fn to_i64(self) -> i64 {
        self.0 as i64
    }
    fn infinity() -> Self {
        F(f64::INFINITY)
    }
    fn largest() -> Self {
        F(f64::MAX)
    }
    fn from_i64(x: i64) -> Self {
        F(x as f64)
    }
    fn from_u64(x: u64) -> Self {
        F(x as f64)
    }
}

fn cells<const D: usize>(interior: [usize; D]) -> Vec<[isize; D]> {
    let mut out = Vec::new();
    for_each_interior(interior, &mut out);
    out
}

fn close(a: f64, b: f64) -> bool {
    (a - b).abs() <= 1e-12 || (a - b).abs() <= 1e-10 * a.abs().max(b.abs())
}

/// Isotropic heat equation, generic over spatial dimension.
struct Heat<const D: usize> {
    kappa: f64,
    u: Option<FieldHandle<F>>,
}

impl<P: Discretizes<F, CartesianGrid<F, D>, Laplacian, D>, const D: usize>
    Model<F, CartesianGrid<F, D>, P, D> for Heat<D>
{
    type Drivers = NoNoise;

    fn register_fields(&mut self, builder: &mut StateBuilder<F>) {
        self.u = Some(builder.register("u", 1));
    }

    fn fill_ghosts<S: StorageBackend<F>>(
        &self,
        grid: &CartesianGrid<F, D>,
        _disc: &P,
        state: &mut State<F, S>,
        _t: F,
    ) {
        fill_ghosts_mirror(grid, state, self.u.unwrap());
    }

    fn vector_field_block<S: StorageBackend<F>>(
        &self,
        _driver: Driver,
        ctx: &RhsContext<'_, F, CartesianGrid<F, D>, P>,
        state: &State<F, S>,
        out: &mut BlockStateMut<'_, F, S>,
        _scratch: &mut Scratch<F, S>,
    ) {
        let u = self.u.unwrap();
        let stencil = ctx.disc.build(ctx.grid, Laplacian);
        let input = state.view(ctx.grid, ctx.block, u);
        let mut output = out.view_mut(ctx.grid, ctx.block, u);
        stencil.apply(ctx.grid, ctx.block, input, &mut output);
        for idx in cells(input.interior()) {
            let v = output.get(idx).0 * self.kappa;
            output.set(idx, F(v));
        }
    }

    fn scratch_spec(&self, _grid: &CartesianGrid<F, D>) -> ScratchSpec {
        ScratchSpec::none()
    }

    fn project<S: StorageBackend<F>>(&self, _grid: &CartesianGrid<F, D>, _disc: &P, _state: &mut State<F, S>) {}

    fn stiff_rows(
        &self,
        _grid: &CartesianGrid<F, D>,
        _disc: &P,
        _block: BlockId,
        _field: FieldHandle<F>,
        _rows: &mut [[F; 3]],
    ) -> bool {
        false
    }

    fn stable_dt_nonstiff(&self, _spacing: [F; D]) -> Option<F> {
        None
    }

    fn stable_dt(&self, h: [F; D]) -> Option<F> {
        if D == 2 {
            return Some(F(0.25 * h[0].0.min(h[1].0).powi(2) / self.kappa));
        }
        let min_h = h.iter().map(|x| x.0).fold(f64::MAX, f64::min);
        Some(F(0.5 / (2.0 * D as f64) * min_h * min_h / self.kappa))
    }
}

/// Run `steps` of the 2-D heat model; `per_step_factor(z)` is the scheme's
/// amplification of a linear mode per step.
fn run_heat<Sch, I>(
    scheduler: Sch,
    integrator: I,
    steps: usize,
    per_step_factor: impl Fn(f64) -> f64,
) -> (Vec<f64>, Vec<f64>)
where
    Sch: Scheduler,
    I: Integrator<F, CartesianGrid<F, 2>, FiniteDifference, Heat<2>, 2>,
{
    const N: usize = 32;
    let h = 0.1;
    let kappa = 0.7;
    let grid =
        CartesianGrid::new([N, N], [N / 4, N / 4], [F(0.0), F(0.0)], [F(h), F(h)]).unwrap();
    let kx = std::f64::consts::PI / (N as f64 * h);

    let model = Heat::<2> { kappa, u: None };
    let mut sim =
        Simulation::new(grid, FiniteDifference, model, integrator, scheduler, SystemAllocator);
    let dt = sim.stable_dt().unwrap().0;

    let u = sim.model().u.unwrap();
    {
        let (grid, state) = sim.state_mut();
        for b in 0..grid.num_blocks() {
            let block = BlockId(b as u32);
            let mut v = state.view_mut(grid, block, u);
            for idx in cells(grid.block_cells()) {
                let x = grid.cell_center(block, idx)[0].0;
                v.set(idx, F((kx * x).cos()));
            }
        }
    }

    for _ in 0..steps {
        sim.step(F(dt));
    }

    let lambda = 2.0f64.mul_add(-(kx * h).cos(), 2.0) / (h * h);
    let factor = per_step_factor(dt * kappa * lambda).powi(steps as i32);
    let mut got = Vec::new();
    let mut expected = Vec::new();
    for b in 0..sim.grid().num_blocks() {
        let block = BlockId(b as u32);
        let v = sim.state().view(sim.grid(), block, u);
        for idx in cells(sim.grid().block_cells()) {
            let x = sim.grid().cell_center(block, idx)[0].0;
            got.push(v.get(idx).0);
            expected.push(factor * (kx * x).cos());
        }
    }
    (got, expected)
}

fn euler_factor(z: f64) -> f64 {
    1.0 - z
}

fn rk4_factor(z: f64) -> f64 {
    1.0 - z + z * z / 2.0 - z * z * z / 6.0 + z * z * z * z / 24.0
}

#[test]
fn heat_matches_discrete_eigenmode_decay() {
    let (got, expected) = run_heat(SerialScheduler, ForwardEuler, 200, euler_factor);
    for (g, e) in got.iter().zip(&expected) {
        assert!(close(*g, *e), "{g} vs {e}");
    }
}

#[test]
fn rk4_matches_discrete_eigenmode_decay() {
    let (got, expected) = run_heat(SerialScheduler, RungeKutta4::default(), 200, rk4_factor);
    for (g, e) in got.iter().zip(&expected) {
        assert!(close(*g, *e), "{g} vs {e}");
    }
}

#[test]
fn parallel_scheduler_is_bitwise_identical_to_serial() {
    let (serial, _) = run_heat(SerialScheduler, ForwardEuler, 100, euler_factor);
    let (parallel, _) = run_heat(RayonScheduler, ForwardEuler, 100, euler_factor);
    assert_eq!(serial, parallel, "scheduling must not change results");
}

#[test]
fn rk4_parallel_is_bitwise_identical_to_serial() {
    let (serial, _) = run_heat(SerialScheduler, RungeKutta4::default(), 100, rk4_factor);
    let (parallel, _) = run_heat(RayonScheduler, RungeKutta4::default(), 100, rk4_factor);
    assert_eq!(serial, parallel, "scheduling must not change results");
}

fn run_heat3d<Sch: Scheduler>(scheduler: Sch, steps: usize) -> (Vec<f64>, Vec<f64>) {
    const N: usize = 16;
    let h = 0.1;
    let kappa = 0.7;
    let grid = CartesianGrid::new([N; 3], [N / 2; 3], [F(0.0); 3], [F(h); 3]).unwrap();
    let kx = std::f64::consts::PI / (N as f64 * h);

    let model = Heat::<3> { kappa, u: None };
    let mut sim =
        Simulation::new(grid, FiniteDifference, model, ForwardEuler, scheduler, SystemAllocator);
    let dt = sim.stable_dt().unwrap().0;

    let u = sim.model().u.unwrap();
    {
        let (grid, state) = sim.state_mut();
        for b in 0..grid.num_blocks() {
            let block = BlockId(b as u32);
            let mut v = state.view_mut(grid, block, u);
            for idx in cells(grid.block_cells()) {
                let x = grid.cell_center(block, idx)[0].0;
                v.set(idx, F((kx * x).cos()));
            }
        }
    }

    for _ in 0..steps {
        sim.step(F(dt));
    }

    let lambda = 2.0f64.mul_add(-(kx * h).cos(), 2.0) / (h * h);
    let factor = (dt * kappa).mul_add(-lambda, 1.0).powi(steps as i32);
    let mut got = Vec::new();
    let mut expected = Vec::new();
    for b in 0..sim.grid().num_blocks() {
        let block = BlockId(b as u32);
        let v = sim.state().view(sim.grid(), block, u);
        for idx in cells(sim.grid().block_cells()) {
            let x = sim.grid().cell_center(block, idx)[0].0;
            got.push(v.get(idx).0);
            expected.push(factor * (kx * x).cos());
        }
    }
    (got, expected)
}

#[test]
fn heat3d_matches_discrete_eigenmode_decay() {
    let (got, expected) = run_heat3d(SerialScheduler, 200);
    for (g, e) in got.iter().zip(&expected) {
        assert!(close(*g, *e), "{g} vs {e}");
    }
}

#[test]
fn heat3d_parallel_is_bitwise_identical_to_serial() {
    let (serial, _) = run_heat3d(SerialScheduler, 100);
    let (parallel, _) = run_heat3d(RayonScheduler, 100);
    assert_eq!(serial, parallel, "scheduling must not change results");
}
