//! Boundary conditions beyond no-flux: exact ghost values for Dirichlet and flux
//! fills, their coexistence with interior halo exchange, and a model configured with
//! mixed per-face conditions.

use legendre::discretization::finite_difference::FiniteDifference;
use legendre::discretization::operators::{Discretizes, Laplacian};
use legendre::discretization::stencil::Stencil;
use legendre::engine::driver::{Driver, NoNoise};
use legendre::engine::scheduler::{RayonScheduler, Scheduler, SerialScheduler};
use legendre::engine::scratch::{Scratch, ScratchSpec};
use legendre::engine::simulation::Simulation;
use legendre::engine::state::{BlockStateMut, FieldHandle, State, StateBuilder};
use legendre::engine::storage::{DenseStorage, Real, Scalar, StorageBackend, SystemAllocator};
use legendre::geometry::boundary::FaceBc;
use legendre::geometry::cartesian::CartesianGrid;
use legendre::geometry::grid::{BlockId, Grid};
use legendre::geometry::halo::{fill_ghosts_bc, fill_ghosts_extrapolate};
use legendre::geometry::sweep::fill_from_fn;
use legendre::geometry::view::for_each_interior;
use legendre::integrators::euler::ForwardEuler;
use legendre::physics::model::{Model, RhsContext};

#[derive(Debug, Clone, Copy, PartialEq, PartialOrd)]
struct F(f64);

impl Scalar for F {
    fn zero() -> Self {
        F(0.0)
    }
}

impl Real for F {
    fn add(self, other: Self) -> Self {
        F(self.0 + other.0)
    }
    fn sub(self, other: Self) -> Self {
        F(self.0 - other.0)
    }
    fn mul(self, other: Self) -> Self {
        F(self.0 * other.0)
    }
    fn div(self, other: Self) -> Self {
        F(self.0 / other.0)
    }
    fn lt(self, other: Self) -> bool {
        self.0 < other.0
    }
    fn le(self, other: Self) -> bool {
        self.0 <= other.0
    }
    fn neg(self) -> Self {
        F(-self.0)
    }
    fn sqrt(self) -> Self {
        F(self.0.sqrt())
    }
    fn abs(self) -> Self {
        F(self.0.abs())
    }
    fn ln(self) -> Self {
        F(self.0.ln())
    }
    fn cos(self) -> Self {
        F(self.0.cos())
    }
    fn exp_m1(self) -> Self {
        F(self.0.exp_m1())
    }
    fn max(self, other: Self) -> Self {
        F(self.0.max(other.0))
    }
    fn min(self, other: Self) -> Self {
        F(self.0.min(other.0))
    }
    fn powi(self, n: i32) -> Self {
        F(self.0.powi(n))
    }
    fn equals(self, other: Self) -> bool {
        self.0 == other.0
    }
    fn one() -> Self {
        F(1.0)
    }
    fn tau() -> Self {
        F(std::f64::consts::TAU)
    }
    fn mul_add(self, a: Self, b: Self) -> Self {
        F(self.0.mul_add(a.0, b.0))
    }
    fn is_finite(self) -> bool {
        self.0.is_finite()
    }
    fn half() -> Self {
        F(0.5)
    }
    fn round(self) -> Self {
        F(self.0.round())
    }
    fn exp(self) -> Self {
        F(self.0.exp())
    }
    fn sin(self) -> Self {
        F(self.0.sin())
    }
    fn tanh(self) -> Self {
        F(self.0.tanh())
    }
    fn hypot(self, other: Self) -> Self {
        F(self.0.hypot(other.0))
    }
    fn total_lt(self, other: Self) -> bool {
        self.0.total_cmp(&other.0).is_lt()
    }
    fn to_bits(self) -> u64 {
        self.0.to_bits()
    }
    fn to_u64(self) -> u64 {
        self.0 as u64
    }
    fn to_i64(self) -> i64 {
        self.0 as i64
    }
    fn infinity() -> Self {
        F(f64::INFINITY)
    }
    fn largest() -> Self {
        F(f64::MAX)
    }
    fn from_i64(x: i64) -> Self {
        F(x as f64)
    }
    fn from_u64(x: u64) -> Self {
        F(x as f64)
    }
}

const H: f64 = 0.5;

fn cells<const D: usize>(interior: [usize; D]) -> Vec<[isize; D]> {
    let mut out = Vec::new();
    for_each_interior(interior, &mut out);
    out
}

/// A single-block grid and one field of the given ghost width, its interior set to
/// `f(x, y)`.
fn one_block_state(
    n: usize,
    ghost: u32,
    f: impl Fn([F; 2]) -> F,
) -> (CartesianGrid<F, 2>, State<F, DenseStorage<F>>, FieldHandle<F>) {
    let grid =
        CartesianGrid::single_block([n, n], [F(0.0), F(0.0)], [F(H), F(H)]).unwrap();
    let mut builder = StateBuilder::<F>::new();
    let u = builder.register("u", ghost);
    let mut state = builder.build(&grid, &SystemAllocator);
    fill_from_fn(&grid, &mut state, u, f);
    (grid, state, u)
}

#[test]
fn dirichlet_ghosts_exact_including_second_layer() {
    let value = 2.5;
    let (grid, mut state, u) =
        one_block_state(8, 2, |[x, y]| F(1.0 + 2.0 * x.0 - 0.5 * y.0));
    fill_ghosts_bc(&grid, &mut state, u, |_, _| FaceBc::Dirichlet(F(value)));

    let v = state.view(&grid, BlockId(0), u);
    for j in 0..8isize {
        assert_eq!(v.get([-1, j]).0, 2.0 * value - v.get([0, j]).0);
        assert_eq!(v.get([-2, j]).0, 2.0 * value - v.get([1, j]).0);
        assert_eq!(v.get([8, j]).0, 2.0 * value - v.get([7, j]).0);
        assert_eq!(v.get([9, j]).0, 2.0 * value - v.get([6, j]).0);
    }
}

#[test]
fn flux_ghosts_exact_including_second_layer() {
    let g = 1.5;
    let (grid, mut state, u) = one_block_state(8, 2, |[x, y]| F(0.3 * x.0 + 0.7 * y.0));
    fill_ghosts_bc(&grid, &mut state, u, |_, _| FaceBc::Flux(F(g)));

    let v = state.view(&grid, BlockId(0), u);
    for j in 0..8isize {
        assert_eq!(v.get([-1, j]).0, v.get([0, j]).0 + 1.0 * H * g);
        assert_eq!(v.get([-2, j]).0, v.get([1, j]).0 + 3.0 * H * g);
        assert!(((v.get([-1, j]).0 - v.get([0, j]).0) / H - g).abs() <= 1e-12);
    }
    let (grid2, mut s2, u2) = one_block_state(8, 1, |[x, _]| F(x.0 * x.0));
    fill_ghosts_bc(&grid2, &mut s2, u2, |_, _| FaceBc::Flux(F(0.0)));
    let v2 = s2.view(&grid2, BlockId(0), u2);
    assert_eq!(v2.get([-1, 3]), v2.get([0, 3]));
}

#[test]
fn mixed_bc_and_halo_exchange_coexist() {
    let value = -1.0;
    let grid = CartesianGrid::new([8, 8], [4, 4], [F(0.0), F(0.0)], [F(H), F(H)]).unwrap();
    let mut builder = StateBuilder::<F>::new();
    let u = builder.register("u", 1);
    let mut state = builder.build(&grid, &SystemAllocator);
    fill_from_fn(&grid, &mut state, u, |[x, y]: [F; 2]| F(1.0 + x.0 + 2.0 * y.0));
    fill_ghosts_bc(&grid, &mut state, u, |_, _| FaceBc::Dirichlet(F(value)));

    let b0 = state.view(&grid, BlockId(0), u);
    let b1 = state.view(&grid, BlockId(1), u);
    for j in 0..4isize {
        assert_eq!(b0.get([-1, j]).0, 2.0 * value - b0.get([0, j]).0);
        assert_eq!(b0.get([4, j]), b1.get([0, j]));
    }
}

#[test]
fn extrapolated_ghosts_continue_linear_fields() {
    let (grid, mut state, u) = one_block_state(4, 2, |[x, _]| F(3.0 * x.0 - 1.0));
    fill_ghosts_extrapolate(&grid, &mut state, u);
    let v = state.view(&grid, BlockId(0), u);
    for j in 0..4isize {
        assert_eq!(v.get([-1, j]), F(3.0 * -0.25 - 1.0));
        assert_eq!(v.get([-2, j]), F(3.0 * -0.75 - 1.0));
        assert_eq!(v.get([4, j]), F(3.0 * 2.25 - 1.0));
    }
}

/// Heat with Dirichlet ends in x and no-flux walls in y.
struct HeatBc {
    kappa: f64,
    lo: f64,
    hi: f64,
    u: Option<FieldHandle<F>>,
}

impl<P: Discretizes<F, CartesianGrid<F, 2>, Laplacian, 2>> Model<F, CartesianGrid<F, 2>, P, 2>
    for HeatBc
{
    type Drivers = NoNoise;

    fn register_fields(&mut self, builder: &mut StateBuilder<F>) {
        self.u = Some(builder.register("u", 1));
    }

    fn scratch_spec(&self, _grid: &CartesianGrid<F, 2>) -> ScratchSpec {
        ScratchSpec::none()
    }

    fn fill_ghosts<S: StorageBackend<F>>(
        &self,
        grid: &CartesianGrid<F, 2>,
        _disc: &P,
        state: &mut State<F, S>,
        _t: F,
    ) {
        let (lo, hi) = (F(self.lo), F(self.hi));
        fill_ghosts_bc(grid, state, self.u.unwrap(), |dim, side| match (dim, side) {
            (0, -1) => FaceBc::Dirichlet(lo),
            (0, 1) => FaceBc::Dirichlet(hi),
            _ => FaceBc::Mirror,
        });
    }

    fn vector_field_block<S: StorageBackend<F>>(
        &self,
        _driver: Driver,
        ctx: &RhsContext<'_, F, CartesianGrid<F, 2>, P>,
        state: &State<F, S>,
        out: &mut BlockStateMut<'_, F, S>,
        _scratch: &mut Scratch<F, S>,
    ) {
        let u = self.u.unwrap();
        let stencil = ctx.disc.build(ctx.grid, Laplacian);
        let input = state.view(ctx.grid, ctx.block, u);
        let mut output = out.view_mut(ctx.grid, ctx.block, u);
        stencil.apply(ctx.grid, ctx.block, input, &mut output);
        for idx in cells(input.interior()) {
            let v = output.get(idx).0 * self.kappa;
            output.set(idx, F(v));
        }
    }

    fn project<S: StorageBackend<F>>(&self, _grid: &CartesianGrid<F, 2>, _disc: &P, _state: &mut State<F, S>) {}

    fn stiff_rows(
        &self,
        _grid: &CartesianGrid<F, 2>,
        _disc: &P,
        _block: BlockId,
        _field: FieldHandle<F>,
        _rows: &mut [[F; 3]],
    ) -> bool {
        false
    }

    fn stable_dt_nonstiff(&self, _spacing: [F; 2]) -> Option<F> {
        None
    }

    fn stable_dt(&self, h: [F; 2]) -> Option<F> {
        Some(F(0.25 * h[0].0.min(h[1].0).powi(2) / self.kappa))
    }
}

/// The exact linear profile between the two Dirichlet walls is a discrete fixed
/// point: run and report what it became and what it should be.
fn run_fixed_point<Sch: Scheduler>(scheduler: Sch) -> (Vec<f64>, Vec<f64>) {
    const N: usize = 16;
    let (a, b) = (0.3, 1.7);
    let kappa = 0.7;
    let l = N as f64 * H;
    let grid =
        CartesianGrid::new([N, N], [N / 2, N / 2], [F(0.0), F(0.0)], [F(H), F(H)]).unwrap();

    let mut sim = Simulation::new(
        grid,
        FiniteDifference,
        HeatBc { kappa, lo: a, hi: b, u: None },
        ForwardEuler,
        scheduler,
        SystemAllocator,
    );
    let dt = sim.stable_dt().unwrap();
    let u = sim.model().u.unwrap();

    let profile = |x: f64| (b - a).mul_add(x / l, a);
    {
        let (grid, state) = sim.state_mut();
        for blk in 0..grid.num_blocks() {
            let block = BlockId(blk as u32);
            let mut v = state.view_mut(grid, block, u);
            for idx in cells(grid.block_cells()) {
                v.set(idx, F(profile(grid.cell_center(block, idx)[0].0)));
            }
        }
    }

    for _ in 0..200 {
        sim.step(dt);
    }

    let mut got = Vec::new();
    let mut expected = Vec::new();
    for blk in 0..sim.grid().num_blocks() {
        let block = BlockId(blk as u32);
        let v = sim.state().view(sim.grid(), block, u);
        for idx in cells(sim.grid().block_cells()) {
            got.push(v.get(idx).0);
            expected.push(profile(sim.grid().cell_center(block, idx)[0].0));
        }
    }
    (got, expected)
}

#[test]
fn linear_profile_is_a_fixed_point_under_dirichlet() {
    let (got, expected) = run_fixed_point(SerialScheduler);
    for (g, e) in got.iter().zip(&expected) {
        let d = (g - e).abs();
        assert!(d <= 1e-12 || d <= 1e-11 * g.abs().max(e.abs()), "{g} vs {e}");
    }
}

#[test]
fn dirichlet_model_is_bitwise_scheduler_independent() {
    let (serial, _) = run_fixed_point(SerialScheduler);
    let (parallel, _) = run_fixed_point(RayonScheduler);
    assert_eq!(serial, parallel, "the fill must not depend on scheduling");
}
