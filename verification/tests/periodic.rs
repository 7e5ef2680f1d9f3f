//! Periodic topology and the declarative initial-condition helper.

use legendre::discretization::finite_difference::FiniteDifference;
use legendre::discretization::operators::{Discretizes, Laplacian};
use legendre::discretization::stencil::Stencil;
use legendre::engine::driver::{Driver, NoNoise};
use legendre::engine::scheduler::{RayonScheduler, Scheduler, SerialScheduler};
use legendre::engine::scratch::{Scratch, ScratchSpec};
use legendre::engine::simulation::Simulation;
use legendre::engine::state::{BlockStateMut, FieldHandle, State, StateBuilder};
use legendre::engine::storage::{DenseStorage, Real, Scalar, StorageBackend, SystemAllocator};
use legendre::geometry::cartesian::CartesianGrid;
use legendre::geometry::grid::{BlockId, Grid};
use legendre::geometry::halo::fill_ghosts_mirror;
use legendre::geometry::sweep::fill_from_fn;
use legendre::geometry::view::for_each_interior;
use legendre::integrators::euler::ForwardEuler;
use legendre::physics::model::{Model, RhsContext};

#[derive(Debug, Clone, Copy, PartialEq, PartialOrd)]
struct F(f64);

impl Scalar for F {
    fn zero() -> Self {
        F(0.0)
    }
}

impl Real for F {
    fn add(self, other: Self) -> Self {
        F(self.0 + other.0)
    }
    fn sub(self, other: Self) -> Self {
        F(self.0 - other.0)
    }
    fn mul(self, other: Self) -> Self {
        F(self.0 * other.0)
    }
    fn div(self, other: Self) -> Self {
        F(self.0 / other.0)
    }
    fn lt(self, other: Self) -> bool {
        self.0 < other.0
    }
    fn le(self, other: Self) -> bool {
        self.0 <= other.0
    }
    fn neg(self) -> Self {
        F(-self.0)
    }
    fn sqrt(self) -> Self {
        F(self.0.sqrt())
    }
    fn abs(self) -> Self {
        F(self.0.abs())
    }
    fn ln(self) -> Self {
        F(self.0.ln())
    }
    fn cos(self) -> Self {
        F(self.0.cos())
    }
    fn exp_m1(self) -> Self {
        F(self.0.exp_m1())
    }
    fn max(self, other: Self) -> Self {
        F(self.0.max(other.0))
    }
    fn min(self, other: Self) -> Self {
        F(self.0.min(other.0))
    }
    fn powi(self, n: i32) -> Self {
        F(self.0.powi(n))
    }
    fn equals(self, other: Self) -> bool {
        self.0 == other.0
    }
    fn one() -> Self {
        F(1.0)
    }
    fn tau() -> Self {
        F(std::f64::consts::TAU)
    }
    fn mul_add(self, a: Self, b: Self) -> Self {
        F(self.0.mul_add(a.0, b.0))
    }
    fn is_finite(self) -> bool {
        self.0.is_finite()
    }
    fn half() -> Self {
        F(0.5)
    }
    fn round(self) -> Self {
        F(self.0.round())
    }
    fn exp(self) -> Self {
        F(self.0.exp())
    }
    fn sin(self) -> Self {
        F(self.0.sin())
    }
    fn tanh(self) -> Self {
        F(self.0.tanh())
    }
    fn hypot(self, other: Self) -> Self {
        F(self.0.hypot(other.0))
    }
    fn total_lt(self, other: Self) -> bool {
        self.0.total_cmp(&other.0).is_lt()
    }
    fn to_bits(self) -> u64 {
        self.0.to_bits()
    }
    fn to_u64(self) -> u64 {
        self.0 as u64
    }
    fn to_i64(self) -> i64 {
        self.0 as i64
    }
    fn infinity() -> Self {
        F(f64::INFINITY)
    }
    fn largest() -> Self {
        F(f64::MAX)
    }
    fn from_i64(x: i64) -> Self {
        F(x as f64)
    }
    fn from_u64(x: u64) -> Self {
        F(x as f64)
    }
}

type DenseState = State<F, DenseStorage<F>>;

fn cells<const D: usize>(interior: [usize; D]) -> Vec<[isize; D]> {
    let mut out = Vec::new();
    for_each_interior(interior, &mut out);
    out
}

fn close(a: f64, b: f64) -> bool {
    (a - b).abs() <= 1e-12 || (a - b).abs() <= 1e-10 * a.abs().max(b.abs())
}

#[test]
fn face_neighbor_wraps_only_periodic_dimensions() {
    let grid = CartesianGrid::new([4, 4], [2, 2], [F(0.0); 2], [F(1.0); 2])
        .unwrap()
        .with_periodic([true, false]);
    assert_eq!(grid.face_neighbor(BlockId(0), 0, 1), Some(BlockId(1)));
    assert_eq!(grid.face_neighbor(BlockId(0), 0, -1), Some(BlockId(1)));
    assert_eq!(grid.face_neighbor(BlockId(1), 0, 1), Some(BlockId(0)));
    assert_eq!(grid.face_neighbor(BlockId(0), 1, -1), None);
    assert_eq!(grid.face_neighbor(BlockId(2), 1, 1), None);
}

#[test]
fn single_block_periodic_dimension_wraps_onto_itself() {
    let grid =
        CartesianGrid::new([4], [4], [F(0.0)], [F(1.0)]).unwrap().with_periodic([true]);
    assert_eq!(grid.face_neighbor(BlockId(0), 0, 1), Some(BlockId(0)));
    assert_eq!(grid.face_neighbor(BlockId(0), 0, -1), Some(BlockId(0)));
    let plain = CartesianGrid::new([4], [4], [F(0.0)], [F(1.0)]).unwrap();
    assert_eq!(plain.face_neighbor(BlockId(0), 0, 1), None);
}

#[test]
fn periodic_ghost_values_are_exact_across_blocks() {
    let grid =
        CartesianGrid::new([8], [4], [F(0.0)], [F(1.0)]).unwrap().with_periodic([true]);
    let mut builder = StateBuilder::<F>::new();
    let u = builder.register("u", 1);
    let mut state: DenseState = builder.build(&grid, &SystemAllocator);
    fill_from_fn(&grid, &mut state, u, |[x]: [F; 1]| F(x.0 - 0.5));
    fill_ghosts_mirror(&grid, &mut state, u);

    let v0 = state.view(&grid, BlockId(0), u);
    let v1 = state.view(&grid, BlockId(1), u);
    assert_eq!(v0.get([4]), F(4.0));
    assert_eq!(v1.get([-1]), F(3.0));
    assert_eq!(v0.get([-1]), F(7.0), "low ghost wraps to last cell");
    assert_eq!(v1.get([4]), F(0.0), "high ghost wraps to first cell");
}

#[test]
fn single_block_self_wrap_fills_every_layer() {
    let grid =
        CartesianGrid::new([4], [4], [F(0.0)], [F(1.0)]).unwrap().with_periodic([true]);
    let mut builder = StateBuilder::<F>::new();
    let u = builder.register("u", 2);
    let mut state: DenseState = builder.build(&grid, &SystemAllocator);
    fill_from_fn(&grid, &mut state, u, |[x]: [F; 1]| F(x.0 - 0.5));
    fill_ghosts_mirror(&grid, &mut state, u);

    let v = state.view(&grid, BlockId(0), u);
    assert_eq!(v.get([-1]), F(3.0));
    assert_eq!(v.get([-2]), F(2.0));
    assert_eq!(v.get([4]), F(0.0));
    assert_eq!(v.get([5]), F(1.0));
}

#[test]
fn mixed_periodic_and_mirror_dimensions() {
    let grid = CartesianGrid::new([4, 4], [4, 4], [F(0.0); 2], [F(1.0); 2])
        .unwrap()
        .with_periodic([true, false]);
    let mut builder = StateBuilder::<F>::new();
    let u = builder.register("u", 1);
    let mut state: DenseState = builder.build(&grid, &SystemAllocator);
    fill_from_fn(&grid, &mut state, u, |[x, y]: [F; 2]| {
        F(10.0f64.mul_add(y.0 - 0.5, x.0 - 0.5))
    });
    fill_ghosts_mirror(&grid, &mut state, u);

    let v = state.view(&grid, BlockId(0), u);
    assert_eq!(v.get([-1, 0]), F(3.0));
    assert_eq!(v.get([4, 2]), F(20.0));
    assert_eq!(v.get([1, -1]), F(1.0));
    assert_eq!(v.get([2, 4]), F(32.0));
    assert_eq!(v.get([-1, -1]), F(3.0));
    assert_eq!(v.get([4, 4]), F(30.0));
}

#[test]
fn fill_from_fn_writes_every_interior_cell_center() {
    let grid =
        CartesianGrid::new([4, 4], [2, 2], [F(1.0), F(-1.0)], [F(0.5), F(0.25)]).unwrap();
    let mut builder = StateBuilder::<F>::new();
    let u = builder.register("u", 1);
    let mut state: DenseState = builder.build(&grid, &SystemAllocator);
    fill_from_fn(&grid, &mut state, u, |[x, y]: [F; 2]| F(100.0f64.mul_add(x.0, y.0)));

    for b in 0..grid.num_blocks() {
        let block = BlockId(b as u32);
        let v = state.view(&grid, block, u);
        for idx in cells(grid.block_cells()) {
            let [x, y] = grid.cell_center(block, idx);
            assert_eq!(v.get(idx), F(100.0f64.mul_add(x.0, y.0)));
        }
    }
}

/// Heat equation, boundaries decided entirely by the grid's topology.
struct Heat {
    kappa: f64,
    u: Option<FieldHandle<F>>,
}

impl<P: Discretizes<F, CartesianGrid<F, 2>, Laplacian, 2>> Model<F, CartesianGrid<F, 2>, P, 2>
    for Heat
{
    type Drivers = NoNoise;

    fn register_fields(&mut self, builder: &mut StateBuilder<F>) {
        self.u = Some(builder.register("u", 1));
    }

    fn scratch_spec(&self, _grid: &CartesianGrid<F, 2>) -> ScratchSpec {
        ScratchSpec::none()
    }

    fn fill_ghosts<S: StorageBackend<F>>(
        &self,
        grid: &CartesianGrid<F, 2>,
        _disc: &P,
        state: &mut State<F, S>,
        _t: F,
    ) {
        fill_ghosts_mirror(grid, state, self.u.unwrap());
    }

    fn vector_field_block<S: StorageBackend<F>>(
        &self,
        _driver: Driver,
        ctx: &RhsContext<'_, F, CartesianGrid<F, 2>, P>,
        state: &State<F, S>,
        out: &mut BlockStateMut<'_, F, S>,
        _scratch: &mut Scratch<F, S>,
    ) {
        let u = self.u.unwrap();
        let stencil = ctx.disc.build(ctx.grid, Laplacian);
        let input = state.view(ctx.grid, ctx.block, u);
        let mut output = out.view_mut(ctx.grid, ctx.block, u);
        stencil.apply(ctx.grid, ctx.block, input, &mut output);
        for idx in cells(input.interior()) {
            let v = output.get(idx).0 * self.kappa;
            output.set(idx, F(v));
        }
    }

    fn project<S: StorageBackend<F>>(
        &self,
        _grid: &CartesianGrid<F, 2>,
        _disc: &P,
        _state: &mut State<F, S>,
    ) {
    }

    fn stiff_rows(
        &self,
        _grid: &CartesianGrid<F, 2>,
        _disc: &P,
        _block: BlockId,
        _field: FieldHandle<F>,
        _rows: &mut [[F; 3]],
    ) -> bool {
        false
    }

    fn stable_dt_nonstiff(&self, _spacing: [F; 2]) -> Option<F> {
        None
    }

    fn stable_dt(&self, h: [F; 2]) -> Option<F> {
        Some(F(0.25 * h[0].0.min(h[1].0).powi(2) / self.kappa))
    }
}

/// Run the fully periodic mode `cos(2 pi x / L)`, an exact eigenvector of the
/// periodic five-point Laplacian.
fn run_periodic_mode(blocks_per_side: usize, steps: usize) -> (Vec<f64>, Vec<f64>) {
    const N: usize = 32;
    let h = 0.1;
    let kappa = 0.7;
    let grid = CartesianGrid::new([N, N], [N / blocks_per_side; 2], [F(0.0); 2], [F(h); 2])
        .unwrap()
        .with_periodic([true, true]);
    let kx = 2.0 * std::f64::consts::PI / (N as f64 * h);

    let model = Heat { kappa, u: None };
    let mut sim = Simulation::new(
        grid,
        FiniteDifference,
        model,
        ForwardEuler,
        SerialScheduler,
        SystemAllocator,
    );
    let dt = sim.stable_dt().unwrap().0;
    let u = sim.model().u.unwrap();
    {
        let (grid, state) = sim.state_mut();
        fill_from_fn(grid, state, u, |[x, _]: [F; 2]| F((kx * x.0).cos()));
    }
    for _ in 0..steps {
        sim.step(F(dt));
    }

    let lambda = 2.0f64.mul_add(-(kx * h).cos(), 2.0) / (h * h);
    let factor = (dt * kappa).mul_add(-lambda, 1.0).powi(steps as i32);
    let (mut got, mut expected) = (Vec::new(), Vec::new());
    for b in 0..sim.grid().num_blocks() {
        let block = BlockId(b as u32);
        let v = sim.state().view(sim.grid(), block, u);
        for idx in cells(sim.grid().block_cells()) {
            let [x, _] = sim.grid().cell_center(block, idx);
            got.push(v.get(idx).0);
            expected.push(factor * (kx * x.0).cos());
        }
    }
    (got, expected)
}

#[test]
fn periodic_eigenmode_decays_exactly_multi_block() {
    let (got, expected) = run_periodic_mode(2, 200);
    for (g, e) in got.iter().zip(&expected) {
        assert!(close(*g, *e), "{g} vs {e}");
    }
}

#[test]
fn periodic_eigenmode_decays_exactly_single_block() {
    let (got, expected) = run_periodic_mode(1, 200);
    for (g, e) in got.iter().zip(&expected) {
        assert!(close(*g, *e), "{g} vs {e}");
    }
}

fn run_periodic<Sch: Scheduler>(scheduler: Sch) -> Vec<F> {
    const N: usize = 32;
    let grid = CartesianGrid::new([N, N], [N / 2; 2], [F(0.0); 2], [F(0.1); 2])
        .unwrap()
        .with_periodic([true, true]);
    let kx = 2.0 * std::f64::consts::PI / (N as f64 * 0.1);
    let model = Heat { kappa: 0.7, u: None };
    let mut sim =
        Simulation::new(grid, FiniteDifference, model, ForwardEuler, scheduler, SystemAllocator);
    let dt = sim.stable_dt().unwrap();
    let u = sim.model().u.unwrap();
    {
        let (grid, state) = sim.state_mut();
        fill_from_fn(grid, state, u, |[x, y]: [F; 2]| {
            F((kx * x.0).cos() + (kx * y.0).sin())
        });
    }
    for _ in 0..100 {
        sim.step(dt);
    }
    let mut out = Vec::new();
    for b in 0..sim.grid().num_blocks() {
        let v = sim.state().view(sim.grid(), BlockId(b as u32), u);
        for idx in cells(sim.grid().block_cells()) {
            out.push(v.get(idx));
        }
    }
    out
}

#[test]
fn periodic_run_is_bitwise_identical_across_schedulers() {
    assert_eq!(
        run_periodic(SerialScheduler),
        run_periodic(RayonScheduler),
        "scheduling must not change periodic results"
    );
}
