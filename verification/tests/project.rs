//! The post-step pointwise-constraint hook: it runs after the advance and before
//! observers.

use std::sync::{Arc, Mutex};

use legendre::engine::driver::{Driver, NoNoise};
use legendre::engine::observer::Observer;
use legendre::engine::scheduler::SerialScheduler;
use legendre::engine::scratch::{Scratch, ScratchSpec};
use legendre::engine::simulation::Simulation;
use legendre::engine::state::{BlockStateMut, FieldHandle, State, StateBuilder};
use legendre::engine::storage::{DenseStorage, Real, Scalar, StorageBackend, SystemAllocator};
use legendre::geometry::cartesian::CartesianGrid;
use legendre::geometry::grid::{BlockId, Grid};
use legendre::geometry::view::for_each_interior;
use legendre::integrators::euler::ForwardEuler;
use legendre::physics::model::{Model, RhsContext};

#[derive(Debug, Clone, Copy, PartialEq, PartialOrd)]
struct F(f64);

impl Scalar for F {
    fn zero() -> Self {
        F(0.0)
    }
}

impl Real for F {
    fn add(self, other: Self) -> Self {
        F(self.0 + other.0)
    }
    fn sub(self, other: Self) -> Self {
        F(self.0 - other.0)
    }
    fn mul(self, other: Self) -> Self {
        F(self.0 * other.0)
    }
    fn div(self, other: Self) -> Self {
        F(self.0 / other.0)
    }
    fn lt(self, other: Self) -> bool {
        self.0 < other.0
    }
    fn le(self, other: Self) -> bool {
        self.0 <= other.0
    }
    fn neg(self) -> Self {
        F(-self.0)
    }
    fn sqrt(self) -> Self {
        F(self.0.sqrt())
    }
    fn abs(self) -> Self {
        F(self.0.abs())
    }
    fn ln(self) -> Self {
        F(self.0.ln())
    }
    fn cos(self) -> Self {
        F(self.0.cos())
    }
    fn exp_m1(self) -> Self {
        F(self.0.exp_m1())
    }
    fn max(self, other: Self) -> Self {
        F(self.0.max(other.0))
    }
    fn min(self, other: Self) -> Self {
        F(self.0.min(other.0))
    }
    fn powi(self, n: i32) -> Self {
        F(self.0.powi(n))
    }
    fn equals(self, other: Self) -> bool {
        self.0 == other.0
    }
    fn one() -> Self {
        F(1.0)
    }
    fn tau() -> Self {
        F(std::f64::consts::TAU)
    }
    fn mul_add(self, a: Self, b: Self) -> Self {
        F(self.0.mul_add(a.0, b.0))
    }
    fn is_finite(self) -> bool {
        self.0.is_finite()
    }
    fn half() -> Self {
        F(0.5)
    }
    fn round(self) -> Self {
        F(self.0.round())
    }
    fn exp(self) -> Self {
        F(self.0.exp())
    }
    fn sin(self) -> Self {
        F(self.0.sin())
    }
    fn tanh(self) -> Self {
        F(self.0.tanh())
    }
    fn hypot(self, other: Self) -> Self {
        F(self.0.hypot(other.0))
    }
    fn total_lt(self, other: Self) -> bool {
        self.0.total_cmp(&other.0).is_lt()
    }
    fn to_bits(self) -> u64 {
        self.0.to_bits()
    }
    fn to_u64(self) -> u64 {
        self.0 as u64
    }
    fn to_i64(self) -> i64 {
        self.0 as i64
    }
    fn infinity() -> Self {
        F(f64::INFINITY)
    }
    fn largest() -> Self {
        F(f64::MAX)
    }
    fn from_i64(x: i64) -> Self {
        F(x as f64)
    }
    fn from_u64(x: u64) -> Self {
        F(x as f64)
    }
}

fn cells<const D: usize>(interior: [usize; D]) -> Vec<[isize; D]> {
    let mut out = Vec::new();
    for_each_interior(interior, &mut out);
    out
}

/// `dv/dt = -rate`, with an optional projection that clamps `v` to a floor.
#[derive(Clone)]
struct ClampedDecay {
    rate: f64,
    floor: f64,
    clamp: bool,
    v: Option<FieldHandle<F>>,
}

impl Model<F, CartesianGrid<F, 1>, (), 1> for ClampedDecay {
    type Drivers = NoNoise;

    fn register_fields(&mut self, builder: &mut StateBuilder<F>) {
        self.v = Some(builder.register("v", 0));
    }

    fn vector_field_block<S: StorageBackend<F>>(
        &self,
        _driver: Driver,
        ctx: &RhsContext<'_, F, CartesianGrid<F, 1>, ()>,
        _state: &State<F, S>,
        out: &mut BlockStateMut<'_, F, S>,
        _scratch: &mut Scratch<F, S>,
    ) {
        let mut dv = out.view_mut(ctx.grid, ctx.block, self.v.unwrap());
        for idx in cells(ctx.grid.block_cells()) {
            dv.set(idx, F(-self.rate));
        }
    }

    fn project<S: StorageBackend<F>>(
        &self,
        grid: &CartesianGrid<F, 1>,
        _disc: &(),
        state: &mut State<F, S>,
    ) {
        if !self.clamp {
            return;
        }
        for b in 0..grid.num_blocks() {
            let block = BlockId(b as u32);
            let mut v = state.view_mut(grid, block, self.v.unwrap());
            for idx in cells(grid.block_cells()) {
                let x = v.get(idx).0.max(self.floor);
                v.set(idx, F(x));
            }
        }
    }

    fn scratch_spec(&self, _grid: &CartesianGrid<F, 1>) -> ScratchSpec {
        ScratchSpec::none()
    }

    fn fill_ghosts<S: StorageBackend<F>>(
        &self,
        _grid: &CartesianGrid<F, 1>,
        _disc: &(),
        _state: &mut State<F, S>,
        _t: F,
    ) {
    }

    fn stiff_rows(
        &self,
        _grid: &CartesianGrid<F, 1>,
        _disc: &(),
        _block: BlockId,
        _field: FieldHandle<F>,
        _rows: &mut [[F; 3]],
    ) -> bool {
        false
    }

    fn stable_dt_nonstiff(&self, _spacing: [F; 1]) -> Option<F> {
        None
    }

    fn stable_dt(&self, _spacing: [F; 1]) -> Option<F> {
        None
    }
}

/// Records the smallest field value it is ever shown.
struct MinObserver {
    v: FieldHandle<F>,
    min: Arc<Mutex<f64>>,
}

impl<S: StorageBackend<F>> Observer<CartesianGrid<F, 1>, F, S> for MinObserver {
    fn observe(
        &mut self,
        _step: u64,
        _t: F,
        _epoch: u64,
        grid: &CartesianGrid<F, 1>,
        state: &State<F, S>,
    ) {
        let mut m = self.min.lock().unwrap();
        for b in 0..grid.num_blocks() {
            let v = state.view(grid, BlockId(b as u32), self.v);
            for idx in cells(grid.block_cells()) {
                *m = m.min(v.get(idx).0);
            }
        }
    }
}

/// Run the decay model from `v = 0.05`; return the final values and the smallest
/// value any observer was shown.
fn run(clamp: bool, steps: usize) -> (Vec<f64>, f64) {
    let grid = CartesianGrid::new([8], [8], [F(0.0)], [F(1.0)]).unwrap();
    let model = ClampedDecay { rate: 1.0, floor: 0.0, clamp, v: None };
    let mut sim =
        Simulation::new(grid, (), model, ForwardEuler, SerialScheduler, SystemAllocator);

    let v = sim.model().v.unwrap();
    {
        let (g, state) = sim.state_mut();
        for b in 0..g.num_blocks() {
            let block = BlockId(b as u32);
            let mut view = state.view_mut(g, block, v);
            for idx in cells(g.block_cells()) {
                view.set(idx, F(0.05));
            }
        }
    }

    let observed_min = Arc::new(Mutex::new(f64::INFINITY));
    let obs = MinObserver { v, min: Arc::clone(&observed_min) };
    let obs: Box<dyn Observer<CartesianGrid<F, 1>, F, DenseStorage<F>>> = Box::new(obs);
    sim.attach_observer(obs);

    let dt = 0.1;
    for _ in 0..steps {
        sim.step(F(dt));
    }

    let mut final_vals = Vec::new();
    for b in 0..sim.grid().num_blocks() {
        let view = sim.state().view(sim.grid(), BlockId(b as u32), v);
        for idx in cells(sim.grid().block_cells()) {
            final_vals.push(view.get(idx).0);
        }
    }
    let m = *observed_min.lock().unwrap();
    (final_vals, m)
}

#[test]
fn project_clamps_the_state_and_observers_see_it() {
    let (final_vals, observed_min) = run(true, 3);
    for v in &final_vals {
        assert_eq!(*v, 0.0, "clamped field must rest exactly at the floor");
    }
    assert!(observed_min >= 0.0, "observers must see the clamped state; saw {observed_min}");
}

#[test]
fn without_project_the_constraint_is_violated() {
    let (final_vals, observed_min) = run(false, 3);
    assert!(
        final_vals.iter().all(|&v| v < 0.0),
        "unprojected decay must cross below the floor"
    );
    assert!(observed_min < 0.0, "observers should see the unclamped excursion");
}
