//! Convergence-order verification on a nonlinear scalar equation, `du/dt = -u^3`.

use legendre::engine::driver::{Driver, NoNoise};
use legendre::engine::scheduler::SerialScheduler;
use legendre::engine::scratch::{Scratch, ScratchSpec};
use legendre::engine::simulation::Simulation;
use legendre::engine::state::{BlockStateMut, FieldHandle, State, StateBuilder};
use legendre::engine::storage::{Real, Scalar, StorageBackend, SystemAllocator};
use legendre::geometry::cartesian::CartesianGrid;
use legendre::geometry::grid::BlockId;
use legendre::integrators::euler::ForwardEuler;
use legendre::integrators::euler_maruyama::EulerMaruyama;
use legendre::integrators::rk4::RungeKutta4;
use legendre::integrators::scheme::Integrator;
use legendre::physics::model::{Model, RhsContext};

#[derive(Debug, Clone, Copy, PartialEq, PartialOrd)]
struct F(f64);

impl Scalar for F {
    fn zero() -> Self {
        F(0.0)
    }
}

impl Real for F {
    fn add(self, other: Self) -> Self {
        F(self.0 + other.0)
    }
    fn sub(self, other: Self) -> Self {
        F(self.0 - other.0)
    }
    fn mul(self, other: Self) -> Self {
        F(self.0 * other.0)
    }
    fn div(self, other: Self) -> Self {
        F(self.0 / other.0)
    }
    fn lt(self, other: Self) -> bool {
        self.0 < other.0
    }
    fn le(self, other: Self) -> bool {
        self.0 <= other.0
    }
    fn neg(self) -> Self {
        F(-self.0)
    }
    fn sqrt(self) -> Self {
        F(self.0.sqrt())
    }
    fn abs(self) -> Self {
        F(self.0.abs())
    }
    fn ln(self) -> Self {
        F(self.0.ln())
    }
    fn cos(self) -> Self {
        F(self.0.cos())
    }
    fn exp_m1(self) -> Self {
        F(self.0.exp_m1())
    }
    fn max(self, other: Self) -> Self {
        F(self.0.max(other.0))
    }
    fn min(self, other: Self) -> Self {
        F(self.0.min(other.0))
    }
    fn powi(self, n: i32) -> Self {
        F(self.0.powi(n))
    }
    fn equals(self, other: Self) -> bool {
        self.0 == other.0
    }
    fn one() -> Self {
        F(1.0)
    }
    fn tau() -> Self {
        F(std::f64::consts::TAU)
    }
    fn mul_add(self, a: Self, b: Self) -> Self {
        F(self.0.mul_add(a.0, b.0))
    }
    fn is_finite(self) -> bool {
        self.0.is_finite()
    }
    fn half() -> Self {
        F(0.5)
    }
    fn round(self) -> Self {
        F(self.0.round())
    }
    fn exp(self) -> Self {
        F(self.0.exp())
    }
    fn sin(self) -> Self {
        F(self.0.sin())
    }
    fn tanh(self) -> Self {
        F(self.0.tanh())
    }
    fn hypot(self, other: Self) -> Self {
        F(self.0.hypot(other.0))
    }
    fn total_lt(self, other: Self) -> bool {
        self.0.total_cmp(&other.0).is_lt()
    }
    fn to_bits(self) -> u64 {
        self.0.to_bits()
    }
    fn to_u64(self) -> u64 {
        self.0 as u64
    }
    fn to_i64(self) -> i64 {
        self.0 as i64
    }
    fn infinity() -> Self {
        F(f64::INFINITY)
    }
    fn largest() -> Self {
        F(f64::MAX)
    }
    fn from_i64(x: i64) -> Self {
        F(x as f64)
    }
    fn from_u64(x: u64) -> Self {
        F(x as f64)
    }
}

struct Cubic {
    u: Option<FieldHandle<F>>,
}

impl Model<F, CartesianGrid<F, 1>, (), 1> for Cubic {
    type Drivers = NoNoise;

    fn register_fields(&mut self, builder: &mut StateBuilder<F>) {
        self.u = Some(builder.register("u", 0));
    }

    fn vector_field_block<S: StorageBackend<F>>(
        &self,
        _driver: Driver,
        ctx: &RhsContext<'_, F, CartesianGrid<F, 1>, ()>,
        state: &State<F, S>,
        out: &mut BlockStateMut<'_, F, S>,
        _scratch: &mut Scratch<F, S>,
    ) {
        let u = self.u.unwrap();
        let v = state.view(ctx.grid, ctx.block, u);
        let mut dv = out.view_mut(ctx.grid, ctx.block, u);
        dv.set([0], F(-v.get([0]).0.powi(3)));
    }

    fn scratch_spec(&self, _grid: &CartesianGrid<F, 1>) -> ScratchSpec {
        ScratchSpec::none()
    }

    fn fill_ghosts<S: StorageBackend<F>>(
        &self,
        _grid: &CartesianGrid<F, 1>,
        _disc: &(),
        _state: &mut State<F, S>,
        _t: F,
    ) {
    }

    fn project<S: StorageBackend<F>>(&self, _grid: &CartesianGrid<F, 1>, _disc: &(), _state: &mut State<F, S>) {}

    fn stiff_rows(
        &self,
        _grid: &CartesianGrid<F, 1>,
        _disc: &(),
        _block: BlockId,
        _field: FieldHandle<F>,
        _rows: &mut [[F; 3]],
    ) -> bool {
        false
    }

    fn stable_dt_nonstiff(&self, _spacing: [F; 1]) -> Option<F> {
        None
    }

    fn stable_dt(&self, _spacing: [F; 1]) -> Option<F> {
        None
    }
}

fn run<I: Integrator<F, CartesianGrid<F, 1>, (), Cubic, 1>>(
    integrator: I,
    dt: f64,
    t_end: f64,
) -> f64 {
    let grid = CartesianGrid::new([1], [1], [F(0.0)], [F(1.0)]).unwrap();
    let mut sim = Simulation::new(
        grid,
        (),
        Cubic { u: None },
        integrator,
        SerialScheduler,
        SystemAllocator,
    );
    let u = sim.model().u.unwrap();
    {
        let (grid, state) = sim.state_mut();
        let mut v = state.view_mut(grid, BlockId(0), u);
        v.set([0], F(1.0));
    }
    let steps = (t_end / dt).round() as u64;
    for _ in 0..steps {
        sim.step(F(dt));
    }
    sim.state().view(sim.grid(), BlockId(0), u).get([0]).0
}

fn error(integrator: impl Integrator<F, CartesianGrid<F, 1>, (), Cubic, 1>, dt: f64) -> f64 {
    const T_END: f64 = 0.5;
    let exact = 1.0 / 2.0f64.mul_add(T_END, 1.0).sqrt();
    (run(integrator, dt, T_END) - exact).abs()
}

/// Observed order from halving the step.
fn observed_order(
    integrator: impl Integrator<F, CartesianGrid<F, 1>, (), Cubic, 1> + Copy,
    dt: f64,
) -> f64 {
    (error(integrator, dt) / error(integrator, dt / 2.0)).log2()
}

#[test]
fn forward_euler_is_first_order() {
    let p = observed_order(ForwardEuler, 0.02);
    assert!((0.9..1.1).contains(&p), "expected order 1, got {p}");
}

#[test]
fn rk4_is_fourth_order() {
    let p = observed_order(RungeKutta4::default(), 0.02);
    assert!((3.7..4.3).contains(&p), "expected order 4, got {p}");
}

#[test]
fn euler_maruyama_without_noise_is_forward_euler() {
    let em = run(EulerMaruyama { seed: 9 }, 0.01, 0.5);
    let fe = run(ForwardEuler, 0.01, 0.5);
    assert_eq!(em, fe);
}
