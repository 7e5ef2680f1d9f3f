//! The implicit-explicit Euler scheme on the market-making equation: the implicit
//! solve must break the explicit step wall while giving the same optimal policy,
//! and must degenerate to forward Euler on a model with no stiff part.

use legendre::engine::driver::{Driver, NoNoise};
use legendre::engine::scheduler::{RayonScheduler, Scheduler, SerialScheduler};
use legendre::engine::scratch::{Scratch, ScratchSpec};
use legendre::engine::simulation::Simulation;
use legendre::engine::state::{BlockStateMut, FieldHandle, State, StateBuilder};
use legendre::engine::storage::{DenseStorage, Real, Scalar, StorageBackend, SystemAllocator};
use legendre::geometry::cartesian::CartesianGrid;
use legendre::geometry::grid::{BlockId, Grid};
use legendre::geometry::view::for_each_interior;
use legendre::integrators::euler::ForwardEuler;
use legendre::integrators::imex::{solve_tridiagonal, ImexEuler};
use legendre::integrators::scheme::Integrator;
use legendre::physics::market_making::{HjbMarketMaker, MarketMakerParams};
use legendre::physics::model::{Model, RhsContext};

#[derive(Debug, Clone, Copy, PartialEq, PartialOrd)]
struct F(f64);

impl Scalar for F {
    fn zero() -> Self {
        F(0.0)
    }
}

impl Real for F {
    fn add(self, other: Self) -> Self {
        F(self.0 + other.0)
    }
    fn sub(self, other: Self) -> Self {
        F(self.0 - other.0)
    }
    fn mul(self, other: Self) -> Self {
        F(self.0 * other.0)
    }
    fn div(self, other: Self) -> Self {
        F(self.0 / other.0)
    }
    fn lt(self, other: Self) -> bool {
        self.0 < other.0
    }
    fn le(self, other: Self) -> bool {
        self.0 <= other.0
    }
    fn neg(self) -> Self {
        F(-self.0)
    }
    fn sqrt(self) -> Self {
        F(self.0.sqrt())
    }
    fn abs(self) -> Self {
        F(self.0.abs())
    }
    fn ln(self) -> Self {
        F(self.0.ln())
    }
    fn cos(self) -> Self {
        F(self.0.cos())
    }
    fn exp_m1(self) -> Self {
        F(self.0.exp_m1())
    }
    fn max(self, other: Self) -> Self {
        F(self.0.max(other.0))
    }
    fn min(self, other: Self) -> Self {
        F(self.0.min(other.0))
    }
    fn powi(self, n: i32) -> Self {
        F(self.0.powi(n))
    }
    fn equals(self, other: Self) -> bool {
        self.0 == other.0
    }
    fn one() -> Self {
        F(1.0)
    }
    fn tau() -> Self {
        F(std::f64::consts::TAU)
    }
    fn mul_add(self, a: Self, b: Self) -> Self {
        F(self.0.mul_add(a.0, b.0))
    }
    fn is_finite(self) -> bool {
        self.0.is_finite()
    }
    fn half() -> Self {
        F(0.5)
    }
    fn round(self) -> Self {
        F(self.0.round())
    }
    fn exp(self) -> Self {
        F(self.0.exp())
    }
    fn sin(self) -> Self {
        F(self.0.sin())
    }
    fn tanh(self) -> Self {
        F(self.0.tanh())
    }
    fn hypot(self, other: Self) -> Self {
        F(self.0.hypot(other.0))
    }
    fn total_lt(self, other: Self) -> bool {
        self.0.total_cmp(&other.0).is_lt()
    }
    fn to_bits(self) -> u64 {
        self.0.to_bits()
    }
    fn to_u64(self) -> u64 {
        self.0 as u64
    }
    fn to_i64(self) -> i64 {
        self.0 as i64
    }
    fn infinity() -> Self {
        F(f64::INFINITY)
    }
    fn largest() -> Self {
        F(f64::MAX)
    }
    fn from_i64(x: i64) -> Self {
        F(x as f64)
    }
    fn from_u64(x: u64) -> Self {
        F(x as f64)
    }
}

fn cells<const D: usize>(interior: [usize; D]) -> Vec<[isize; D]> {
    let mut out = Vec::new();
    for_each_interior(interior, &mut out);
    out
}

const NU_MIN: f64 = 0.001;
const NU_MAX: f64 = 2.0;

fn nu_grid(n: usize, block: usize) -> CartesianGrid<F, 1> {
    let dnu = (NU_MAX - NU_MIN) / n as f64;
    CartesianGrid::new([n], [block], [F(NU_MIN)], [F(dnu)]).unwrap()
}

/// The whole value surface as `surface[level][cell]`.
fn surface(
    grid: &CartesianGrid<F, 1>,
    state: &State<F, DenseStorage<F>>,
    handles: &[FieldHandle<F>],
) -> Vec<Vec<F>> {
    handles
        .iter()
        .map(|&h| {
            let mut col = Vec::new();
            for b in 0..grid.num_blocks() {
                let v = state.view(grid, BlockId(b as u32), h);
                for idx in cells(grid.block_cells()) {
                    col.push(v.get(idx));
                }
            }
            col
        })
        .collect()
}

fn solve_imex<Sch: Scheduler>(
    params: MarketMakerParams<F>,
    grid: CartesianGrid<F, 1>,
    scheduler: Sch,
    horizon: f64,
) -> (Vec<Vec<F>>, usize) {
    let mut sim = Simulation::new(
        grid,
        (),
        HjbMarketMaker::new(params),
        ImexEuler,
        scheduler,
        SystemAllocator,
    );
    let dt = sim.stable_dt().unwrap();
    let steps = (horizon / dt.0).ceil() as usize;
    for _ in 0..steps {
        sim.step(dt);
    }
    (surface(sim.grid(), sim.state(), sim.model().handles()), steps)
}

fn solve_explicit(
    params: MarketMakerParams<F>,
    grid: CartesianGrid<F, 1>,
    horizon: f64,
) -> (Vec<Vec<F>>, usize) {
    let mut sim = Simulation::new(
        grid,
        (),
        HjbMarketMaker::new(params),
        ForwardEuler,
        SerialScheduler,
        SystemAllocator,
    );
    let dt = sim.stable_dt().unwrap();
    let steps = (horizon / dt.0).ceil() as usize;
    for _ in 0..steps {
        sim.step(dt);
    }
    (surface(sim.grid(), sim.state(), sim.model().handles()), steps)
}

#[test]
fn imex_takes_far_fewer_steps_than_explicit() {
    let params = MarketMakerParams::<F>::default();
    let (_, imex_steps) = solve_imex(params, nu_grid(100, 25), SerialScheduler, 3.0);
    let (_, exp_steps) = solve_explicit(params, nu_grid(100, 25), 3.0);
    assert!(
        exp_steps >= 10 * imex_steps,
        "IMEX ({imex_steps} steps) should need 10x fewer than explicit ({exp_steps})"
    );
}

#[test]
fn imex_recovers_the_explicit_optimal_policy() {
    let params = MarketMakerParams::<F>::default();
    let grid = nu_grid(100, 25);
    let (u_imex, _) = solve_imex(params, grid.clone(), SerialScheduler, 3.0);
    let (u_exp, _) = solve_explicit(params, grid, 3.0);

    let model = HjbMarketMaker::new(params);
    let cell = u_imex[0].len() / 2;
    let nq = params.num_levels();
    for qi in 0..nq {
        let q = params.q_min + qi as isize;
        let up = |u: &[Vec<F>]| if q < params.q_max { Some(u[qi + 1][cell]) } else { None };
        let dn = |u: &[Vec<F>]| if q > params.q_min { Some(u[qi - 1][cell]) } else { None };
        let (bi, ai) = model.optimal_depths(q, u_imex[qi][cell], up(&u_imex), dn(&u_imex));
        let (be, ae) = model.optimal_depths(q, u_exp[qi][cell], up(&u_exp), dn(&u_exp));
        assert_eq!(bi.0.is_finite(), be.0.is_finite(), "bid withdrawal disagrees at q={q}");
        assert_eq!(ai.0.is_finite(), ae.0.is_finite(), "ask withdrawal disagrees at q={q}");
        if bi.0.is_finite() {
            assert!((bi.0 - be.0).abs() < 0.02, "bid depth q={q}: {bi:?} vs {be:?}");
        }
        if ai.0.is_finite() {
            assert!((ai.0 - ae.0).abs() < 0.02, "ask depth q={q}: {ai:?} vs {ae:?}");
        }
    }
}

#[test]
fn imex_stays_bounded_on_a_fine_grid() {
    let params = MarketMakerParams::<F>::default();
    let (u, steps) = solve_imex(params, nu_grid(400, 50), SerialScheduler, 3.0);
    assert!(steps < 100, "fine-grid IMEX should still take few steps, took {steps}");
    for col in &u {
        for v in col {
            assert!(v.0.is_finite() && v.0.abs() < 100.0, "surface value {v:?} out of range");
        }
    }
}

#[test]
fn imex_solve_is_bitwise_scheduler_independent() {
    let params = MarketMakerParams::<F>::default();
    let (s, _) = solve_imex(params, nu_grid(100, 20), SerialScheduler, 2.0);
    let (p, _) = solve_imex(params, nu_grid(100, 20), RayonScheduler, 2.0);
    assert_eq!(s, p, "IMEX must be schedule-independent");
}

/// A stiff-free 1-D decay model: `dv/dt = -rate v`.
#[derive(Clone)]
struct Decay {
    rate: f64,
    v: Option<FieldHandle<F>>,
}

impl Model<F, CartesianGrid<F, 1>, (), 1> for Decay {
    type Drivers = NoNoise;

    fn register_fields(&mut self, builder: &mut StateBuilder<F>) {
        self.v = Some(builder.register("v", 0));
    }

    fn vector_field_block<S: StorageBackend<F>>(
        &self,
        _driver: Driver,
        ctx: &RhsContext<'_, F, CartesianGrid<F, 1>, ()>,
        state: &State<F, S>,
        out: &mut BlockStateMut<'_, F, S>,
        _scratch: &mut Scratch<F, S>,
    ) {
        let v = state.view(ctx.grid, ctx.block, self.v.unwrap());
        let mut dv = out.view_mut(ctx.grid, ctx.block, self.v.unwrap());
        for idx in cells(ctx.grid.block_cells()) {
            dv.set(idx, F(-self.rate * v.get(idx).0));
        }
    }

    fn scratch_spec(&self, _grid: &CartesianGrid<F, 1>) -> ScratchSpec {
        ScratchSpec::none()
    }

    fn fill_ghosts<S: StorageBackend<F>>(
        &self,
        _grid: &CartesianGrid<F, 1>,
        _disc: &(),
        _state: &mut State<F, S>,
        _t: F,
    ) {
    }

    fn project<S: StorageBackend<F>>(&self, _grid: &CartesianGrid<F, 1>, _disc: &(), _state: &mut State<F, S>) {}

    fn stiff_rows(
        &self,
        _grid: &CartesianGrid<F, 1>,
        _disc: &(),
        _block: BlockId,
        _field: FieldHandle<F>,
        _rows: &mut [[F; 3]],
    ) -> bool {
        false
    }

    fn stable_dt_nonstiff(&self, _spacing: [F; 1]) -> Option<F> {
        None
    }

    fn stable_dt(&self, _spacing: [F; 1]) -> Option<F> {
        None
    }
}

fn decay<I: Integrator<F, CartesianGrid<F, 1>, (), Decay, 1>>(integrator: I) -> Vec<F> {
    let grid = CartesianGrid::new([16], [8], [F(0.0)], [F(1.0)]).unwrap();
    let mut sim = Simulation::new(
        grid,
        (),
        Decay { rate: 0.5, v: None },
        integrator,
        SerialScheduler,
        SystemAllocator,
    );
    let v = sim.model().v.unwrap();
    let (g, state) = sim.state_mut();
    for b in 0..g.num_blocks() {
        let mut view = state.view_mut(g, BlockId(b as u32), v);
        for idx in cells(g.block_cells()) {
            view.set(idx, F(1.0));
        }
    }
    for _ in 0..20 {
        sim.step(F(0.1));
    }
    let mut out = Vec::new();
    for b in 0..sim.grid().num_blocks() {
        let view = sim.state().view(sim.grid(), BlockId(b as u32), v);
        for idx in cells(sim.grid().block_cells()) {
            out.push(view.get(idx));
        }
    }
    out
}

#[test]
fn imex_degenerates_to_forward_euler_without_stiff_rows() {
    assert_eq!(
        decay(ImexEuler),
        decay(ForwardEuler),
        "IMEX with no stiff rows must equal forward Euler"
    );
}

#[test]
fn tridiagonal_solve_inverts_the_shifted_operator() {
    let rows = vec![
        [F(0.0), F(-2.0), F(2.0)],
        [F(1.0), F(-2.0), F(1.0)],
        [F(2.0), F(-2.0), F(0.0)],
    ];
    let dt = 0.5;
    let b = [3.0, -1.0, 4.0];
    let mut x = vec![F(b[0]), F(b[1]), F(b[2])];
    solve_tridiagonal(&rows, F(dt), &mut x);
    let applied = [
        2.0 * x[0].0 - x[1].0,
        -0.5 * x[0].0 + 2.0 * x[1].0 - 0.5 * x[2].0,
        -x[1].0 + 2.0 * x[2].0,
    ];
    for (a, want) in applied.iter().zip(&b) {
        assert!((a - want).abs() < 1e-14, "{a} vs {want}");
    }
}

#[test]
fn stiff_rows_of_the_market_maker_sum_to_zero() {
    let grid = nu_grid(8, 4);
    let mut model = HjbMarketMaker::new(MarketMakerParams::<F>::default());
    let mut builder = StateBuilder::<F>::new();
    <HjbMarketMaker<F> as Model<F, CartesianGrid<F, 1>, (), 1>>::register_fields(
        &mut model,
        &mut builder,
    );
    let h = model.handle(0);
    for b in 0..2 {
        let mut rows = [[F(9.0); 3]; 4];
        assert!(model.stiff_rows(&grid, &(), BlockId(b), h, &mut rows));
        for [lo, ctr, up] in &rows {
            assert!((lo.0 + ctr.0 + up.0).abs() < 1e-9 * ctr.0.abs().max(1.0));
        }
        if b == 0 {
            assert_eq!(rows[0][0], F(0.0));
        } else {
            assert_eq!(rows[3][2], F(0.0));
        }
    }
}
