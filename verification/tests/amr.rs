//! Adaptive mesh refinement: a patch is indistinguishable from a uniform-grid
//! block, intergrid operations are exact where they must be, and adaptive and
//! subcycled runs agree with their uniform twins.

use std::sync::atomic::{AtomicU64, Ordering};

use legendre::discretization::finite_difference::{CentralLaplacian, FiniteDifference};
use legendre::discretization::finite_volume::{FiniteVolume, KarmaRappelFlux};
use legendre::discretization::operators::{Discretizes, Laplacian};
use legendre::discretization::stencil::Stencil;
use legendre::engine::driver::{Driver, NoNoise};
use legendre::engine::scheduler::{RayonScheduler, Scheduler, SerialScheduler};
use legendre::engine::scratch::{Scratch, ScratchSpec};
use legendre::engine::simulation::Simulation;
use legendre::engine::state::{BlockStateMut, FieldHandle, State, StateBuilder};
use legendre::engine::storage::{DenseStorage, Real, Scalar, StorageBackend, SystemAllocator};
use legendre::geometry::amr::adapt::{BergerOliger, RegridPolicy};
use legendre::geometry::amr::cluster::{CellBox, ClusterParams};
use legendre::geometry::amr::grid::AmrGrid;
use legendre::geometry::amr::intergrid::fill_ghosts_mirror as amr_fill;
use legendre::geometry::amr::restriction::restrict;
use legendre::geometry::amr::tag::{GradientTagger, TagCells};
use legendre::geometry::cartesian::CartesianGrid;
use legendre::geometry::grid::{BlockId, Grid};
use legendre::geometry::halo::fill_ghosts_mirror;
use legendre::geometry::sweep::fill_from_fn;
use legendre::geometry::view::for_each_interior;
use legendre::integrators::euler::ForwardEuler;
use legendre::integrators::euler_maruyama::EulerMaruyama;
use legendre::integrators::subcycling::Subcycling;
use legendre::physics::model::{Model, RhsContext};
use legendre::physics::phasefield::ModelC;

#[derive(Debug, Clone, Copy, PartialEq, PartialOrd)]
struct F(f64);

impl Scalar for F {
    fn zero() -> Self {
        F(0.0)
    }
}

impl Real for F {
    fn add(self, other: Self) -> Self {
        F(self.0 + other.0)
    }
    fn sub(self, other: Self) -> Self {
        F(self.0 - other.0)
    }
    fn mul(self, other: Self) -> Self {
        F(self.0 * other.0)
    }
    fn div(self, other: Self) -> Self {
        F(self.0 / other.0)
    }
    fn lt(self, other: Self) -> bool {
        self.0 < other.0
    }
    fn le(self, other: Self) -> bool {
        self.0 <= other.0
    }
    fn neg(self) -> Self {
        F(-self.0)
    }
    fn sqrt(self) -> Self {
        F(self.0.sqrt())
    }
    fn abs(self) -> Self {
        F(self.0.abs())
    }
    fn ln(self) -> Self {
        F(self.0.ln())
    }
    fn cos(self) -> Self {
        F(self.0.cos())
    }
    fn exp_m1(self) -> Self {
        F(self.0.exp_m1())
    }
    fn max(self, other: Self) -> Self {
        F(self.0.max(other.0))
    }
    fn min(self, other: Self) -> Self {
        F(self.0.min(other.0))
    }
    fn powi(self, n: i32) -> Self {
        F(self.0.powi(n))
    }
    fn equals(self, other: Self) -> bool {
        self.0 == other.0
    }
    fn one() -> Self {
        F(1.0)
    }
    fn tau() -> Self {
        F(std::f64::consts::TAU)
    }
    fn mul_add(self, a: Self, b: Self) -> Self {
        F(self.0.mul_add(a.0, b.0))
    }
    fn is_finite(self) -> bool {
        self.0.is_finite()
    }
    fn half() -> Self {
        F(0.5)
    }
    fn round(self) -> Self {
        F(self.0.round())
    }
    fn exp(self) -> Self {
        F(self.0.exp())
    }
    fn sin(self) -> Self {
        F(self.0.sin())
    }
    fn tanh(self) -> Self {
        F(self.0.tanh())
    }
    fn hypot(self, other: Self) -> Self {
        F(self.0.hypot(other.0))
    }
    fn total_lt(self, other: Self) -> bool {
        self.0.total_cmp(&other.0).is_lt()
    }
    fn to_bits(self) -> u64 {
        self.0.to_bits()
    }
    fn to_u64(self) -> u64 {
        self.0 as u64
    }
    fn to_i64(self) -> i64 {
        self.0 as i64
    }
    fn infinity() -> Self {
        F(f64::INFINITY)
    }
    fn largest() -> Self {
        F(f64::MAX)
    }
    fn from_i64(x: i64) -> Self {
        F(x as f64)
    }
    fn from_u64(x: u64) -> Self {
        F(x as f64)
    }
}

fn cells<const D: usize>(interior: [usize; D]) -> Vec<[isize; D]> {
    let mut out = Vec::new();
    for_each_interior(interior, &mut out);
    out
}

fn close(a: f64, b: f64, epsilon: f64) -> bool {
    (a - b).abs() <= epsilon
}

type Dense = State<F, DenseStorage<F>>;

fn uniform(n: [usize; 2], block: [usize; 2], h: f64) -> CartesianGrid<F, 2> {
    CartesianGrid::new(n, block, [F(0.0), F(0.0)], [F(h), F(h)]).unwrap()
}

/// A state with one ghost-1 field, every slab entry (ghosts included) filled by a
/// deterministic function of its offset.
fn filled_state<G: Grid<F, 2>>(grid: G) -> (G, Dense, FieldHandle<F>) {
    let mut builder = StateBuilder::<F>::new();
    let u = builder.register("u", 1);
    let mut state: Dense = builder.build(&grid, &SystemAllocator);
    for b in 0..grid.num_blocks() {
        for (i, v) in state.slab_mut(BlockId(b as u32), u).iter_mut().enumerate() {
            *v = F((((i * 37 + b * 101) % 89) as f64).mul_add(0.037, -1.2));
        }
    }
    (grid, state, u)
}

/// A 6x6 level-1 patch at spacing 0.25 (base 8x8 at 0.5, ratio 2).
fn one_patch_amr() -> AmrGrid<F, 2> {
    let base = uniform([8, 8], [8, 8], 0.5);
    AmrGrid::from_patches(base, &[2], &[vec![CellBox { lo: [4, 4], hi: [10, 10] }]]).unwrap()
}

/// The uniform twin of that patch: same extent, same spacing.
fn patch_twin() -> CartesianGrid<F, 2> {
    CartesianGrid::single_block([6, 6], [F(0.0), F(0.0)], [F(0.25), F(0.25)]).unwrap()
}

#[test]
fn laplacian_on_a_patch_is_bitwise_identical_to_uniform() {
    let (amr, mut amr_state, ua) = filled_state(one_patch_amr());
    let (uni, uni_state, uu) = filled_state(patch_twin());
    let patch = BlockId(1);

    assert_eq!(amr.block_len(patch, 1), uni.block_len(BlockId(0), 1));
    let twin: Vec<F> = uni_state.slab(BlockId(0), uu).to_vec();
    amr_state.slab_mut(patch, ua).copy_from_slice(&twin);

    let mut amr_out = amr_state.like(&amr, &SystemAllocator);
    let mut uni_out = uni_state.like(&uni, &SystemAllocator);
    CentralLaplacian.apply(
        &amr,
        patch,
        amr_state.view(&amr, patch, ua),
        &mut amr_out.view_mut(&amr, patch, ua),
    );
    CentralLaplacian.apply(
        &uni,
        BlockId(0),
        uni_state.view(&uni, BlockId(0), uu),
        &mut uni_out.view_mut(&uni, BlockId(0), uu),
    );
    assert_eq!(
        amr_out.slab(patch, ua),
        uni_out.slab(BlockId(0), uu),
        "patch Laplacian must equal the uniform twin bitwise"
    );
}

#[test]
fn karma_rappel_on_a_patch_is_bitwise_identical_to_uniform() {
    let (amr, mut amr_state, ua) = filled_state(one_patch_amr());
    let (uni, uni_state, uu) = filled_state(patch_twin());
    let patch = BlockId(1);
    let twin: Vec<F> = uni_state.slab(BlockId(0), uu).to_vec();
    amr_state.slab_mut(patch, ua).copy_from_slice(&twin);

    let flux = KarmaRappelFlux::new(F(0.06), F(1e-8));
    let mut amr_out = amr_state.like(&amr, &SystemAllocator);
    let mut uni_out = uni_state.like(&uni, &SystemAllocator);
    flux.apply(
        &amr,
        patch,
        amr_state.view(&amr, patch, ua),
        &mut amr_out.view_mut(&amr, patch, ua),
    );
    flux.apply(
        &uni,
        BlockId(0),
        uni_state.view(&uni, BlockId(0), uu),
        &mut uni_out.view_mut(&uni, BlockId(0), uu),
    );
    assert_eq!(amr_out.slab(patch, ua), uni_out.slab(BlockId(0), uu));
}

/// `du/dt = -u^3` on a single cell.
struct Cubic {
    u: Option<FieldHandle<F>>,
}

impl<G: Grid<F, 1>> Model<F, G, FiniteDifference, 1> for Cubic {
    type Drivers = NoNoise;

    fn register_fields(&mut self, builder: &mut StateBuilder<F>) {
        self.u = Some(builder.register("u", 0));
    }

    fn vector_field_block<S: StorageBackend<F>>(
        &self,
        _driver: Driver,
        ctx: &RhsContext<'_, F, G, FiniteDifference>,
        state: &State<F, S>,
        out: &mut BlockStateMut<'_, F, S>,
        _scratch: &mut Scratch<F, S>,
    ) {
        let u = self.u.unwrap();
        let v = state.view(ctx.grid, ctx.block, u);
        let mut dv = out.view_mut(ctx.grid, ctx.block, u);
        dv.set([0], F(-v.get([0]).0.powi(3)));
    }

    fn scratch_spec(&self, _grid: &G) -> ScratchSpec {
        ScratchSpec::none()
    }

    fn fill_ghosts<S: StorageBackend<F>>(
        &self,
        _grid: &G,
        _disc: &FiniteDifference,
        _state: &mut State<F, S>,
        _t: F,
    ) {
    }

    fn project<S: StorageBackend<F>>(&self, _grid: &G, _disc: &FiniteDifference, _state: &mut State<F, S>) {}

    fn stiff_rows(
        &self,
        _grid: &G,
        _disc: &FiniteDifference,
        _block: BlockId,
        _field: FieldHandle<F>,
        _rows: &mut [[F; 3]],
    ) -> bool {
        false
    }

    fn stable_dt_nonstiff(&self, _spacing: [F; 1]) -> Option<F> {
        None
    }

    fn stable_dt(&self, _spacing: [F; 1]) -> Option<F> {
        None
    }
}

fn run_cubic<G: Grid<F, 1>>(grid: G, u0: f64, steps: usize) -> F {
    let mut sim = Simulation::new(
        grid,
        FiniteDifference,
        Cubic { u: None },
        ForwardEuler,
        SerialScheduler,
        SystemAllocator,
    );
    let u = sim.model().u.unwrap();
    {
        let (_, state) = sim.state_mut();
        state.slab_mut(BlockId(0), u)[0] = F(u0);
    }
    for _ in 0..steps {
        sim.step(F(0.01));
    }
    sim.state().slab(BlockId(0), u)[0]
}

#[test]
fn simulation_on_amr_matches_cartesian_bitwise() {
    let cart = CartesianGrid::new([1], [1], [F(0.0)], [F(1.0)]).unwrap();
    let base = CartesianGrid::new([1], [1], [F(0.0)], [F(1.0)]).unwrap();
    let amr = AmrGrid::from_patches(base, &[], &[]).unwrap();
    assert_eq!(run_cubic(cart, 1.0, 100), run_cubic(amr, 1.0, 100));
}

/// Write `f(cell center)` into every interior cell of every patch.
fn fill_by_center(
    grid: &AmrGrid<F, 2>,
    state: &mut Dense,
    u: FieldHandle<F>,
    f: impl Fn([F; 2]) -> F,
) {
    for b in 0..grid.num_blocks() {
        let block = BlockId(b as u32);
        let ext = grid.patch(block).extent();
        let mut v = state.view_mut(grid, block, u);
        for idx in cells(ext) {
            v.set(idx, f(grid.cell_center(block, idx)));
        }
    }
}

fn linear([x, y]: [F; 2]) -> F {
    F(3.0f64.mul_add(x.0, 2.0) - y.0)
}

#[test]
fn linear_field_ghosts_and_restriction_are_exact() {
    let base = uniform([8, 8], [4, 4], 0.5);
    let grid = AmrGrid::from_patches(
        base,
        &[2],
        &[vec![
            CellBox { lo: [4, 4], hi: [8, 12] },
            CellBox { lo: [8, 4], hi: [12, 12] },
        ]],
    )
    .unwrap();
    let mut builder = StateBuilder::<F>::new();
    let u = builder.register("u", 1);
    let mut state: Dense = builder.build(&grid, &SystemAllocator);
    fill_by_center(&grid, &mut state, u, linear);

    {
        let mut v = state.view_mut(&grid, BlockId(0), u);
        for idx in cells([4, 4]) {
            if idx[0] >= 2 && idx[1] >= 2 {
                v.set(idx, F(99.0));
            }
        }
    }
    restrict(&grid, &mut state, u);
    amr_fill(&grid, &mut state, u);

    for fb in grid.blocks_at(1) {
        let ext = grid.patch(fb).extent();
        let v = state.view(&grid, fb, u);
        for i in -1..=(ext[0] as isize) {
            for j in -1..=(ext[1] as isize) {
                let interior = i >= 0 && j >= 0 && i < ext[0] as isize && j < ext[1] as isize;
                if interior {
                    continue;
                }
                let c = grid.cell_center(fb, [i, j]);
                assert!(close(v.get([i, j]).0, linear(c).0, 1e-12));
            }
        }
    }
    let v = state.view(&grid, BlockId(0), u);
    for idx in cells([4, 4]) {
        let c = grid.cell_center(BlockId(0), idx);
        assert!(close(v.get(idx).0, linear(c).0, 1e-12));
    }
}

/// The heat equation on a hierarchy.
struct Heat {
    kappa: f64,
    u: Option<FieldHandle<F>>,
}

impl<P: Discretizes<F, AmrGrid<F, 2>, Laplacian, 2>> Model<F, AmrGrid<F, 2>, P, 2> for Heat {
    type Drivers = NoNoise;

    fn register_fields(&mut self, builder: &mut StateBuilder<F>) {
        self.u = Some(builder.register("u", 1));
    }

    fn fill_ghosts<S: StorageBackend<F>>(
        &self,
        grid: &AmrGrid<F, 2>,
        _disc: &P,
        state: &mut State<F, S>,
        _t: F,
    ) {
        restrict(grid, state, self.u.unwrap());
        amr_fill(grid, state, self.u.unwrap());
    }

    fn vector_field_block<S: StorageBackend<F>>(
        &self,
        _driver: Driver,
        ctx: &RhsContext<'_, F, AmrGrid<F, 2>, P>,
        state: &State<F, S>,
        out: &mut BlockStateMut<'_, F, S>,
        _scratch: &mut Scratch<F, S>,
    ) {
        let u = self.u.unwrap();
        let stencil = ctx.disc.build(ctx.grid, Laplacian);
        let input = state.view(ctx.grid, ctx.block, u);
        let mut output = out.view_mut(ctx.grid, ctx.block, u);
        stencil.apply(ctx.grid, ctx.block, input, &mut output);
        for idx in cells(ctx.grid.patch(ctx.block).extent()) {
            let v = output.get(idx).0 * self.kappa;
            output.set(idx, F(v));
        }
    }

    fn scratch_spec(&self, _grid: &AmrGrid<F, 2>) -> ScratchSpec {
        ScratchSpec::none()
    }

    fn project<S: StorageBackend<F>>(&self, _grid: &AmrGrid<F, 2>, _disc: &P, _state: &mut State<F, S>) {}

    fn stiff_rows(
        &self,
        _grid: &AmrGrid<F, 2>,
        _disc: &P,
        _block: BlockId,
        _field: FieldHandle<F>,
        _rows: &mut [[F; 3]],
    ) -> bool {
        false
    }

    fn stable_dt_nonstiff(&self, _spacing: [F; 2]) -> Option<F> {
        None
    }

    fn stable_dt(&self, h: [F; 2]) -> Option<F> {
        Some(F(0.25 * h[0].0.min(h[1].0).powi(2) / self.kappa))
    }
}

/// The heat equation on a uniform grid.
struct UniformHeat {
    kappa: f64,
    u: Option<FieldHandle<F>>,
}

impl<P: Discretizes<F, CartesianGrid<F, 2>, Laplacian, 2>> Model<F, CartesianGrid<F, 2>, P, 2>
    for UniformHeat
{
    type Drivers = NoNoise;

    fn register_fields(&mut self, builder: &mut StateBuilder<F>) {
        self.u = Some(builder.register("u", 1));
    }

    fn fill_ghosts<S: StorageBackend<F>>(
        &self,
        grid: &CartesianGrid<F, 2>,
        _disc: &P,
        state: &mut State<F, S>,
        _t: F,
    ) {
        fill_ghosts_mirror(grid, state, self.u.unwrap());
    }

    fn vector_field_block<S: StorageBackend<F>>(
        &self,
        _driver: Driver,
        ctx: &RhsContext<'_, F, CartesianGrid<F, 2>, P>,
        state: &State<F, S>,
        out: &mut BlockStateMut<'_, F, S>,
        _scratch: &mut Scratch<F, S>,
    ) {
        let u = self.u.unwrap();
        let stencil = ctx.disc.build(ctx.grid, Laplacian);
        let input = state.view(ctx.grid, ctx.block, u);
        let mut output = out.view_mut(ctx.grid, ctx.block, u);
        stencil.apply(ctx.grid, ctx.block, input, &mut output);
        for idx in cells(input.interior()) {
            let v = output.get(idx).0 * self.kappa;
            output.set(idx, F(v));
        }
    }

    fn scratch_spec(&self, _grid: &CartesianGrid<F, 2>) -> ScratchSpec {
        ScratchSpec::none()
    }

    fn project<S: StorageBackend<F>>(&self, _grid: &CartesianGrid<F, 2>, _disc: &P, _state: &mut State<F, S>) {}

    fn stiff_rows(
        &self,
        _grid: &CartesianGrid<F, 2>,
        _disc: &P,
        _block: BlockId,
        _field: FieldHandle<F>,
        _rows: &mut [[F; 3]],
    ) -> bool {
        false
    }

    fn stable_dt_nonstiff(&self, _spacing: [F; 2]) -> Option<F> {
        None
    }

    fn stable_dt(&self, _spacing: [F; 2]) -> Option<F> {
        None
    }
}

/// An 8x8 base at spacing 0.5, tiled whole by two 8x16 fine patches.
fn fully_tiled() -> AmrGrid<F, 2> {
    AmrGrid::from_patches(
        uniform([8, 8], [8, 8], 0.5),
        &[2],
        &[vec![
            CellBox { lo: [0, 0], hi: [8, 16] },
            CellBox { lo: [8, 0], hi: [16, 16] },
        ]],
    )
    .unwrap()
}

/// The fine level of a fully tiled hierarchy, by global cell.
fn fine_field(grid: &AmrGrid<F, 2>, state: &Dense, u: FieldHandle<F>) -> Vec<[f64; 16]> {
    let mut field = vec![[0.0f64; 16]; 16];
    for fb in grid.blocks_at(1) {
        let p = *grid.patch(fb);
        let v = state.view(grid, fb, u);
        for idx in cells(p.extent()) {
            let gx = (p.bx.lo[0] + idx[0] as i64) as usize;
            let gy = (p.bx.lo[1] + idx[1] as i64) as usize;
            field[gy][gx] = v.get(idx).0;
        }
    }
    field
}

/// A uniform 16x16 run at spacing 0.25 must equal the given field bitwise.
fn assert_matches_uniform(
    field: &[[f64; 16]],
    kappa: f64,
    init: impl Fn([F; 2]) -> F,
    dt: F,
    steps: usize,
) {
    let hf = 0.25;
    let mut sim = Simulation::new(
        uniform([16, 16], [8, 16], hf),
        FiniteDifference,
        UniformHeat { kappa, u: None },
        ForwardEuler,
        SerialScheduler,
        SystemAllocator,
    );
    let u = sim.model().u.unwrap();
    {
        let (grid, state) = sim.state_mut();
        fill_from_fn(grid, state, u, init);
    }
    for _ in 0..steps {
        sim.step(dt);
    }
    for b in 0..sim.grid().num_blocks() {
        let block = BlockId(b as u32);
        let v = sim.state().view(sim.grid(), block, u);
        for idx in cells(sim.grid().block_cells()) {
            let [x, y] = sim.grid().cell_center(block, idx);
            let gx = (x.0 / hf - 0.5).round() as usize;
            let gy = (y.0 / hf - 0.5).round() as usize;
            assert_eq!(
                field[gy][gx],
                v.get(idx).0,
                "cell ({gx},{gy}) diverged from the uniform run"
            );
        }
    }
}

#[test]
fn full_fine_tiling_matches_uniform_grid_bitwise() {
    let kappa = 0.7;
    let hf = 0.25;
    let dt = F(0.2 * hf * hf / kappa);
    let init = |[x, y]: [F; 2]| F((0.7 * x.0).cos() + (1.3 * y.0).sin());

    let mut sim = Simulation::new(
        fully_tiled(),
        FiniteDifference,
        Heat { kappa, u: None },
        ForwardEuler,
        SerialScheduler,
        SystemAllocator,
    );
    let u = sim.model().u.unwrap();
    {
        let (grid, state) = sim.state_mut();
        fill_by_center(grid, state, u, init);
    }
    for _ in 0..100 {
        sim.step(dt);
    }
    let field = fine_field(sim.grid(), sim.state(), u);
    assert_matches_uniform(&field, kappa, init, dt, 100);
}

#[test]
fn interface_run_stays_physical() {
    let kappa = 0.7;
    let hf = 0.25;
    let dt = 0.2 * hf * hf / kappa;
    let grid = AmrGrid::from_patches(
        uniform([16, 16], [8, 8], 0.5),
        &[2],
        &[vec![CellBox { lo: [8, 8], hi: [24, 24] }]],
    )
    .unwrap();
    let init = |[x, y]: [F; 2]| {
        let (dx, dy) = (x.0 - 4.0, y.0 - 4.0);
        F((-dx.mul_add(dx, dy * dy) / 1.5).exp())
    };
    let mut sim = Simulation::new(
        grid,
        FiniteDifference,
        Heat { kappa, u: None },
        ForwardEuler,
        SerialScheduler,
        SystemAllocator,
    );
    let u = sim.model().u.unwrap();
    {
        let (grid, state) = sim.state_mut();
        fill_by_center(grid, state, u, init);
    }
    for _ in 0..200 {
        sim.step(F(dt));
    }
    let (mut lo, mut hi) = (f64::MAX, f64::MIN);
    for b in 0..sim.grid().num_blocks() {
        let block = BlockId(b as u32);
        let v = sim.state().view(sim.grid(), block, u);
        for idx in cells(sim.grid().patch(block).extent()) {
            let x = v.get(idx).0;
            assert!(x.is_finite(), "non-finite value in block {b} at {idx:?}");
            lo = lo.min(x);
            hi = hi.max(x);
        }
    }
    assert!(hi < 0.9, "heat must decay from the initial peak of 1: max {hi}");
    assert!(hi > 0.0 && lo > -1e-9, "maximum principle: [{lo}, {hi}]");
}

fn gaussian([x, y]: [F; 2]) -> F {
    let (dx, dy) = (x.0 - 4.0, y.0 - 4.0);
    F((-dx.mul_add(dx, dy * dy) / 0.4).exp())
}

fn tracking(
    field: &'static str,
    threshold: f64,
    every: u64,
    efficiency: f64,
    min_width: usize,
) -> BergerOliger<GradientTagger<F>, F> {
    BergerOliger::new(
        GradientTagger { field, threshold: F(threshold) },
        RegridPolicy {
            every,
            buffer: 2,
            cluster: ClusterParams { efficiency: F(efficiency), min_width },
        },
    )
}

#[test]
fn initial_regrid_refines_around_the_feature() {
    let grid = AmrGrid::from_patches(uniform([16, 16], [8, 8], 0.5), &[2], &[]).unwrap();
    let mut sim = Simulation::adaptive(
        grid,
        FiniteDifference,
        Heat { kappa: 0.7, u: None },
        ForwardEuler,
        SerialScheduler,
        SystemAllocator,
        tracking("u", 0.05, 4, 0.7, 2),
    );
    let u = sim.model().u.unwrap();
    {
        let (grid, state) = sim.state_mut();
        fill_by_center(grid, state, u, gaussian);
    }
    let dt = F(0.2 * 0.25 * 0.25 / 0.7);
    sim.step(dt);

    assert_eq!(sim.grid().num_levels(), 2, "the bump must trigger refinement");
    let bump = |x: f64, y: f64| gaussian([F(x), F(y)]).0;
    let g = sim.grid();
    for cell_y in 0..16i64 {
        for cell_x in 0..16i64 {
            let center = [
                0.5f64.mul_add(cell_x as f64, 0.25),
                0.5f64.mul_add(cell_y as f64, 0.25),
            ];
            let gx = (bump(center[0] + 0.5, center[1]) - bump(center[0] - 0.5, center[1])) / 2.0;
            let gy = (bump(center[0], center[1] + 0.5) - bump(center[0], center[1] - 0.5)) / 2.0;
            if gx.abs().max(gy.abs()) > 0.06 {
                let fine = [cell_x * 2, cell_y * 2];
                assert!(
                    g.find_patch(1, fine).is_some(),
                    "high-gradient cell ({cell_x},{cell_y}) not refined"
                );
            }
        }
    }

    for _ in 0..8 {
        sim.step(dt);
    }
    assert_eq!(sim.grid().num_levels(), 2, "feature still present, still refined");
    for b in 0..sim.grid().num_blocks() {
        let block = BlockId(b as u32);
        let v = sim.state().view(sim.grid(), block, u);
        for idx in cells(sim.grid().patch(block).extent()) {
            let x = v.get(idx).0;
            assert!(x.is_finite() && (-1e-9..=1.0).contains(&x), "unphysical {x}");
        }
    }
}

#[test]
fn adaptive_beats_coarse_against_fine_reference() {
    let kappa = 0.7;
    let dt = F(0.2 * 0.25 * 0.25 / kappa);
    let steps = 60;

    let mut fsim = Simulation::new(
        uniform([32, 32], [16, 16], 0.25),
        FiniteDifference,
        UniformHeat { kappa, u: None },
        ForwardEuler,
        SerialScheduler,
        SystemAllocator,
    );
    let fu = fsim.model().u.unwrap();
    {
        let (grid, state) = fsim.state_mut();
        fill_from_fn(grid, state, fu, gaussian);
    }
    for _ in 0..steps {
        fsim.step(dt);
    }
    let mut reference = vec![[0.0f64; 16]; 16];
    for b in 0..fsim.grid().num_blocks() {
        let block = BlockId(b as u32);
        let v = fsim.state().view(fsim.grid(), block, fu);
        for idx in cells(fsim.grid().block_cells()) {
            let [x, y] = fsim.grid().cell_center(block, idx);
            let (cx, cy) = ((x.0 / 0.5) as usize, (y.0 / 0.5) as usize);
            reference[cy][cx] = v.get(idx).0.mul_add(0.25, reference[cy][cx]);
        }
    }

    let mut csim = Simulation::new(
        uniform([16, 16], [8, 8], 0.5),
        FiniteDifference,
        UniformHeat { kappa, u: None },
        ForwardEuler,
        SerialScheduler,
        SystemAllocator,
    );
    let cu = csim.model().u.unwrap();
    {
        let (grid, state) = csim.state_mut();
        fill_from_fn(grid, state, cu, gaussian);
    }
    for _ in 0..steps {
        csim.step(dt);
    }

    let grid = AmrGrid::from_patches(uniform([16, 16], [8, 8], 0.5), &[2], &[]).unwrap();
    let mut asim = Simulation::adaptive(
        grid,
        FiniteDifference,
        Heat { kappa, u: None },
        ForwardEuler,
        SerialScheduler,
        SystemAllocator,
        tracking("u", 0.05, 4, 0.7, 2),
    );
    let au = asim.model().u.unwrap();
    {
        let (grid, state) = asim.state_mut();
        fill_by_center(grid, state, au, gaussian);
    }
    let mut refined_cells = 0usize;
    for _ in 0..steps {
        asim.step(dt);
        refined_cells = refined_cells.max(
            asim.grid()
                .blocks_at(1)
                .iter()
                .map(|&b| asim.grid().patch(b).bx.cells() as usize)
                .sum(),
        );
    }
    {
        let (grid, state) = asim.state_mut();
        restrict(grid, state, au);
    }
    let (mut err_adaptive, mut err_coarse) = (0.0f64, 0.0f64);
    for b in asim.grid().blocks_at(0) {
        let p = *asim.grid().patch(b);
        let va = asim.state().view(asim.grid(), b, au);
        let vc = csim.state().view(csim.grid(), b, cu);
        for idx in cells(p.extent()) {
            let gx = (p.bx.lo[0] + idx[0] as i64) as usize;
            let gy = (p.bx.lo[1] + idx[1] as i64) as usize;
            err_adaptive = err_adaptive.max((va.get(idx).0 - reference[gy][gx]).abs());
            err_coarse = err_coarse.max((vc.get(idx).0 - reference[gy][gx]).abs());
        }
    }
    assert!(close(err_adaptive, 0.001_680_900, 1e-6), "adaptive error {err_adaptive}");
    assert!(close(err_coarse, 0.003_716_000, 1e-6), "coarse error {err_coarse}");
    assert_eq!(
        refined_cells, 400,
        "refinement must stay partial: {refined_cells} fine cells"
    );
}

/// Forces a refinement box, moved after the first regrid.
struct BoxTagger {
    calls: AtomicU64,
}

impl TagCells<F, 2> for BoxTagger {
    fn prepare<S: StorageBackend<F>>(&self, _grid: &AmrGrid<F, 2>, _state: &mut State<F, S>) {}

    fn tag_level<S: StorageBackend<F>>(
        &self,
        _grid: &AmrGrid<F, 2>,
        _state: &State<F, S>,
        level: u8,
        flags: &mut Vec<[i64; 2]>,
    ) {
        if level != 0 {
            return;
        }
        let shift = i64::from(self.calls.fetch_add(1, Ordering::Relaxed) > 0) * 2;
        for y in 2 + shift..6 + shift {
            for x in 2 + shift..6 + shift {
                flags.push([x, y]);
            }
        }
    }
}

/// A model that does nothing.
struct Frozen {
    u: Option<FieldHandle<F>>,
}

impl<P: Sync> Model<F, AmrGrid<F, 2>, P, 2> for Frozen {
    type Drivers = NoNoise;

    fn register_fields(&mut self, builder: &mut StateBuilder<F>) {
        self.u = Some(builder.register("u", 1));
    }

    fn vector_field_block<S: StorageBackend<F>>(
        &self,
        _driver: Driver,
        ctx: &RhsContext<'_, F, AmrGrid<F, 2>, P>,
        _state: &State<F, S>,
        out: &mut BlockStateMut<'_, F, S>,
        _scratch: &mut Scratch<F, S>,
    ) {
        let mut dv = out.view_mut(ctx.grid, ctx.block, self.u.unwrap());
        for idx in cells(ctx.grid.patch(ctx.block).extent()) {
            dv.set(idx, F(0.0));
        }
    }

    fn scratch_spec(&self, _grid: &AmrGrid<F, 2>) -> ScratchSpec {
        ScratchSpec::none()
    }

    fn fill_ghosts<S: StorageBackend<F>>(
        &self,
        _grid: &AmrGrid<F, 2>,
        _disc: &P,
        _state: &mut State<F, S>,
        _t: F,
    ) {
    }

    fn project<S: StorageBackend<F>>(&self, _grid: &AmrGrid<F, 2>, _disc: &P, _state: &mut State<F, S>) {}

    fn stiff_rows(
        &self,
        _grid: &AmrGrid<F, 2>,
        _disc: &P,
        _block: BlockId,
        _field: FieldHandle<F>,
        _rows: &mut [[F; 3]],
    ) -> bool {
        false
    }

    fn stable_dt_nonstiff(&self, _spacing: [F; 2]) -> Option<F> {
        None
    }

    fn stable_dt(&self, _spacing: [F; 2]) -> Option<F> {
        None
    }
}

#[test]
fn migration_preserves_linear_fields_exactly() {
    let grid = AmrGrid::from_patches(uniform([16, 16], [8, 8], 0.5), &[2], &[]).unwrap();
    let mut sim = Simulation::adaptive(
        grid,
        FiniteDifference,
        Frozen { u: None },
        ForwardEuler,
        SerialScheduler,
        SystemAllocator,
        BergerOliger::new(
            BoxTagger { calls: AtomicU64::new(0) },
            RegridPolicy {
                every: 1,
                buffer: 0,
                cluster: ClusterParams { efficiency: F(0.9), min_width: 2 },
            },
        ),
    );
    let u = sim.model().u.unwrap();
    {
        let (grid, state) = sim.state_mut();
        fill_by_center(grid, state, u, linear);
    }
    let dt = F(1e-3);
    sim.step(dt);
    sim.step(dt);

    assert_eq!(sim.grid().num_levels(), 2);
    let fine: Vec<BlockId> = sim.grid().blocks_at(1);
    assert!(!fine.is_empty());
    for fb in fine {
        let p = *sim.grid().patch(fb);
        assert_eq!(p.bx, CellBox { lo: [8, 8], hi: [16, 16] }, "shifted box expected");
        let v = sim.state().view(sim.grid(), fb, u);
        for idx in cells(p.extent()) {
            let c = sim.grid().cell_center(fb, idx);
            assert!(close(v.get(idx).0, linear(c).0, 1e-12));
        }
    }
}

#[test]
fn dendrite_interface_is_tracked_by_refinement() {
    let grid = AmrGrid::from_patches(uniform([48, 48], [24, 24], 0.4), &[2], &[]).unwrap();
    let mut sim = Simulation::adaptive(
        grid,
        FiniteVolume::default(),
        ModelC::<F, NoNoise>::classic(),
        EulerMaruyama { seed: 7 },
        SerialScheduler,
        SystemAllocator,
        tracking("phi", 0.15, 4, 0.8, 4),
    );
    let dt = sim.stable_dt().unwrap();
    let phi_h = sim.model().phi();
    {
        let model = sim.model().clone();
        let (grid, state) = sim.state_mut();
        model.initialize(grid.base(), state, [F(0.4), F(0.4)], F(4.0), F(0.7));
    }
    for _ in 0..150 {
        sim.step(dt);
    }

    let g = sim.grid();
    assert_eq!(g.num_levels(), 2, "the interface must be refined");
    let refined: u64 = g.blocks_at(1).iter().map(|&b| g.patch(b).bx.cells()).sum();
    assert!(
        refined > 0 && refined < 96 * 96,
        "refinement must be partial: {refined} fine cells"
    );

    for b in 0..g.num_blocks() {
        let block = BlockId(b as u32);
        let level = g.level(block);
        let p = *g.patch(block);
        let v = sim.state().view(g, block, phi_h);
        for idx in cells(p.extent()) {
            let x = v.get(idx).0;
            assert!(x.is_finite() && x.abs() < 1.2, "unphysical phi {x}");
            if level == 0 {
                let gx = 0.5 * (v.get([idx[0] + 1, idx[1]]).0 - v.get([idx[0] - 1, idx[1]]).0);
                let gy = 0.5 * (v.get([idx[0], idx[1] + 1]).0 - v.get([idx[0], idx[1] - 1]).0);
                if gx.abs().max(gy.abs()) > 0.2 {
                    let fine = [
                        (p.bx.lo[0] + idx[0] as i64) * 2,
                        (p.bx.lo[1] + idx[1] as i64) * 2,
                    ];
                    assert!(
                        g.find_patch(1, fine).is_some(),
                        "interface cell {fine:?} not refined"
                    );
                }
            }
        }
    }
}

const KAPPA: f64 = 0.7;

#[test]
fn fully_tiled_subcycled_fine_matches_uniform_fine_bitwise() {
    const COARSE_STEPS: usize = 25;
    let init = |[x, y]: [F; 2]| F((0.6 * x.0).cos() + (1.1 * y.0).sin());
    let mut sim = Simulation::new(
        fully_tiled(),
        FiniteDifference,
        Heat { kappa: KAPPA, u: None },
        Subcycling { seed: 0 },
        SerialScheduler,
        SystemAllocator,
    );
    let u = sim.model().u.unwrap();
    let dt_coarse = sim.stable_dt().unwrap();
    {
        let (grid, state) = sim.state_mut();
        fill_by_center(grid, state, u, init);
    }
    for _ in 0..COARSE_STEPS {
        sim.step(dt_coarse);
    }
    let field = fine_field(sim.grid(), sim.state(), u);
    assert_matches_uniform(&field, KAPPA, init, F(dt_coarse.0 / 4.0), COARSE_STEPS * 4);
}

fn run_subcycled<Sch: Scheduler>(scheduler: Sch) -> Vec<f64> {
    let grid = AmrGrid::from_patches(uniform([32, 32], [16, 16], 0.5), &[2], &[]).unwrap();
    let mut sim = Simulation::adaptive(
        grid,
        FiniteDifference,
        Heat { kappa: KAPPA, u: None },
        Subcycling { seed: 0 },
        scheduler,
        SystemAllocator,
        tracking("u", 0.03, 2, 0.7, 4),
    );
    let u = sim.model().u.unwrap();
    let dt = sim.stable_dt().unwrap();
    {
        let (grid, state) = sim.state_mut();
        fill_by_center(grid, state, u, |[x, y]| {
            let (dx, dy) = (x.0 - 8.0, y.0 - 8.0);
            F((-dx.mul_add(dx, dy * dy) / 3.0).exp())
        });
    }
    for _ in 0..30 {
        sim.step(dt);
    }
    let mut out = Vec::new();
    for b in sim.grid().blocks_at(0) {
        let v = sim.state().view(sim.grid(), b, u);
        for idx in cells(sim.grid().patch(b).extent()) {
            out.push(v.get(idx).0);
        }
    }
    out
}

#[test]
fn adaptive_subcycled_run_is_scheduler_independent() {
    assert_eq!(
        run_subcycled(SerialScheduler),
        run_subcycled(RayonScheduler),
        "subcycled run must not depend on scheduling"
    );
}

#[test]
fn model_c_subcycled_dendrite_is_physical() {
    let grid = AmrGrid::from_patches(uniform([48, 48], [24, 24], 0.4), &[2], &[]).unwrap();
    let mut sim = Simulation::adaptive(
        grid,
        FiniteVolume::default(),
        ModelC::<F, NoNoise>::classic(),
        Subcycling { seed: 0 },
        SerialScheduler,
        SystemAllocator,
        tracking("phi", 0.15, 4, 0.8, 4),
    );
    let dt = sim.stable_dt().unwrap();
    let phi_h = sim.model().phi();
    {
        let model = sim.model().clone();
        let (grid, state) = sim.state_mut();
        model.initialize(grid.base(), state, [F(0.4), F(0.4)], F(4.0), F(0.7));
    }
    for _ in 0..40 {
        sim.step(dt);
    }
    assert_eq!(sim.grid().num_levels(), 2, "interface must be refined");
    for b in 0..sim.grid().num_blocks() {
        let block = BlockId(b as u32);
        let v = sim.state().view(sim.grid(), block, phi_h);
        for idx in cells(sim.grid().patch(block).extent()) {
            let p = v.get(idx).0;
            assert!(p.is_finite() && p.abs() < 1.2, "unphysical phi {p}");
        }
    }
}
