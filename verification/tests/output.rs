//! Observation and output: the snapshot pipeline's decisions, the layout of snapshot
//! tables, and field statistics.

use std::sync::{Arc, Mutex};

use legendre::discretization::finite_volume::FiniteVolume;
use legendre::engine::driver::NoNoise;
use legendre::engine::observer::{snapshot_due, Observer, SnapshotRing, SnapshotSink};
use legendre::engine::scheduler::SerialScheduler;
use legendre::engine::simulation::Simulation;
use legendre::engine::state::{FieldHandle, State, StateBuilder};
use legendre::engine::storage::{DenseStorage, Real, Scalar, StorageBackend, SystemAllocator};
use legendre::geometry::cartesian::CartesianGrid;
use legendre::geometry::grid::{BlockId, Grid};
use legendre::geometry::view::for_each_interior;
use legendre::integrators::euler_maruyama::EulerMaruyama;
use legendre::io::progress::{field_summary, FieldStat};
use legendre::io::table::{
    check_table, row_group, snapshot_file, snapshot_schema, static_file, static_schema,
    ObserverError, SnapshotLog, ROWS_PER_GROUP,
};
use legendre::physics::phasefield::ModelC;

#[derive(Debug, Clone, Copy, PartialEq, PartialOrd)]
struct F(f64);

impl Scalar for F {
    fn zero() -> Self {
        F(0.0)
    }
}

impl Real for F {
    fn add(self, other: Self) -> Self {
        F(self.0 + other.0)
    }
    fn sub(self, other: Self) -> Self {
        F(self.0 - other.0)
    }
    fn mul(self, other: Self) -> Self {
        F(self.0 * other.0)
    }
    fn div(self, other: Self) -> Self {
        F(self.0 / other.0)
    }
    fn lt(self, other: Self) -> bool {
        self.0 < other.0
    }
    fn le(self, other: Self) -> bool {
        self.0 <= other.0
    }
    fn neg(self) -> Self {
        F(-self.0)
    }
    fn sqrt(self) -> Self {
        F(self.0.sqrt())
    }
    fn abs(self) -> Self {
        F(self.0.abs())
    }
    fn ln(self) -> Self {
        F(self.0.ln())
    }
    fn cos(self) -> Self {
        F(self.0.cos())
    }
    fn exp_m1(self) -> Self {
        F(self.0.exp_m1())
    }
    fn max(self, other: Self) -> Self {
        F(self.0.max(other.0))
    }
    fn min(self, other: Self) -> Self {
        F(self.0.min(other.0))
    }
    fn powi(self, n: i32) -> Self {
        F(self.0.powi(n))
    }
    fn equals(self, other: Self) -> bool {
        self.0 == other.0
    }
    fn one() -> Self {
        F(1.0)
    }
    fn tau() -> Self {
        F(std::f64::consts::TAU)
    }
    fn mul_add(self, a: Self, b: Self) -> Self {
        F(self.0.mul_add(a.0, b.0))
    }
    fn is_finite(self) -> bool {
        self.0.is_finite()
    }
    fn half() -> Self {
        F(0.5)
    }
    fn round(self) -> Self {
        F(self.0.round())
    }
    fn exp(self) -> Self {
        F(self.0.exp())
    }
    fn sin(self) -> Self {
        F(self.0.sin())
    }
    fn tanh(self) -> Self {
        F(self.0.tanh())
    }
    fn hypot(self, other: Self) -> Self {
        F(self.0.hypot(other.0))
    }
    fn total_lt(self, other: Self) -> bool {
        self.0.total_cmp(&other.0).is_lt()
    }
    fn to_bits(self) -> u64 {
        self.0.to_bits()
    }
    fn to_u64(self) -> u64 {
        self.0 as u64
    }
    fn to_i64(self) -> i64 {
        self.0 as i64
    }
    fn infinity() -> Self {
        F(f64::INFINITY)
    }
    fn largest() -> Self {
        F(f64::MAX)
    }
    fn from_i64(x: i64) -> Self {
        F(x as f64)
    }
    fn from_u64(x: u64) -> Self {
        F(x as f64)
    }
}

fn cells<const D: usize>(interior: [usize; D]) -> Vec<[isize; D]> {
    let mut out = Vec::new();
    for_each_interior(interior, &mut out);
    out
}

type Dense = State<F, DenseStorage<F>>;

struct RecordingSink {
    seen: Arc<Mutex<Vec<(u64, F)>>>,
    finished: Arc<Mutex<bool>>,
}

impl<S: StorageBackend<F>> SnapshotSink<F, S> for RecordingSink {
    fn consume(&mut self, step: u64, t: F, state: &State<F, S>) {
        assert_eq!(state.layout().num_fields(), 2);
        self.seen.lock().unwrap().push((step, t));
    }

    fn finish(&mut self) {
        *self.finished.lock().unwrap() = true;
    }
}

/// A snapshot ring whose sinks run at once, so that every buffer comes back before
/// the next snapshot.
struct Pipeline {
    ring: SnapshotRing,
    free: Vec<Dense>,
    sink: Box<dyn SnapshotSink<F, DenseStorage<F>>>,
}

impl<G> Observer<G, F, DenseStorage<F>> for Pipeline {
    fn observe(&mut self, step: u64, t: F, _epoch: u64, _grid: &G, state: &Dense) {
        if !self.ring.due(step) {
            return;
        }
        let free = self.free.pop();
        if let Some(snapshot) = self.ring.take(step, t, state, free) {
            self.sink.consume(snapshot.step, snapshot.t, &snapshot.state);
            self.free.push(snapshot.state);
        }
    }
}

impl Drop for Pipeline {
    fn drop(&mut self) {
        self.sink.finish();
    }
}

#[test]
fn async_observer_delivers_and_drains() {
    let grid =
        CartesianGrid::new([64, 64], [32, 32], [F(0.0), F(0.0)], [F(0.4), F(0.4)]).unwrap();
    let mut sim = Simulation::new(
        grid,
        FiniteVolume::default(),
        ModelC::<F, NoNoise>::classic(),
        EulerMaruyama { seed: 7 },
        SerialScheduler,
        SystemAllocator,
    );
    let dt = sim.stable_dt().unwrap();
    {
        let model = sim.model().clone();
        let (grid, state) = sim.state_mut();
        model.initialize(grid, state, [F(0.4), F(0.4)], F(10.0 * 0.4), F(0.7));
    }

    let seen = Arc::new(Mutex::new(Vec::new()));
    let finished = Arc::new(Mutex::new(false));
    let sink = RecordingSink { seen: Arc::clone(&seen), finished: Arc::clone(&finished) };
    let pipeline = Pipeline {
        ring: SnapshotRing::new(20),
        free: sim.snapshot_buffers(3),
        sink: Box::new(sink),
    };
    sim.attach_observer(Box::new(pipeline));

    for _ in 0..100 {
        sim.step(dt);
    }
    drop(sim);

    let steps: Vec<u64> = seen.lock().unwrap().iter().map(|(s, _)| *s).collect();
    assert_eq!(steps, vec![1, 20, 40, 60, 80, 100]);
    assert!(*finished.lock().unwrap(), "finish() must run on shutdown");
}

#[test]
fn saturated_ring_drops_and_counts() {
    let grid = CartesianGrid::new([4], [2], [F(0.0)], [F(1.0)]).unwrap();
    let mut builder = StateBuilder::<F>::new();
    let x = builder.register("x", 0);
    let mut state: Dense = builder.build(&grid, &SystemAllocator);
    state.slab_mut(BlockId(1), x)[0] = F(6.5);
    let buffer = state.like(&grid, &SystemAllocator);
    assert!(buffer.is_congruent(&state));

    let mut ring = SnapshotRing::new(10);
    assert!(ring.due(1) && ring.due(10) && !ring.due(11));
    let snapshot = ring.take(10, F(0.5), &state, Some(buffer)).unwrap();
    assert_eq!((snapshot.step, snapshot.t), (10, F(0.5)));
    assert_eq!(snapshot.state.slab(BlockId(1), x)[0], F(6.5));
    assert_eq!(ring.dropped_snapshots(), 0);

    assert!(ring.take(20, F(1.0), &state, None).is_none());
    assert_eq!(ring.dropped_snapshots(), 1);
    ring.lost();
    assert_eq!(ring.dropped_snapshots(), 2);
}

#[test]
fn cadence_of_zero_fires_on_the_first_step_only() {
    let fired: Vec<u64> = (1..50).filter(|&s| snapshot_due(s, 0)).collect();
    assert_eq!(fired, vec![1]);
    let fired: Vec<u64> = (1..8).filter(|&s| snapshot_due(s, 1)).collect();
    assert_eq!(fired, vec![1, 2, 3, 4, 5, 6, 7]);
}

/// A two-field state (dynamic phi, static theta0) with distinct, position-dependent
/// values.
fn build_state(grid: &CartesianGrid<F, 2>) -> (Dense, FieldHandle<F>, FieldHandle<F>) {
    let mut builder = StateBuilder::<F>::new();
    let phi = builder.register("phi", 1);
    let theta = builder.register_static("theta0", 0);
    let mut state: Dense = builder.build(grid, &SystemAllocator);
    for b in 0..grid.num_blocks() {
        let block = BlockId(b as u32);
        {
            let mut v = state.view_mut(grid, block, phi);
            for idx in cells(grid.block_cells()) {
                let [x, y] = grid.cell_center(block, idx);
                v.set(idx, F(100.0f64.mul_add(x.0, y.0)));
            }
        }
        {
            let mut v = state.view_mut(grid, block, theta);
            for idx in cells(grid.block_cells()) {
                let [x, y] = grid.cell_center(block, idx);
                v.set(idx, F(-1000.0f64.mul_add(y.0, x.0)));
            }
        }
    }
    (state, phi, theta)
}

#[test]
fn snapshot_roundtrips_exactly() {
    let grid = CartesianGrid::new([4, 4], [2, 2], [F(0.0), F(0.0)], [F(0.5), F(0.5)]).unwrap();
    let (state, phi, theta) = build_state(&grid);
    let dynamic = [("phi", phi)];
    let statics = [("theta0", theta)];
    assert_eq!(check_table(2, dynamic.len()), Ok(()));

    let mut log = SnapshotLog::new(2);
    assert!(log.due(1));
    assert!(!log.due(3), "off-cadence steps must not snapshot");
    assert!(log.due(4));
    assert!(log.needs_statics(0), "per-epoch static file must be written");
    log.statics_written(0);
    assert!(!log.needs_statics(0));
    assert!(log.needs_statics(1), "a regrid needs fresh statics");

    assert_eq!(static_file(0), "static_0000000.parquet");
    assert_eq!(snapshot_file(1), "snap_0000001.parquet");
    assert_eq!(snapshot_file(4), "snap_0000004.parquet");
    assert_eq!(snapshot_file(123_456_789), "snap_123456789.parquet");

    assert_eq!(
        static_schema(2, &statics),
        "message snapshot { required double x;\nrequired double y;\nrequired double theta0;\n }"
    );
    assert_eq!(
        snapshot_schema(&dynamic),
        "message snapshot { required int64 step;\nrequired double t;\nrequired int64 epoch;\n\
         required double phi;\n }"
    );

    let (mut xs, mut ys, mut phis, mut thetas) = (vec![], vec![], vec![], vec![]);
    for b in 0..grid.num_blocks() {
        let block = BlockId(b as u32);
        for idx in cells(grid.block_cells()) {
            let [x, y] = grid.cell_center(block, idx);
            xs.push(x);
            ys.push(y);
            phis.push(F(100.0f64.mul_add(x.0, y.0)));
            thetas.push(F(-1000.0f64.mul_add(y.0, x.0)));
        }
    }
    let group = row_group(&grid, &state, true, &statics, 0, ROWS_PER_GROUP);
    assert_eq!(group.next, grid.num_blocks());
    assert_eq!(group.columns, vec![xs, ys, thetas]);
    let group = row_group(&grid, &state, false, &dynamic, 0, ROWS_PER_GROUP);
    assert_eq!(group.columns, vec![phis.clone()]);

    let mut joined = Vec::new();
    let mut first = 0;
    let mut ends = Vec::new();
    while first < grid.num_blocks() {
        let mut group = row_group(&grid, &state, false, &dynamic, first, 5);
        joined.append(&mut group.columns[0]);
        first = group.next;
        ends.push(first);
    }
    assert_eq!(ends, vec![2, 4], "a group of at least 5 rows takes two blocks of 4");
    assert_eq!(joined, phis);
}

#[test]
fn constructor_rejects_empty_field_lists() {
    assert_eq!(check_table(2, 0), Err(ObserverError::NoValidFields));
    assert_eq!(check_table(0, 1), Err(ObserverError::InvalidDimension(0)));
    assert_eq!(check_table(4, 0), Err(ObserverError::InvalidDimension(4)));
    assert!(check_table(1, 1).is_ok() && check_table(3, 7).is_ok());
}

#[test]
fn field_statistics_reduce_the_interior() {
    let grid = CartesianGrid::new([4], [2], [F(0.0)], [F(1.0)]).unwrap();
    let mut builder = StateBuilder::<F>::new();
    let x = builder.register("x", 1);
    let mut state: Dense = builder.build(&grid, &SystemAllocator);
    for b in 0..2 {
        state.slab_mut(BlockId(b), x).fill(F(99.0));
        let mut v = state.view_mut(&grid, BlockId(b), x);
        v.set([0], F(if b == 0 { -2.0 } else { 3.0 }));
        v.set([1], F(if b == 0 { 0.0 } else { 1.0 }));
    }
    let stat = FieldStat { name: "x", handle: x, fraction_above: Some(F(0.0)) };
    let summary = field_summary(&grid, &state, &stat);
    assert_eq!((summary.lo, summary.hi, summary.mean), (F(-2.0), F(3.0), F(0.5)));
    assert_eq!(summary.percent_above, Some(F(50.0)));
    let plain = FieldStat { name: "x", handle: x, fraction_above: None };
    assert!(field_summary(&grid, &state, &plain).percent_above.is_none());
}
