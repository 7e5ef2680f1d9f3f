//! Grid construction errors, block topology, iteration order, halo exchange and
//! mirror boundaries, static-field buffer layout, split borrows, and the
//! vector-space operations integrators are built on.

use legendre::engine::state::{FieldHandle, State, StateBuilder};
use legendre::engine::storage::{DenseStorage, Real, Scalar, SystemAllocator};
use legendre::geometry::cartesian::CartesianGrid;
use legendre::geometry::error::GridError;
use legendre::geometry::grid::{BlockId, Grid};
use legendre::geometry::halo::fill_ghosts_mirror;
use legendre::geometry::view::{for_each_box, for_each_interior};

#[derive(Debug, Clone, Copy, PartialEq, PartialOrd)]
struct F(f64);

impl Scalar for F {
    fn zero() -> Self {
        F(0.0)
    }
}

impl Real for F {
    fn add(self, other: Self) -> Self {
        F(self.0 + other.0)
    }
    fn sub(self, other: Self) -> Self {
        F(self.0 - other.0)
    }
    fn mul(self, other: Self) -> Self {
        F(self.0 * other.0)
    }
    fn div(self, other: Self) -> Self {
        F(self.0 / other.0)
    }
    fn lt(self, other: Self) -> bool {
        self.0 < other.0
    }
    fn le(self, other: Self) -> bool {
        self.0 <= other.0
    }
    fn neg(self) -> Self {
        F(-self.0)
    }
    fn sqrt(self) -> Self {
        F(self.0.sqrt())
    }
    fn abs(self) -> Self {
        F(self.0.abs())
    }
    fn ln(self) -> Self {
        F(self.0.ln())
    }
    fn cos(self) -> Self {
        F(self.0.cos())
    }
    fn exp_m1(self) -> Self {
        F(self.0.exp_m1())
    }
    fn max(self, other: Self) -> Self {
        F(self.0.max(other.0))
    }
    fn min(self, other: Self) -> Self {
        F(self.0.min(other.0))
    }
    fn powi(self, n: i32) -> Self {
        F(self.0.powi(n))
    }
    fn equals(self, other: Self) -> bool {
        self.0 == other.0
    }
    fn one() -> Self {
        F(1.0)
    }
    fn tau() -> Self {
        F(std::f64::consts::TAU)
    }
    fn mul_add(self, a: Self, b: Self) -> Self {
        F(self.0.mul_add(a.0, b.0))
    }
    fn is_finite(self) -> bool {
        self.0.is_finite()
    }
    fn half() -> Self {
        F(0.5)
    }
    fn round(self) -> Self {
        F(self.0.round())
    }
    fn exp(self) -> Self {
        F(self.0.exp())
    }
    fn sin(self) -> Self {
        F(self.0.sin())
    }
    fn tanh(self) -> Self {
        F(self.0.tanh())
    }
    fn hypot(self, other: Self) -> Self {
        F(self.0.hypot(other.0))
    }
    fn total_lt(self, other: Self) -> bool {
        self.0.total_cmp(&other.0).is_lt()
    }
    fn to_bits(self) -> u64 {
        self.0.to_bits()
    }
    fn to_u64(self) -> u64 {
        self.0 as u64
    }
    fn to_i64(self) -> i64 {
        self.0 as i64
    }
    fn infinity() -> Self {
        F(f64::INFINITY)
    }
    fn largest() -> Self {
        F(f64::MAX)
    }
    fn from_i64(x: i64) -> Self {
        F(x as f64)
    }
    fn from_u64(x: u64) -> Self {
        F(x as f64)
    }
}

type DenseState = State<F, DenseStorage<F>>;

fn cells<const D: usize>(interior: [usize; D]) -> Vec<[isize; D]> {
    let mut out = Vec::new();
    for_each_interior(interior, &mut out);
    out
}

#[test]
fn construction_rejects_bad_inputs() {
    assert!(matches!(
        CartesianGrid::new([0, 4], [1, 2], [F(0.0); 2], [F(1.0); 2]),
        Err(GridError::EmptyDimension(0))
    ));
    assert!(matches!(
        CartesianGrid::new([4, 4], [3, 2], [F(0.0); 2], [F(1.0); 2]),
        Err(GridError::IndivisibleDimension { dimension: 0, .. })
    ));
    for bad in [0.0, -1.0, f64::NAN, f64::INFINITY] {
        assert!(matches!(
            CartesianGrid::new([4, 4], [2, 2], [F(0.0); 2], [F(1.0), F(bad)]),
            Err(GridError::InvalidSpacing { dimension: 1, .. })
        ));
    }
}

#[test]
fn block_topology_is_dimension_0_fastest() {
    let grid = CartesianGrid::new([4, 4], [2, 2], [F(0.0); 2], [F(1.0); 2]).unwrap();
    assert_eq!(grid.num_blocks(), 4);
    assert_eq!(grid.block_coords(BlockId(1)), [1, 0]);
    assert_eq!(grid.block_coords(BlockId(2)), [0, 1]);
    assert_eq!(grid.face_neighbor(BlockId(0), 0, 1), Some(BlockId(1)));
    assert_eq!(grid.face_neighbor(BlockId(0), 1, 1), Some(BlockId(2)));
    assert_eq!(grid.face_neighbor(BlockId(0), 0, -1), None);
    assert_eq!(grid.face_neighbor(BlockId(3), 1, 1), None);
    assert_eq!(grid.face_neighbor(BlockId(3), 0, -1), Some(BlockId(2)));
}

#[test]
fn cell_centers_are_cell_centered() {
    let grid = CartesianGrid::new([4], [2], [F(10.0)], [F(0.5)]).unwrap();
    assert_eq!(grid.cell_center(BlockId(0), [0]), [F(10.25)]);
    assert_eq!(grid.cell_center(BlockId(1), [1]), [F(11.75)]);
}

#[test]
fn iteration_is_dimension_0_fastest() {
    assert_eq!(cells([2, 2]), vec![[0, 0], [1, 0], [0, 1], [1, 1]]);

    let mut boxed: Vec<[isize; 2]> = Vec::new();
    for_each_box([-1, 0], [1, 1], &mut boxed);
    assert_eq!(boxed, vec![[-1, 0], [0, 0]]);

    assert!(cells([0, 3]).is_empty(), "empty extent must not iterate");
    let mut none: Vec<[isize; 2]> = Vec::new();
    for_each_box([2, 0], [2, 5], &mut none);
    assert!(none.is_empty(), "empty box must not iterate");
}

/// One field of the given ghost width over two blocks of four cells, holding the
/// global cell index.
fn indexed(width: u32) -> (CartesianGrid<F, 1>, DenseState, FieldHandle<F>) {
    let grid = CartesianGrid::new([8], [4], [F(0.0)], [F(1.0)]).unwrap();
    let mut builder = StateBuilder::<F>::new();
    let u = builder.register("u", width);
    let mut state: DenseState = builder.build(&grid, &SystemAllocator);
    for b in 0..2 {
        let mut v = state.view_mut(&grid, BlockId(b), u);
        for [i] in cells([4]) {
            v.set([i], F((b as usize * 4 + i as usize) as f64));
        }
    }
    fill_ghosts_mirror(&grid, &mut state, u);
    (grid, state, u)
}

#[test]
fn halo_and_mirror_values_are_exact() {
    let (grid, state, u) = indexed(1);
    let v0 = state.view(&grid, BlockId(0), u);
    let v1 = state.view(&grid, BlockId(1), u);
    assert_eq!(v0.get([-1]), F(0.0));
    assert_eq!(v1.get([4]), F(7.0));
    assert_eq!(v0.get([4]), F(4.0));
    assert_eq!(v1.get([-1]), F(3.0));
}

#[test]
fn wide_ghosts_fill_every_layer() {
    let (grid, state, u) = indexed(2);
    let v0 = state.view(&grid, BlockId(0), u);
    assert_eq!(v0.get([-1]), F(0.0));
    assert_eq!(v0.get([-2]), F(1.0));
    assert_eq!(v0.get([4]), F(4.0));
    assert_eq!(v0.get([5]), F(5.0));
}

fn two_field_state() -> (CartesianGrid<F, 1>, DenseState, FieldHandle<F>, FieldHandle<F>) {
    let grid = CartesianGrid::new([4], [4], [F(0.0)], [F(1.0)]).unwrap();
    let mut builder = StateBuilder::<F>::new();
    let dynamic = builder.register("dyn", 0);
    let static_f = builder.register_static("static", 0);
    let mut state: DenseState = builder.build(&grid, &SystemAllocator);
    {
        let mut v = state.view_mut(&grid, BlockId(0), dynamic);
        for idx in cells([4]) {
            v.set(idx, F(1.0));
        }
    }
    {
        let mut v = state.view_mut(&grid, BlockId(0), static_f);
        for idx in cells([4]) {
            v.set(idx, F(5.0));
        }
    }
    (grid, state, dynamic, static_f)
}

#[test]
fn tendency_buffers_carry_no_static_storage() {
    let (grid, state, dynamic, static_f) = two_field_state();
    let tendency = state.like_tendency(&grid, &SystemAllocator);
    assert_eq!(tendency.slab(BlockId(0), static_f).len(), 0);
    assert_eq!(tendency.slab(BlockId(0), dynamic).len(), 4);
    let full = state.like(&grid, &SystemAllocator);
    assert_eq!(full.slab(BlockId(0), static_f).len(), 4);
}

#[test]
fn axpy_and_noise_skip_static_fields() {
    let (grid, mut state, dynamic, static_f) = two_field_state();
    let mut tendency = state.like_tendency(&grid, &SystemAllocator);
    tendency.slab_mut(BlockId(0), dynamic).fill(F(2.0));

    state.axpy(F(10.0), &tendency);
    {
        let vd = state.view(&grid, BlockId(0), dynamic);
        let vs = state.view(&grid, BlockId(0), static_f);
        for idx in cells([4]) {
            assert_eq!(vd.get(idx), F(21.0), "dynamic: 1 + 10 * 2");
            assert_eq!(vs.get(idx), F(5.0), "static fields must be skipped");
        }
    }

    let mut amp = state.like_tendency(&grid, &SystemAllocator);
    amp.slab_mut(BlockId(0), dynamic).fill(F(1.0));
    let before_static: Vec<F> = state.slab(BlockId(0), static_f).to_vec();
    let before_dynamic: Vec<F> = state.slab(BlockId(0), dynamic).to_vec();
    state.add_wiener(&grid, &amp, F(1.0), 42, 0, 0);
    assert_eq!(state.slab(BlockId(0), static_f), &before_static[..]);
    assert_ne!(state.slab(BlockId(0), dynamic), &before_dynamic[..]);
}

#[test]
fn zero_amplitude_entries_receive_no_noise() {
    let (grid, mut state, dynamic, _) = two_field_state();
    let amp = state.like_tendency(&grid, &SystemAllocator);
    let before: Vec<F> = state.slab(BlockId(0), dynamic).to_vec();
    state.add_wiener(&grid, &amp, F(1.0), 42, 0, 0);
    assert_eq!(state.slab(BlockId(0), dynamic), &before[..]);
}

#[test]
fn wiener_increments_broadcast_per_cell_across_fields() {
    let grid = CartesianGrid::new([4], [4], [F(0.0)], [F(1.0)]).unwrap();
    let mut builder = StateBuilder::<F>::new();
    let a = builder.register("a", 0);
    let b = builder.register("b", 2);
    let mut state: DenseState = builder.build(&grid, &SystemAllocator);

    let mut amp = state.like_tendency(&grid, &SystemAllocator);
    amp.slab_mut(BlockId(0), a).fill(F(1.0));
    amp.slab_mut(BlockId(0), b).fill(F(1.0));

    state.add_wiener(&grid, &amp, F(1.0), 42, 3, 0);
    let va = state.view(&grid, BlockId(0), a);
    let vb = state.view(&grid, BlockId(0), b);
    for idx in cells([4]) {
        assert_ne!(va.get(idx), F(0.0), "interior cells receive noise");
        assert_eq!(va.get(idx), vb.get(idx), "same increment on every field");
    }
    for k in [-2isize, -1, 4, 5] {
        assert_eq!(vb.get([k]), F(0.0), "ghost entries receive no noise");
    }

    let mut other = state.like(&grid, &SystemAllocator);
    other.fill_zero();
    other.add_wiener(&grid, &amp, F(1.0), 42, 3, 1);
    let vo = other.view(&grid, BlockId(0), a);
    let all_equal = cells([4]).into_iter().all(|idx| vo.get(idx) == va.get(idx));
    assert!(!all_equal, "drivers must have independent streams");
}

#[test]
fn view_split_borrows_both_orders() {
    let grid = CartesianGrid::new([2], [2], [F(0.0)], [F(1.0)]).unwrap();
    let mut builder = StateBuilder::<F>::new();
    let a = builder.register("a", 0);
    let b = builder.register("b", 0);
    let mut state: DenseState = builder.build(&grid, &SystemAllocator);
    state.slab_mut(BlockId(0), a).fill(F(1.0));
    state.slab_mut(BlockId(0), b).fill(F(2.0));

    let (layout, blocks) = state.split_blocks_mut();
    let mut block = blocks[0].bind_mut(layout);
    {
        let (mut wa, rb) = block.view_split(&grid, BlockId(0), a, b);
        wa.set([0], F(rb.get([0]).0 + 10.0));
    }
    {
        let (mut wb, ra) = block.view_split(&grid, BlockId(0), b, a);
        wb.set([1], F(ra.get([1]).0 + 100.0));
    }
    assert_eq!(state.view(&grid, BlockId(0), a).get([0]), F(12.0));
    assert_eq!(state.view(&grid, BlockId(0), b).get([1]), F(101.0));
}

#[test]
fn fill_zero_resets_every_slab() {
    let (grid, mut state, dynamic, static_f) = two_field_state();
    state.fill_zero();
    let vd = state.view(&grid, BlockId(0), dynamic);
    let vs = state.view(&grid, BlockId(0), static_f);
    for idx in cells([4]) {
        assert_eq!(vd.get(idx), F(0.0));
        assert_eq!(vs.get(idx), F(0.0));
    }
}
