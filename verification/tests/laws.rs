//! The library's general statements, on concrete values.

use legendre::discretization::finite_difference::FiniteDifference;
use legendre::discretization::finite_volume::KarmaRappelFlux;
use legendre::discretization::operators::{Discretizes, Laplacian};
use legendre::discretization::stencil::Stencil;
use legendre::engine::driver::Driver;
use legendre::engine::scheduler::{BlockTask, RayonScheduler, Scheduler, SerialScheduler};
use legendre::engine::scratch::{Scratch, ScratchPool, ScratchSpec};
use legendre::engine::state::{FieldHandle, State, StateBuilder};
use legendre::engine::storage::{
    Allocator, DenseStorage, Real, Scalar, StorageBackend, SystemAllocator,
};
use legendre::geometry::amr::cluster::CellBox;
use legendre::geometry::amr::grid::AmrGrid;
use legendre::geometry::amr::intergrid::fill_ghosts_mirror as amr_fill;
use legendre::geometry::amr::migrate::migrate;
use legendre::geometry::amr::restriction::restrict;
use legendre::geometry::amr::sync::synchronize;
use legendre::geometry::boundary::reflect_coord;
use legendre::geometry::cartesian::CartesianGrid;
use legendre::geometry::grid::{box_cell_key, BlockId, Grid};
use legendre::geometry::halo::fill_ghosts_mirror;
use legendre::geometry::sweep::fill_from_fn;
use legendre::geometry::view::{for_each_box, for_each_interior};
use legendre::integrators::imex::solve_tridiagonal;
use legendre::util::rng::{mix_key, splitmix64, standard_normal, unit_open};
use legendre::util::text::{push_decimal, push_padded};

#[derive(Debug, Clone, Copy, PartialEq, PartialOrd)]
struct F(f64);

impl Scalar for F {
    fn zero() -> Self {
        F(0.0)
    }
}

impl Real for F {
    fn add(self, other: Self) -> Self {
        F(self.0 + other.0)
    }
    fn sub(self, other: Self) -> Self {
        F(self.0 - other.0)
    }
    fn mul(self, other: Self) -> Self {
        F(self.0 * other.0)
    }
    fn div(self, other: Self) -> Self {
        F(self.0 / other.0)
    }
    fn lt(self, other: Self) -> bool {
        self.0 < other.0
    }
    fn le(self, other: Self) -> bool {
        self.0 <= other.0
    }
    fn neg(self) -> Self {
        F(-self.0)
    }
    fn sqrt(self) -> Self {
        F(self.0.sqrt())
    }
    fn abs(self) -> Self {
        F(self.0.abs())
    }
    fn ln(self) -> Self {
        F(self.0.ln())
    }
    fn cos(self) -> Self {
        F(self.0.cos())
    }
    fn exp_m1(self) -> Self {
        F(self.0.exp_m1())
    }
    fn max(self, other: Self) -> Self {
        F(self.0.max(other.0))
    }
    fn min(self, other: Self) -> Self {
        F(self.0.min(other.0))
    }
    fn powi(self, n: i32) -> Self {
        F(self.0.powi(n))
    }
    fn equals(self, other: Self) -> bool {
        self.0 == other.0
    }
    fn one() -> Self {
        F(1.0)
    }
    fn tau() -> Self {
        F(std::f64::consts::TAU)
    }
    fn mul_add(self, a: Self, b: Self) -> Self {
        F(self.0.mul_add(a.0, b.0))
    }
    fn is_finite(self) -> bool {
        self.0.is_finite()
    }
    fn half() -> Self {
        F(0.5)
    }
    fn round(self) -> Self {
        F(self.0.round())
    }
    fn exp(self) -> Self {
        F(self.0.exp())
    }
    fn sin(self) -> Self {
        F(self.0.sin())
    }
    fn tanh(self) -> Self {
        F(self.0.tanh())
    }
    fn hypot(self, other: Self) -> Self {
        F(self.0.hypot(other.0))
    }
    fn total_lt(self, other: Self) -> bool {
        self.0.total_cmp(&other.0).is_lt()
    }
    fn to_bits(self) -> u64 {
        self.0.to_bits()
    }
    fn to_u64(self) -> u64 {
        self.0 as u64
    }
    fn to_i64(self) -> i64 {
        self.0 as i64
    }
    fn infinity() -> Self {
        F(f64::INFINITY)
    }
    fn largest() -> Self {
        F(f64::MAX)
    }
    fn from_i64(x: i64) -> Self {
        F(x as f64)
    }
    fn from_u64(x: u64) -> Self {
        F(x as f64)
    }
}

fn cells<const D: usize>(interior: [usize; D]) -> Vec<[isize; D]> {
    let mut out = Vec::new();
    for_each_interior(interior, &mut out);
    out
}

type Dense = State<F, DenseStorage<F>>;

fn one_field<G: Grid<F, 2>>(grid: &G, ghost: u32) -> (Dense, FieldHandle<F>) {
    let mut builder = StateBuilder::<F>::new();
    let u = builder.register("u", ghost);
    let mut state: Dense = builder.build(grid, &SystemAllocator);
    for b in 0..grid.num_blocks() {
        for (i, v) in state.slab_mut(BlockId(b as u32), u).iter_mut().enumerate() {
            *v = F(((i * 31 + b * 57) % 97) as f64 * 0.125 - 3.0);
        }
    }
    (state, u)
}

fn interior_of<G: Grid<F, 2>>(grid: &G, state: &Dense, u: FieldHandle<F>) -> Vec<F> {
    let mut out = Vec::new();
    for b in 0..grid.num_blocks() {
        let block = BlockId(b as u32);
        let v = state.view(grid, block, u);
        for idx in cells(grid.block_extent(block)) {
            out.push(v.get(idx));
        }
    }
    out
}

fn square() -> CartesianGrid<F, 2> {
    CartesianGrid::new([8, 8], [4, 4], [F(0.0), F(0.0)], [F(0.5), F(0.5)]).unwrap()
}

fn two_levels() -> AmrGrid<F, 2> {
    AmrGrid::from_patches(
        square(),
        &[2],
        &[vec![
            CellBox { lo: [4, 4], hi: [8, 12] },
            CellBox { lo: [8, 4], hi: [12, 12] },
        ]],
    )
    .unwrap()
}

#[test]
fn splitmix_is_known_and_injective_on_a_sample() {
    assert_eq!(splitmix64(0), 0xE220_A839_7B1D_CDAF);
    let mut seen: Vec<u64> = (0..4096).map(splitmix64).collect();
    seen.sort_unstable();
    seen.dedup();
    assert_eq!(seen.len(), 4096);
}

#[test]
fn keys_depend_on_every_part() {
    let base = mix_key(7, &[1, 2, 3]);
    assert_eq!(base, mix_key(7, &[1, 2, 3]));
    for other in [mix_key(8, &[1, 2, 3]), mix_key(7, &[2, 2, 3]), mix_key(7, &[1, 2, 4])] {
        assert_ne!(base, other);
    }
}

#[test]
fn unit_draws_are_open_at_zero() {
    assert!(unit_open::<F>(0).0 > 0.0);
    assert!(unit_open::<F>(u64::MAX).0 <= 1.0);
    assert!(standard_normal::<F>(0).0.is_finite());
    assert!(standard_normal::<F>(u64::MAX).0.is_finite());
}

#[test]
fn driver_streams_are_pairwise_distinct() {
    let drivers = [
        Driver::Time,
        Driver::Wiener(0),
        Driver::Wiener(1),
        Driver::Wiener(1000),
        Driver::Jump(0),
        Driver::Jump(1),
        Driver::Jump(1000),
    ];
    for (i, a) in drivers.iter().enumerate() {
        for b in &drivers[i + 1..] {
            assert_ne!(a.stream(), b.stream(), "{a:?} and {b:?}");
        }
    }
}

#[test]
fn cell_ids_do_not_depend_on_the_ghost_width() {
    let ids = |ghost: u32| {
        let n = (3 + 2 * ghost as usize) * (2 + 2 * ghost as usize);
        (0..n).filter_map(|i| box_cell_key([3, 2], ghost, i)).collect::<Vec<u64>>()
    };
    assert_eq!(ids(0), vec![0, 1, 2, 3, 4, 5]);
    assert_eq!(ids(1), ids(0));
    assert_eq!(ids(2), ids(0));
}

#[test]
fn reflections_land_inside() {
    for c in -4..8 {
        let r = reflect_coord(c, 0, 4);
        assert!((0..4).contains(&r), "{c} -> {r}");
    }
    assert_eq!(reflect_coord(-1, 0, 4), 0);
    assert_eq!(reflect_coord(4, 0, 4), 3);
}

#[test]
fn box_walks_list_every_cell_once() {
    let mut seen: Vec<[isize; 2]> = Vec::new();
    for_each_box([-1, 2], [1, 4], &mut seen);
    assert_eq!(seen, vec![[-1, 2], [0, 2], [-1, 3], [0, 3]]);
    let mut none: Vec<[isize; 2]> = Vec::new();
    for_each_box([0, 0], [3, 0], &mut none);
    assert!(none.is_empty());
}

#[test]
fn face_neighbors_point_back() {
    let grid = square().with_periodic([true, false]);
    for b in 0..grid.num_blocks() {
        let block = BlockId(b as u32);
        for dim in 0..2 {
            for dir in [-1, 1] {
                if let Some(n) = grid.face_neighbor(block, dim, dir) {
                    assert_eq!(grid.face_neighbor(n, dim, -dir), Some(block));
                }
            }
        }
    }
    assert_eq!(grid.face_neighbor(BlockId(0), 1, -1), None);
}

#[test]
fn ghost_fills_keep_the_interior_and_repeat() {
    let grid = square();
    let (mut state, u) = one_field(&grid, 2);
    let before = interior_of(&grid, &state, u);
    fill_ghosts_mirror(&grid, &mut state, u);
    assert_eq!(interior_of(&grid, &state, u), before);
    let once: Vec<Vec<F>> =
        (0..4).map(|b| state.slab(BlockId(b), u).to_vec()).collect();
    fill_ghosts_mirror(&grid, &mut state, u);
    for (b, slab) in once.iter().enumerate() {
        assert_eq!(state.slab(BlockId(b as u32), u), &slab[..]);
    }
}

#[test]
fn hierarchy_ghosts_keep_the_interior_and_depend_on_it_alone() {
    let grid = two_levels();
    let (mut a, u) = one_field(&grid, 1);
    let before = interior_of(&grid, &a, u);
    let (mut b, _) = one_field(&grid, 1);
    for block in 0..grid.num_blocks() {
        let block = BlockId(block as u32);
        let ext = grid.block_extent(block);
        let mut v = b.view_mut(&grid, block, u);
        v.set([-1, 0], F(1e6));
        v.set([ext[0] as isize, 0], F(-1e6));
    }
    amr_fill(&grid, &mut a, u);
    amr_fill(&grid, &mut b, u);
    assert_eq!(interior_of(&grid, &a, u), before);
    for block in 0..grid.num_blocks() {
        let block = BlockId(block as u32);
        assert_eq!(a.slab(block, u), b.slab(block, u));
    }
}

#[test]
fn restriction_repeats_and_averages() {
    let grid = two_levels();
    let (mut state, u) = one_field(&grid, 1);
    restrict(&grid, &mut state, u);
    let once = interior_of(&grid, &state, u);
    let fine = grid.find_patch(1, [4, 4]).unwrap();
    let coarse = grid.find_patch(0, [2, 2]).unwrap();
    let vf = state.view(&grid, fine, u);
    let mean =
        (vf.get([0, 0]).0 + vf.get([1, 0]).0 + vf.get([0, 1]).0 + vf.get([1, 1]).0) / 4.0;
    assert_eq!(state.view(&grid, coarse, u).get([2, 2]), F(mean));
    restrict(&grid, &mut state, u);
    assert_eq!(interior_of(&grid, &state, u), once);
}

#[test]
fn synchronizing_is_restriction_and_then_filling() {
    let grid = two_levels();
    let (mut a, u) = one_field(&grid, 1);
    let (mut b, _) = one_field(&grid, 1);
    synchronize(&grid, &mut a, u);
    restrict(&grid, &mut b, u);
    amr_fill(&grid, &mut b, u);
    for block in 0..grid.num_blocks() {
        let block = BlockId(block as u32);
        assert_eq!(a.slab(block, u), b.slab(block, u));
    }
}

#[test]
fn level_zero_has_the_base_geometry() {
    let grid = two_levels();
    let base = square();
    assert_eq!(grid.num_blocks(), base.num_blocks() + 2);
    for b in 0..base.num_blocks() {
        let block = BlockId(b as u32);
        assert_eq!(grid.level(block), 0);
        assert_eq!(grid.block_extent(block), base.block_extent(block));
        assert_eq!(grid.spacing(block), base.spacing(block));
    }
    let flat = AmrGrid::from_patches(square(), &[2], &[]).unwrap();
    assert_eq!(flat.num_blocks(), base.num_blocks());
}

#[test]
fn only_populated_levels_count() {
    let empty = AmrGrid::from_patches(square(), &[2], &[vec![]]).unwrap();
    assert_eq!((empty.num_levels(), empty.max_levels()), (1, 2));
    let fine = vec![CellBox { lo: [4, 4], hi: [8, 12] }];
    let one = AmrGrid::from_patches(square(), &[2, 2, 2], &[fine, vec![], vec![]]).unwrap();
    assert_eq!((one.num_levels(), one.max_levels()), (2, 4));
    assert!(one.blocks_at(2).is_empty());
}

#[test]
fn boxes_without_cells_share_none() {
    let big = CellBox { lo: [0, 0], hi: [5, 5] };
    let empty = CellBox { lo: [2, 2], hi: [2, 2] };
    assert!(!empty.intersects(&big) && !big.intersects(&empty));
    assert!(big.intersects(&CellBox { lo: [4, 4], hi: [9, 9] }));
    assert!(!big.intersects(&CellBox { lo: [5, 0], hi: [9, 9] }));
    let inverted = CellBox { lo: [3, 0], hi: [1, 5] };
    assert_eq!((inverted.extent(0), inverted.extent(1), inverted.cells()), (0, 5, 0));
    assert!(!inverted.intersects(&big));
}

#[test]
fn anisotropy_has_fourfold_symmetry() {
    let flux = KarmaRappelFlux::new(F(0.0625), F(1e-8));
    let (a, e) = (0.8125, 0.1875 / 0.8125);
    let near = |x: f64, y: f64| (x - y).abs() < 1e-14;
    for k in 0..32 {
        let angle = std::f64::consts::TAU * k as f64 / 32.0;
        let (value, slope) = flux.face(F(3.0 * angle.cos()), F(3.0 * angle.sin()));
        assert!(near(value.0, a * (1.0 + e * (3.0 + (4.0 * angle).cos()) / 4.0)), "{k}");
        assert!(near(slope.0, -a * e * (4.0 * angle).sin()), "{k}");
    }
    assert!(near(flux.face(F(1.0), F(0.0)).0 .0, 1.0));
    assert!(near(flux.face(F(1.0), F(1.0)).0 .0, a * (1.0 + e / 2.0)));
    assert_eq!(flux.face(F(0.0), F(0.0)), (F(a), F(0.0)));
}

#[test]
fn dominant_rows_are_solved() {
    // (I - dt L) with rows -1, 4, -1 at dt = 1/2.
    let rows = vec![[F(2.0), F(-6.0), F(2.0)]; 5];
    let want = [1.0, -2.0, 3.0, 0.5, 4.0];
    let mut rhs: Vec<F> = (0..5)
        .map(|i| {
            let side = |j: usize| want.get(j).copied().unwrap_or(0.0);
            F(4.0 * want[i] - side(i.wrapping_sub(1)) - side(i + 1))
        })
        .collect();
    solve_tridiagonal(&rows, F(0.5), &mut rhs);
    for (got, want) in rhs.iter().zip(want) {
        assert!((got.0 - want).abs() < 1e-12);
    }
}

#[test]
fn transport_solves_keep_order_and_bounds() {
    let mut rows = vec![[F(3.0), F(-8.0), F(5.0)]; 6];
    rows[0] = [F(0.0), F(-5.0), F(5.0)];
    rows[5] = [F(3.0), F(-3.0), F(0.0)];
    let low = [1.0, -2.0, 3.0, 0.5, 4.0, -1.0];
    for dt in [0.0, 0.1, 1.0, 1e3] {
        let mut below: Vec<F> = low.iter().map(|&x| F(x)).collect();
        let mut above: Vec<F> =
            low.iter().enumerate().map(|(i, &x)| F(x + 0.25 * (i % 2) as f64)).collect();
        solve_tridiagonal(&rows, F(dt), &mut below);
        solve_tridiagonal(&rows, F(dt), &mut above);
        for (b, a) in below.iter().zip(&above) {
            assert!(b.0 <= a.0 + 1e-12);
            assert!((-2.0 - 1e-12..=4.0 + 1e-12).contains(&b.0));
        }
    }
}

#[test]
fn clones_are_equal() {
    let grid = two_levels();
    let copy = grid.clone();
    assert_eq!(copy.patches(), grid.patches());
    assert_eq!((copy.num_levels(), copy.ratios()), (grid.num_levels(), grid.ratios()));
    assert_eq!(copy.find_patch(1, [8, 4]), grid.find_patch(1, [8, 4]));
    let mut storage: DenseStorage<F> = SystemAllocator.allocate(3);
    storage.as_mut_slice()[1] = F(2.5);
    let kept = storage.clone();
    storage.as_mut_slice()[1] = F(7.0);
    assert_eq!(kept.as_slice(), &[F(0.0), F(2.5), F(0.0)]);
}

#[test]
fn every_cell_has_one_owner_on_its_level() {
    let grid = two_levels();
    for y in 0..16 {
        for x in 0..16 {
            let owners = grid
                .blocks_at(1)
                .iter()
                .filter(|&&b| grid.patch(b).bx.contains([x, y]))
                .count();
            assert!(owners <= 1);
            assert_eq!(grid.find_patch(1, [x, y]).is_some(), owners == 1);
        }
    }
    for y in 0..8 {
        for x in 0..8 {
            assert!(grid.find_patch(0, [x, y]).is_some());
        }
    }
}

#[test]
fn migration_copies_what_was_resolved() {
    let from = two_levels();
    let to = AmrGrid::from_patches(
        square(),
        &[2],
        &[vec![CellBox { lo: [6, 6], hi: [12, 10] }]],
    )
    .unwrap();
    let (old, u) = one_field(&from, 1);
    let mut new: Dense = old.reshaped(&to, &SystemAllocator);
    migrate(&from, &old, &to, &mut new);
    let block = to.find_patch(1, [6, 6]).unwrap();
    let v = new.view(&to, block, u);
    for y in 6..10i64 {
        for x in 6..12i64 {
            let owner = from.find_patch(1, [x, y]).unwrap();
            let lo = from.patch(owner).bx.lo;
            let was = old.view(&from, owner, u);
            assert_eq!(
                v.get([(x - 6) as isize, (y - 6) as isize]),
                was.get([(x - lo[0]) as isize, (y - lo[1]) as isize])
            );
        }
    }
}

#[test]
fn anisotropic_fluxes_telescope_on_a_periodic_grid() {
    let grid = CartesianGrid::new([8, 8], [4, 4], [F(0.0), F(0.0)], [F(0.5), F(0.5)])
        .unwrap()
        .with_periodic([true, true]);
    let mut builder = StateBuilder::<F>::new();
    let u = builder.register("u", 1);
    let mut state: Dense = builder.build(&grid, &SystemAllocator);
    fill_from_fn(&grid, &mut state, u, |[x, y]: [F; 2]| F((1.3 * x.0).sin() * (0.7 * y.0).cos()));
    fill_ghosts_mirror(&grid, &mut state, u);
    let mut out = state.like(&grid, &SystemAllocator);
    let flux = KarmaRappelFlux::new(F(0.06), F(1e-8));
    let mut sum = 0.0;
    let mut size = 0.0;
    for b in 0..4 {
        let block = BlockId(b);
        flux.apply(
            &grid,
            block,
            state.view(&grid, block, u),
            &mut out.view_mut(&grid, block, u),
        );
        let v = out.view(&grid, block, u);
        for idx in cells([4, 4]) {
            sum += v.get(idx).0;
            size += v.get(idx).0.abs();
        }
    }
    assert!(size > 1.0);
    assert!(sum.abs() < 1e-12 * size, "sum {sum} of {size}");
}

#[test]
fn mirrored_diffusion_keeps_the_total() {
    let grid = square();
    let (mut state, u) = one_field(&grid, 1);
    fill_ghosts_mirror(&grid, &mut state, u);
    let mut out = state.like(&grid, &SystemAllocator);
    let stencil = FiniteDifference.build(&grid, Laplacian);
    for b in 0..grid.num_blocks() {
        let block = BlockId(b as u32);
        let mut to = out.view_mut(&grid, block, u);
        stencil.apply(&grid, block, state.view(&grid, block, u), &mut to);
    }
    let rates = interior_of(&grid, &out, u);
    assert!(rates.iter().any(|r| r.0 != 0.0));
    // Eighths and a spacing of one half: the sum is exact in binary.
    assert_eq!(rates.iter().map(|r| r.0).sum::<f64>(), 0.0);
}

#[test]
fn static_fields_stay_under_drift_and_noise() {
    let grid = CartesianGrid::new([4], [4], [F(0.0)], [F(1.0)]).unwrap();
    let mut builder = StateBuilder::<F>::new();
    let x = builder.register_driven("x", 0, &[Driver::Time, Driver::Wiener(0)]);
    let fixed = builder.register_static("fixed", 1);
    let mut state: Dense = builder.build(&grid, &SystemAllocator);
    state.slab_mut(BlockId(0), fixed).fill(F(2.5));
    let mut drift = state.like_for(&grid, &SystemAllocator, Driver::Time);
    drift.slab_mut(BlockId(0), x).fill(F(4.0));
    let mut noise = state.like_for(&grid, &SystemAllocator, Driver::Wiener(0));
    noise.slab_mut(BlockId(0), x).fill(F(1.0));
    assert_eq!(drift.slab(BlockId(0), fixed).len(), 0);

    state.axpy(F(0.5), &drift);
    assert_eq!(state.slab(BlockId(0), x), &[F(2.0); 4]);
    state.add_wiener(&grid, &noise, F(0.1), 7, 3, 0);
    assert_ne!(state.slab(BlockId(0), x), &[F(2.0); 4]);
    assert_eq!(state.slab(BlockId(0), fixed), &[F(2.5); 6]);
}

/// Marks a block's item with its own index.
struct Mark;

impl BlockTask<u64, Vec<u64>> for Mark {
    fn run(&self, block: BlockId, item: &mut u64, scratch: &mut Vec<u64>) {
        scratch.push(*item);
        *item += 1000 + block.index() as u64;
    }
}

#[test]
fn schedulers_run_every_block_once() {
    let expected: Vec<u64> = (0..500u64).map(|i| i * 7 + 1000 + i).collect();
    let mut serial: Vec<u64> = (0..500).map(|i| i * 7).collect();
    let mut parallel = serial.clone();
    SerialScheduler.for_each_block_mut(&mut serial, Vec::new, &Mark);
    RayonScheduler.for_each_block_mut(&mut parallel, Vec::new, &Mark);
    assert_eq!(serial, expected);
    assert_eq!(parallel, expected);
    assert_eq!(SerialScheduler.max_concurrency(), 1);
    assert!(RayonScheduler.max_concurrency() >= 1);
}

#[test]
fn pool_hands_out_each_instance_once() {
    let spec = ScratchSpec { slabs: 2, slab_len: 3 };
    let pool: ScratchPool<F, DenseStorage<F>> = ScratchPool::allocate(spec, &SystemAllocator, 2);
    let mut a = pool.checkout(&SystemAllocator);
    let b = pool.checkout(&SystemAllocator);
    let extra = pool.checkout(&SystemAllocator);
    assert_eq!((a.slot, b.slot, extra.slot), (Some(0), Some(1), None));
    assert!(extra.scratch.serves(spec));
    a.scratch.slab_mut(1)[2] = F(5.0);
    pool.give_back(a);
    let mut again = pool.checkout(&SystemAllocator);
    assert_eq!(again.slot, Some(0));
    assert_eq!(again.scratch.slab_mut(1), &[F(0.0), F(0.0), F(5.0)]);
    assert_eq!(again.scratch.slabs_mut().len(), 2);

    let narrow: Scratch<F, DenseStorage<F>> =
        Scratch::allocate(ScratchSpec { slabs: 1, slab_len: 3 }, &SystemAllocator);
    assert!(!narrow.serves(spec));
    assert!(narrow.serves(ScratchSpec { slabs: 1, slab_len: 3 }));
}

#[test]
fn numbers_are_written_in_decimal() {
    let mut s = String::from("n");
    push_decimal(&mut s, 0);
    push_decimal(&mut s, 1_234_567_890);
    push_padded(&mut s, 42, 5);
    push_padded(&mut s, 123_456, 3);
    assert_eq!(s, "n01234567890".to_string() + "00042" + "123456");
}

#[test]
fn slab_pairs_are_two_blocks_of_one_field() {
    let grid = CartesianGrid::new([6], [2], [F(0.0)], [F(1.0)]).unwrap();
    let mut builder = StateBuilder::<F>::new();
    let x = builder.register("x", 0);
    let mut state: Dense = builder.build(&grid, &SystemAllocator);
    for b in 0..3 {
        state.slab_mut(BlockId(b), x).fill(F(b as f64));
    }
    {
        let (to, from) = state.slab_pair_mut(BlockId(2), BlockId(0), x);
        assert_eq!((to[0], from[0]), (F(2.0), F(0.0)));
        to[1] = F(7.0);
    }
    assert_eq!(state.slab(BlockId(2), x), &[F(2.0), F(7.0)]);
    assert_eq!(state.slab(BlockId(0), x), &[F(0.0), F(0.0)]);
    state.fill_zero_with(&RayonScheduler);
    for b in 0..3 {
        assert_eq!(state.slab(BlockId(b), x), &[F(0.0), F(0.0)]);
    }
}

#[test]
fn scheduled_noise_equals_serial_noise() {
    let grid = CartesianGrid::new([64], [8], [F(0.0)], [F(1.0)]).unwrap();
    let mut builder = StateBuilder::<F>::new();
    let x = builder.register_driven("x", 1, &[Driver::Wiener(0), Driver::Jump(0)]);
    let mut a: Dense = builder.build(&grid, &SystemAllocator);
    let mut b = a.like(&grid, &SystemAllocator);
    let mut noise = a.like_for(&grid, &SystemAllocator, Driver::Wiener(0));
    for block in 0..8 {
        noise.slab_mut(BlockId(block), x).fill(F(0.5));
    }
    a.add_wiener(&grid, &noise, F(0.1), 7, 3, 0);
    b.add_wiener_with(&RayonScheduler, &grid, &noise, F(0.1), 7, 3, 0);
    for block in 0..8 {
        assert_eq!(a.slab(BlockId(block), x), b.slab(BlockId(block), x));
        assert_eq!(a.slab(BlockId(block), x)[0], F(0.0), "ghosts receive no noise");
        assert_ne!(a.slab(BlockId(block), x)[1], F(0.0));
    }
    a.apply_driver(&grid, &noise, Driver::Wiener(0), F(0.1), 7, 4);
    b.apply_driver_with(&RayonScheduler, &grid, &noise, Driver::Wiener(0), F(0.1), 7, 4);
    for block in 0..8 {
        assert_eq!(a.slab(BlockId(block), x), b.slab(BlockId(block), x));
    }
}

#[test]
fn hierarchies_know_how_deep_they_may_grow() {
    let grid = two_levels();
    assert_eq!(grid.num_levels(), 2);
    assert_eq!(grid.max_levels(), 2);
    let deep = AmrGrid::from_patches(square(), &[2, 4], &[]).unwrap();
    assert_eq!((deep.num_levels(), deep.max_levels()), (1, 3));
    assert_eq!(deep.spacing_at_level(2), [F(0.0625), F(0.0625)]);
    assert_eq!(deep.level_domain(2), CellBox { lo: [0, 0], hi: [64, 64] });
}
