//! Index boxes, clustering, refined-grid construction, boundary formulas and the
//! counter-based generator.

use std::collections::HashSet;

use legendre::engine::storage::{Real, Scalar};
use legendre::geometry::amr::cluster::{cluster, CellBox, ClusterParams};
use legendre::geometry::amr::grid::AmrGrid;
use legendre::geometry::boundary::{reflect_coord, FaceBc};
use legendre::geometry::cartesian::CartesianGrid;
use legendre::geometry::error::GridError;
use legendre::geometry::grid::{BlockId, Grid};
use legendre::util::rng::{mix_key, splitmix64, standard_normal};

#[derive(Debug, Clone, Copy, PartialEq, PartialOrd)]
struct F(f64);

impl Scalar for F {
    fn zero() -> Self {
        F(0.0)
    }
}

impl Real for F {
    fn add(self, other: Self) -> Self {
        F(self.0 + other.0)
    }
    fn sub(self, other: Self) -> Self {
        F(self.0 - other.0)
    }
    fn mul(self, other: Self) -> Self {
        F(self.0 * other.0)
    }
    fn div(self, other: Self) -> Self {
        F(self.0 / other.0)
    }
    fn lt(self, other: Self) -> bool {
        self.0 < other.0
    }
    fn le(self, other: Self) -> bool {
        self.0 <= other.0
    }
    fn neg(self) -> Self {
        F(-self.0)
    }
    fn sqrt(self) -> Self {
        F(self.0.sqrt())
    }
    fn abs(self) -> Self {
        F(self.0.abs())
    }
    fn ln(self) -> Self {
        F(self.0.ln())
    }
    fn cos(self) -> Self {
        F(self.0.cos())
    }
    fn exp_m1(self) -> Self {
        F(self.0.exp_m1())
    }
    fn max(self, other: Self) -> Self {
        F(self.0.max(other.0))
    }
    fn min(self, other: Self) -> Self {
        F(self.0.min(other.0))
    }
    fn powi(self, n: i32) -> Self {
        F(self.0.powi(n))
    }
    fn equals(self, other: Self) -> bool {
        self.0 == other.0
    }
    fn one() -> Self {
        F(1.0)
    }
    fn tau() -> Self {
        F(std::f64::consts::TAU)
    }
    fn mul_add(self, a: Self, b: Self) -> Self {
        F(self.0.mul_add(a.0, b.0))
    }
    fn is_finite(self) -> bool {
        self.0.is_finite()
    }
    fn half() -> Self {
        F(0.5)
    }
    fn round(self) -> Self {
        F(self.0.round())
    }
    fn exp(self) -> Self {
        F(self.0.exp())
    }
    fn sin(self) -> Self {
        F(self.0.sin())
    }
    fn tanh(self) -> Self {
        F(self.0.tanh())
    }
    fn hypot(self, other: Self) -> Self {
        F(self.0.hypot(other.0))
    }
    fn total_lt(self, other: Self) -> bool {
        self.0.total_cmp(&other.0).is_lt()
    }
    fn to_bits(self) -> u64 {
        self.0.to_bits()
    }
    fn to_u64(self) -> u64 {
        self.0 as u64
    }
    fn to_i64(self) -> i64 {
        self.0 as i64
    }
    fn infinity() -> Self {
        F(f64::INFINITY)
    }
    fn largest() -> Self {
        F(f64::MAX)
    }
    fn from_i64(x: i64) -> Self {
        F(x as f64)
    }
    fn from_u64(x: u64) -> Self {
        F(x as f64)
    }
}

/// Flags from rows of text, one character per cell.
fn art(rows: &[&str]) -> Vec<[i64; 2]> {
    let mut flags = Vec::new();
    for (y, row) in rows.iter().enumerate() {
        for (x, c) in row.chars().enumerate() {
            if c == 'x' {
                flags.push([x as i64, y as i64]);
            }
        }
    }
    flags
}

fn total_cells(boxes: &[CellBox<2>]) -> u64 {
    boxes.iter().map(CellBox::cells).sum()
}

/// Pairwise disjoint boxes covering every flag.
fn assert_cover_disjoint<const D: usize>(flags: &[[i64; D]], boxes: &[CellBox<D>]) {
    for f in flags {
        let n = boxes.iter().filter(|b| b.contains(*f)).count();
        assert_eq!(n, 1, "flag {f:?} covered by {n} boxes");
    }
    for (i, a) in boxes.iter().enumerate() {
        for b in &boxes[i + 1..] {
            assert!(!a.intersects(b), "boxes overlap: {a:?} {b:?}");
        }
    }
}

fn params(efficiency: f64, min_width: usize) -> ClusterParams<F> {
    ClusterParams { efficiency: F(efficiency), min_width }
}

#[test]
fn dense_rectangle_is_one_full_box() {
    let mut flags = art(&["xxxx", "xxxx", "xxxx"]);
    let boxes = cluster(&mut flags, &ClusterParams::<F>::default());
    assert_eq!(boxes, vec![CellBox { lo: [0, 0], hi: [4, 3] }]);
    assert_cover_disjoint(&flags, &boxes);
}

#[test]
fn islands_split_at_holes() {
    let mut flags = art(&["xx....xxx", "xx....xxx", "......xxx"]);
    let boxes = cluster(&mut flags, &ClusterParams::<F>::default());
    assert_eq!(boxes.len(), 2, "{boxes:?}");
    assert_cover_disjoint(&flags, &boxes);
    assert_eq!(total_cells(&boxes), flags.len() as u64);
}

#[test]
fn l_shape_splits_at_inflection() {
    let mut flags = art(&["xx......", "xx......", "xx......", "xx......", "xxxxxxxx", "xxxxxxxx"]);
    let n = flags.len() as u64;
    let boxes = cluster(&mut flags, &params(0.95, 2));
    assert_cover_disjoint(&flags, &boxes);
    assert_eq!(total_cells(&boxes), n, "L must be covered exactly: {boxes:?}");
    assert_eq!(boxes.len(), 2, "{boxes:?}");
}

#[test]
fn v_shape_is_covered_efficiently() {
    let mut flags = art(&["x.....x", "x.....x", ".x...x.", ".x...x.", "..x.x..", "..xxx.."]);
    let n = flags.len();
    let boxes = cluster(&mut flags, &params(0.7, 1));
    assert_cover_disjoint(&flags, &boxes);
    let eff = n as f64 / total_cells(&boxes) as f64;
    assert!(eff >= 0.7, "V-shape efficiency {eff:.2} with {boxes:?}");
}

fn boxes_flags<const D: usize>(flags: &[[i64; D]], b: &CellBox<D>) -> usize {
    flags.iter().filter(|f| b.contains(**f)).count()
}

#[test]
fn diagonal_stripe_bisects_past_the_anomaly() {
    let mut flags: Vec<[i64; 2]> = (0..8).map(|i| [i, i]).collect();
    let boxes = cluster(&mut flags, &params(0.8, 1));
    assert_cover_disjoint(&flags, &boxes);
    let eff = flags.len() as f64 / total_cells(&boxes) as f64;
    assert!(eff >= 0.8, "diagonal efficiency {eff:.2} with {boxes:?}");

    let mut flags: Vec<[i64; 2]> = (0..8).map(|i| [i, i]).collect();
    let boxes = cluster(&mut flags, &params(0.8, 2));
    assert_cover_disjoint(&flags, &boxes);
    for b in &boxes {
        let eff = boxes_flags(&flags, b) as f64 / b.cells() as f64;
        assert!(eff >= 0.5, "box {b:?} efficiency {eff:.2}");
    }
}

#[test]
fn three_dimensional_islands() {
    let mut flags = Vec::new();
    for x in 0..2 {
        for y in 0..2 {
            for z in 0..2 {
                flags.push([x, y, z]);
                flags.push([x, y, z + 6]);
            }
        }
    }
    let boxes = cluster(&mut flags, &ClusterParams::<F>::default());
    assert_eq!(boxes.len(), 2, "{boxes:?}");
    assert_cover_disjoint(&flags, &boxes);
    assert_eq!(boxes.iter().map(CellBox::cells).sum::<u64>(), 16);
}

#[test]
fn output_is_independent_of_input_order() {
    let flags = art(&["xx....xxx", "xx..x.xxx", "....x.xxx"]);
    let mut a = flags.clone();
    let mut b = flags;
    let n = b.len();
    for i in (1..n).rev() {
        let j = (splitmix64(mix_key(9, &[i as u64])) % (i as u64 + 1)) as usize;
        b.swap(i, j);
    }
    let mut boxes_a = cluster(&mut a, &params(0.8, 1));
    let mut boxes_b = cluster(&mut b, &params(0.8, 1));
    boxes_a.sort_unstable_by_key(|b| (b.lo, b.hi));
    boxes_b.sort_unstable_by_key(|b| (b.lo, b.hi));
    assert_eq!(boxes_a, boxes_b);
}

#[test]
fn grown_and_clipped_boxes() {
    let b = CellBox { lo: [2, 2], hi: [4, 4] };
    let domain = CellBox { lo: [0, 0], hi: [5, 5] };
    assert_eq!(b.grown(2).clipped(&domain), CellBox { lo: [0, 0], hi: [5, 5] });
    assert_eq!(b.grown(1), CellBox { lo: [1, 1], hi: [5, 5] });
    let far = CellBox { lo: [10, 10], hi: [12, 12] };
    assert_eq!(far.clipped(&domain).cells(), 0);
}

#[test]
fn empty_input_yields_no_boxes() {
    let boxes = cluster::<F, 2>(&mut [], &ClusterParams::default());
    assert!(boxes.is_empty());
}

fn base_8x8() -> CartesianGrid<F, 2> {
    CartesianGrid::new([8, 8], [4, 4], [F(0.0), F(0.0)], [F(0.5), F(0.5)]).unwrap()
}

#[test]
fn level_zero_mirrors_the_base_tiling() {
    let amr = AmrGrid::from_patches(base_8x8(), &[], &[]).unwrap();
    assert_eq!(amr.num_blocks(), 4);
    assert_eq!(amr.num_levels(), 1);
    let base = base_8x8();
    for b in 0..4 {
        let block = BlockId(b);
        assert_eq!(amr.level(block), 0);
        assert_eq!(amr.spacing(block), base.spacing(block));
        assert_eq!(amr.block_len(block, 1), base.block_len(block, 1));
        assert_eq!(amr.cell_center(block, [1, 2]), base.cell_center(block, [1, 2]));
    }
}

#[test]
fn fine_patch_geometry_nests_in_the_coarse_cells() {
    let fine = CellBox { lo: [4, 4], hi: [12, 12] };
    let amr = AmrGrid::from_patches(base_8x8(), &[2], &[vec![fine]]).unwrap();
    assert_eq!(amr.num_blocks(), 5);
    let fb = BlockId(4);
    assert_eq!(amr.level(fb), 1);
    assert_eq!(amr.spacing(fb), [F(0.25), F(0.25)]);
    assert_eq!(amr.block_len(fb, 1), 10 * 10);
    let coarse_center = amr.base().cell_center(BlockId(0), [2, 2]);
    let f0 = amr.cell_center(fb, [0, 0]);
    let f1 = amr.cell_center(fb, [1, 1]);
    for d in 0..2 {
        assert!((coarse_center[d].0 - 0.5 * (f0[d].0 + f1[d].0)).abs() <= 1e-14);
    }
}

#[test]
fn construction_rejects_invalid_hierarchies() {
    let overlap = vec![
        CellBox { lo: [4, 4], hi: [10, 10] },
        CellBox { lo: [8, 8], hi: [12, 12] },
    ];
    assert!(matches!(
        AmrGrid::from_patches(base_8x8(), &[2], &[overlap]),
        Err(GridError::AmrOverlap { level: 1 })
    ));
    let at_edge = vec![CellBox { lo: [0, 0], hi: [8, 8] }];
    assert!(AmrGrid::from_patches(base_8x8(), &[2], &[at_edge]).is_ok());
    let l1 = vec![CellBox { lo: [4, 4], hi: [12, 12] }];
    let l2_bad = vec![CellBox { lo: [8, 8], hi: [16, 16] }];
    assert!(matches!(
        AmrGrid::from_patches(base_8x8(), &[2, 2], &[l1.clone(), l2_bad]),
        Err(GridError::AmrNotNested { level: 2 })
    ));
    let l2_good = vec![CellBox { lo: [10, 10], hi: [18, 18] }];
    assert!(AmrGrid::from_patches(base_8x8(), &[2, 2], &[l1, l2_good]).is_ok());
    assert!(matches!(
        AmrGrid::from_patches(base_8x8(), &[1], &[vec![CellBox { lo: [0, 0], hi: [4, 4] }]]),
        Err(GridError::AmrRatio { .. })
    ));
    assert!(matches!(
        AmrGrid::from_patches(base_8x8(), &[], &[vec![CellBox { lo: [0, 0], hi: [4, 4] }]]),
        Err(GridError::AmrRatio { .. })
    ));
}

#[test]
fn out_of_domain_patch_is_rejected() {
    let outside = vec![CellBox { lo: [12, 12], hi: [20, 20] }];
    assert!(matches!(
        AmrGrid::from_patches(base_8x8(), &[2], &[outside]),
        Err(GridError::AmrNotNested { level: 1 })
    ));
}

#[test]
fn cell_keys_enumerate_the_interior_uniquely() {
    let fine = CellBox { lo: [4, 4], hi: [10, 8] };
    let amr = AmrGrid::from_patches(base_8x8(), &[2], &[vec![fine]]).unwrap();
    let block = BlockId(4);
    let ghost = 1;
    let len = amr.block_len(block, ghost);
    let mut seen = HashSet::new();
    for off in 0..len {
        if let Some(k) = amr.cell_key(block, ghost, off) {
            assert!(seen.insert(k), "duplicate cell key {k}");
            assert!(k < 24, "key {k} out of interior range");
        }
    }
    assert_eq!(seen.len(), 24, "every interior cell keyed exactly once");
}

#[test]
fn reflect_coord_matches_hand_math() {
    let n = 5;
    assert_eq!(reflect_coord(-1, 0, n), 0);
    assert_eq!(reflect_coord(-2, 0, n), 1);
    assert_eq!(reflect_coord(-3, 0, n), 2);
    assert_eq!(reflect_coord(n, 0, n), n - 1);
    assert_eq!(reflect_coord(n + 1, 0, n), n - 2);
    assert_eq!(reflect_coord(2, 0, n), 2);
}

#[test]
fn mirror_is_flux_zero() {
    let interior = |j: i64| F(1.25 + j as f64);
    assert_eq!(FaceBc::Mirror.ghost_value(0, F(0.4), interior), interior(0));
    assert_eq!(FaceBc::Flux(F(0.0)).ghost_value(2, F(0.4), interior), interior(2));
}

#[test]
fn dirichlet_puts_value_on_the_face() {
    let edge = 0.3_f64;
    let value = 2.0_f64;
    let ghost = FaceBc::Dirichlet(F(value)).ghost_value(0, F(0.4), |_| F(edge)).0;
    assert!((0.5 * (ghost + edge) - value).abs() < 1e-15);
}

#[test]
fn flux_sets_the_normal_gradient() {
    let edge = 0.3_f64;
    let (g, h) = (1.5_f64, 0.4_f64);
    let ghost = FaceBc::Flux(F(g)).ghost_value(0, F(h), |_| F(edge)).0;
    assert!(((ghost - edge) / h - g).abs() < 1e-15);
}

#[test]
fn extrapolate_continues_the_line() {
    let (edge, slope) = (2.0_f64, 0.5_f64);
    let interior = |j: i64| F(edge - slope * j as f64);
    for k in 0..3 {
        let ghost = FaceBc::Extrapolate.ghost_value(k, F(0.4), interior).0;
        assert!((ghost - (edge + slope * (k + 1) as f64)).abs() < 1e-15);
    }
}

#[test]
fn deterministic_and_key_sensitive() {
    let k = mix_key(42, &[7, 3, 1, 999]);
    let at = |key: u64| standard_normal::<F>(key);
    assert_eq!(at(k), at(k));
    assert_ne!(at(k), at(k ^ 1));
}

#[test]
fn moments_are_standard_normal() {
    let n = 200_000;
    let (mut sum, mut sum2) = (0.0, 0.0);
    for i in 0..n {
        let x = standard_normal::<F>(mix_key(1234, &[i])).0;
        sum += x;
        sum2 += x * x;
    }
    let mean = sum / n as f64;
    let var = sum2 / n as f64 - mean * mean;
    assert!(mean.abs() < 0.01, "mean {mean}");
    assert!((var - 1.0).abs() < 0.02, "var {var}");
}
