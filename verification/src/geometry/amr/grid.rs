//! The patch hierarchy behind the [`Grid`] trait.
//!
//! An [`AmrGrid`] is a flat forest of axis-aligned patches: level 0 is exactly
//! the base grid's block tiling, finer levels are [`CellBox`]es of uniform
//! cells whose spacing shrinks by the refinement ratio. Every patch is a block
//! (level-major), and views are the plain box views.
//!
//! Invariants, established at construction: same-level patches never overlap;
//! patches lie in the domain and on faces of the level below; and every refined
//! patch, coarsened and grown by one cell, lies in the union of the level
//! below, except at the physical boundary.

use vstd::prelude::*;

use crate::engine::storage::Real;
use crate::geometry::amr::cluster::{scans_first, CellBox};
use crate::geometry::amr::walk::{
    covered_by, div_floor, domain_offset, nonempty, paint, some_box_has,
};
use crate::geometry::cartesian::CartesianGrid;
use crate::geometry::error::GridError;
use crate::geometry::grid::{BlockId, Grid};
use crate::geometry::index::{
    array_of, delin, in_ext, ints, isizes, lemma_array_of, lemma_lin_bounds, lemma_lin_delin,
    lemma_lin_step, lemma_take_zero, lemma_volume_positive, lemma_volume_prefix, lin, positive,
    usizes, volume,
};
use crate::util::frozen::{frozen, thawed};

verus! {

/// One patch of the hierarchy: a box of uniform cells at one level.
#[derive(Debug, Clone, Copy, PartialEq, Eq)]
pub struct AmrPatch<const D: usize> {
    /// Refinement level (0 = base).
    pub level: u8,
    /// Cell box in *this level's* index space.
    pub bx: CellBox<D>,
}

impl<const D: usize> AmrPatch<D> {
    /// Interior cells per dimension.
    pub fn extent(&self) -> (r: [usize; D])
        requires
            nonempty(self.bx),
            self.bx.spans_fit(),
            forall|d: int| 0 <= d < D ==> (#[trigger] self.bx.hi[d]) - self.bx.lo[d] <= usize::MAX,
        ensures
            usizes(r) == self.bx.widths(),
    {
        let mut out = [0usize; D];
        let mut d: usize = 0;
        while d < D
            invariant
                d <= D,
                nonempty(self.bx),
                self.bx.spans_fit(),
                forall|e: int|
                    0 <= e < D ==> (#[trigger] self.bx.hi[e]) - self.bx.lo[e] <= usize::MAX,
                forall|e: int| 0 <= e < d ==> #[trigger] out[e] == self.bx.width(e),
            decreases D - d,
        {
            assert(self.bx.lo[d as int] < self.bx.hi[d as int]);
            assert(self.bx.hi[d as int] - self.bx.lo[d as int] <= usize::MAX);
            out[d] = self.bx.extent(d) as usize;
            d += 1;
        }
        assert(usizes(out) =~= self.bx.widths());
        out
    }
}

/// Product of the first `level` refinement ratios.
pub open spec fn scale(ratios: Seq<u32>, level: nat) -> int
    decreases level,
{
    if level == 0 {
        1
    } else {
        scale(ratios, (level - 1) as nat) * ratios[level - 1]
    }
}

/// Cells per dimension of the whole domain at one level's resolution.
pub open spec fn level_cells(cells: Seq<int>, ratios: Seq<u32>, level: nat) -> Seq<int> {
    Seq::new(cells.len(), |d: int| cells[d] * scale(ratios, level))
}

/// The box lies in a domain that starts at the origin.
pub open spec fn within<const D: usize>(bx: CellBox<D>, cells: Seq<int>) -> bool {
    forall|d: int| 0 <= d < D ==> 0 <= #[trigger] bx.lo[d] <= bx.hi[d] <= cells[d]
}

/// The box's faces lie on faces of the next coarser level.
pub open spec fn aligned<const D: usize>(bx: CellBox<D>, r: int) -> bool {
    forall|d: int| 0 <= d < D ==> (#[trigger] bx.lo[d]) as int % r == 0 && bx.hi[d] as int % r == 0
}

/// The coarse cell lies in the box coarsened by `r` and grown by one cell, and
/// in the coarse domain.
pub open spec fn in_margin<const D: usize>(
    bx: CellBox<D>,
    r: int,
    coarse: Seq<int>,
    c: [i64; D],
) -> bool {
    forall|d: int|
        0 <= d < D ==> {
            &&& 0 <= #[trigger] c[d] < coarse[d]
            &&& bx.lo[d] as int / r - 1 <= c[d]
            &&& c[d] < (bx.hi[d] + r - 1) / r + 1
        }
}

/// Proper nesting of a refined box: its coarsened, grown image lies in the
/// union of the boxes of the level below.
pub open spec fn nested<const D: usize>(
    bx: CellBox<D>,
    r: int,
    coarse: Seq<int>,
    coarser: Seq<CellBox<D>>,
) -> bool {
    forall|c: [i64; D]| #[trigger] in_margin(bx, r, coarse, c) ==> some_box_has(coarser, c)
}

/// What is wrong with box `i` of refined level `l + 1`, if anything. Level 0
/// tiles the domain, so boxes of level 1 are nested without further ado.
pub open spec fn box_error<R, const D: usize>(
    cells: Seq<int>,
    ratios: Seq<u32>,
    levels: Seq<Seq<CellBox<D>>>,
    l: int,
    i: int,
) -> Option<GridError<R>> {
    let bx = levels[l][i];
    let level = (l + 1) as u8;
    let r = ratios[l] as int;
    if bx.count() == 0 {
        Some(GridError::AmrEmptyPatch { level })
    } else if !within(bx, level_cells(cells, ratios, (l + 1) as nat)) {
        Some(GridError::AmrNotNested { level })
    } else if !aligned(bx, r) {
        Some(GridError::AmrMisaligned { level })
    } else if exists|j: int| 0 <= j < i && bx.meets(#[trigger] levels[l][j]) {
        Some(GridError::AmrOverlap { level })
    } else if l > 0 && !nested(bx, r, level_cells(cells, ratios, l as nat), levels[l - 1]) {
        Some(GridError::AmrNotNested { level })
    } else {
        None
    }
}

/// The ratio list allows `n` refined levels.
pub open spec fn ratios_ok(ratios: Seq<u32>, n: nat) -> bool {
    n <= ratios.len() && forall|k: int| 0 <= k < ratios.len() ==> #[trigger] ratios[k] >= 2
}

/// Level domains up to level `n` fit machine integers, with room to round up
/// to the next coarse face.
pub open spec fn levels_fit(cells: Seq<int>, ratios: Seq<u32>, n: nat) -> bool {
    forall|l: nat|
        l <= n ==> volume(#[trigger] level_cells(cells, ratios, l)) <= usize::MAX && (forall|d: int|
            0 <= d < cells.len() ==> (#[trigger] level_cells(cells, ratios, l)[d]) + 0x1_0000_0000
                <= i64::MAX)
}

/// The sequence without its trailing empty levels.
pub open spec fn trimmed<A>(s: Seq<Seq<A>>) -> Seq<Seq<A>>
    decreases s.len(),
{
    if s.len() > 0 && s.last().len() == 0 {
        trimmed(s.drop_last())
    } else {
        s
    }
}

pub proof fn lemma_trimmed<A>(s: Seq<Seq<A>>)
    ensures
        trimmed(s).len() <= s.len(),
        trimmed(s) == s.take(trimmed(s).len() as int),
        trimmed(s).len() > 0 ==> trimmed(s).last().len() > 0,
        trimmed(trimmed(s)) == trimmed(s),
        forall|l: int| trimmed(s).len() <= l < s.len() ==> (#[trigger] s[l]).len() == 0,
    decreases s.len(),
{
    if s.len() > 0 && s.last().len() == 0 {
        let t = s.drop_last();
        lemma_trimmed(t);
        let n = trimmed(t).len() as int;
        assert(t.take(n) =~= s.take(n));
        assert forall|l: int| n <= l < s.len() implies (#[trigger] s[l]).len() == 0 by {
            if l < t.len() {
                assert(s[l] == t[l]);
            }
        }
    } else {
        assert(s.take(s.len() as int) =~= s);
    }
}

/// Total number of boxes of the first `n` refined levels.
pub open spec fn boxes_below<const D: usize>(levels: Seq<Seq<CellBox<D>>>, n: int) -> int
    decreases n,
{
    if n <= 0 {
        0
    } else {
        boxes_below(levels, n - 1) + levels[n - 1].len()
    }
}

/// The boxes of the refined levels.
pub open spec fn level_views<const D: usize>(levels: Seq<Vec<CellBox<D>>>) -> Seq<Seq<CellBox<D>>> {
    Seq::new(levels.len(), |l: int| levels[l]@)
}

pub proof fn lemma_scale_positive(ratios: Seq<u32>, level: nat)
    requires
        level <= ratios.len(),
        forall|k: int| 0 <= k < ratios.len() ==> #[trigger] ratios[k] >= 2,
    ensures
        scale(ratios, level) >= 1,
    decreases level,
{
    if level > 0 {
        lemma_scale_positive(ratios, (level - 1) as nat);
        let a = scale(ratios, (level - 1) as nat);
        let b = ratios[level - 1] as int;
        assert(b >= 2);
        assert(a * b >= 1) by (nonlinear_arith)
            requires
                a >= 1,
                b >= 2,
        ;
    }
}

pub proof fn lemma_level_cells_positive(cells: Seq<int>, ratios: Seq<u32>, level: nat)
    requires
        positive(cells),
        level <= ratios.len(),
        forall|k: int| 0 <= k < ratios.len() ==> #[trigger] ratios[k] >= 2,
    ensures
        positive(level_cells(cells, ratios, level)),
{
    lemma_scale_positive(ratios, level);
    let e = level_cells(cells, ratios, level);
    assert forall|d: int| 0 <= d < e.len() implies 0 < #[trigger] e[d] by {
        let a = cells[d];
        let s = scale(ratios, level);
        assert(a > 0);
        assert(a * s > 0) by (nonlinear_arith)
            requires
                a > 0,
                s >= 1,
        ;
    }
}

/// The whole domain as a cell box at level `level`'s resolution.
fn level_domain_of<R: Real, const D: usize>(
    base: &CartesianGrid<R, D>,
    ratios: &[u32],
    level: u8,
) -> (r: CellBox<D>)
    requires
        base.tiled(),
        D > 0,
        level <= ratios@.len(),
        forall|k: int| 0 <= k < ratios@.len() ==> #[trigger] ratios@[k] >= 2,
        forall|d: int|
            0 <= d < D ==> (#[trigger] level_cells(base.domain(), ratios@, level as nat)[d])
                <= i64::MAX,
    ensures
        forall|d: int| 0 <= d < D ==> #[trigger] r.lo[d] == 0,
        forall|d: int|
            0 <= d < D ==> #[trigger] r.hi[d] == level_cells(
                base.domain(),
                ratios@,
                level as nat,
            )[d],
{
    let cells = base.cells();
    let ghost dom = base.domain();
    let mut factor: i64 = 1;
    let mut k: usize = 0;
    proof {
        lemma_domain_positive(base);
    }
    while k < level as usize
        invariant
            D > 0,
            k <= level,
            level <= ratios@.len(),
            dom.len() == D,
            positive(dom),
            forall|j: int| 0 <= j < ratios@.len() ==> #[trigger] ratios@[j] >= 2,
            factor == scale(ratios@, k as nat),
            forall|d: int|
                0 <= d < D ==> (#[trigger] level_cells(dom, ratios@, level as nat)[d]) <= i64::MAX,
        decreases level - k,
    {
        proof {
            lemma_scale_grows(ratios@, (k + 1) as nat, level as nat);
            let a = dom[0];
            let s = scale(ratios@, (k + 1) as nat);
            let z = scale(ratios@, level as nat);
            assert(level_cells(dom, ratios@, level as nat)[0] <= i64::MAX);
            assert(s <= a * z) by (nonlinear_arith)
                requires
                    1 <= s <= z,
                    a >= 1,
            ;
        }
        factor = factor * (ratios[k] as i64);
        k += 1;
    }
    let lo = [0i64; D];
    let mut hi = [0i64; D];
    let mut d: usize = 0;
    while d < D
        invariant
            d <= D,
            level <= ratios@.len(),
            dom == base.domain(),
            dom == usizes(cells),
            positive(dom),
            forall|j: int| 0 <= j < ratios@.len() ==> #[trigger] ratios@[j] >= 2,
            factor == scale(ratios@, level as nat),
            forall|e: int|
                0 <= e < D ==> (#[trigger] level_cells(dom, ratios@, level as nat)[e]) <= i64::MAX,
            forall|e: int|
                0 <= e < d ==> #[trigger] hi[e] == level_cells(dom, ratios@, level as nat)[e],
        decreases D - d,
    {
        proof {
            assert(level_cells(dom, ratios@, level as nat)[d as int] <= i64::MAX);
            lemma_scale_positive(ratios@, level as nat);
            let a = dom[d as int];
            let s = factor as int;
            assert(a > 0);
            assert(a <= a * s) by (nonlinear_arith)
                requires
                    a >= 1,
                    s >= 1,
            ;
            assert(cells[d as int] == a);
        }
        hi[d] = cells[d] as i64 * factor;
        d += 1;
    }
    CellBox { lo, hi }
}

pub proof fn lemma_domain_positive<R: Real, const D: usize>(base: &CartesianGrid<R, D>)
    requires
        base.tiled(),
    ensures
        positive(base.domain()),
{
    assert forall|d: int| 0 <= d < base.domain().len() implies 0 < #[trigger] base.domain()[d] by {
        let a = base.tiling()[d];
        let b = base.tile()[d];
        assert(a > 0 && b > 0);
        assert(a * b > 0) by (nonlinear_arith)
            requires
                a > 0,
                b > 0,
        ;
    }
}

/// Scales never shrink with the level.
pub proof fn lemma_scale_grows(ratios: Seq<u32>, a: nat, b: nat)
    requires
        a <= b <= ratios.len(),
        forall|k: int| 0 <= k < ratios.len() ==> #[trigger] ratios[k] >= 2,
    ensures
        1 <= scale(ratios, a) <= scale(ratios, b),
    decreases b,
{
    lemma_scale_positive(ratios, a);
    if a < b {
        lemma_scale_grows(ratios, a, (b - 1) as nat);
        let s = scale(ratios, (b - 1) as nat);
        let r = ratios[b - 1] as int;
        assert(r >= 2);
        assert(s <= s * r) by (nonlinear_arith)
            requires
                s >= 1,
                r >= 2,
        ;
    }
}

/// The box is base block `b`, in cell coordinates of the base level.
pub open spec fn is_tile<R: Real, const D: usize>(
    base: &CartesianGrid<R, D>,
    bx: CellBox<D>,
    b: int,
) -> bool {
    forall|d: int|
        0 <= d < D ==> #[trigger] bx.lo[d] == base.coords_of(b)[d] * base.tile()[d] && bx.hi[d] == (
        base.coords_of(b)[d] + 1) * base.tile()[d]
}

/// The boxes are the base grid's blocks, in block order.
pub open spec fn are_tiles<R: Real, const D: usize>(
    base: &CartesianGrid<R, D>,
    boxes: Seq<CellBox<D>>,
) -> bool {
    &&& boxes.len() == base.blocks()
    &&& forall|b: int| 0 <= b < boxes.len() ==> is_tile(base, #[trigger] boxes[b], b)
}

/// Every cell of the base domain lies in a tile.
proof fn lemma_tiles_cover<R: Real, const D: usize>(
    base: &CartesianGrid<R, D>,
    boxes: Seq<CellBox<D>>,
    c: [i64; D],
)
    requires
        base.valid(),
        are_tiles(base, boxes),
        in_ext(ints(c), base.domain()),
    ensures
        some_box_has(boxes, c),
{
    let t = base.tiling();
    let n = base.tile();
    let q = Seq::new(D as nat, |d: int| c[d] as int / n[d]);
    assert forall|d: int| 0 <= d < D implies 0 <= #[trigger] q[d] < t[d] && q[d] * n[d] <= c[d] < (
    q[d] + 1) * n[d] by {
        assert(0 <= ints(c)[d] < base.domain()[d]);
        assert(base.domain()[d] == t[d] * n[d]);
        let x = c[d] as int;
        let m = n[d];
        let k = t[d];
        assert(m > 0);
        vstd::arithmetic::div_mod::lemma_fundamental_div_mod(x, m);
        vstd::arithmetic::div_mod::lemma_mod_bound(x, m);
        let a = x / m;
        let r = x % m;
        assert(0 <= a < k && a * m <= x < (a + 1) * m) by (nonlinear_arith)
            requires
                x == m * a + r,
                0 <= r < m,
                0 <= x < k * m,
        ;
    }
    lemma_lin_bounds(q, t);
    let b = lin(q, t);
    crate::geometry::index::lemma_delin_lin(q, t);
    assert(is_tile(base, boxes[b], b));
    assert(boxes[b].has(c)) by {
        assert forall|d: int| 0 <= d < D implies boxes[b].lo[d] <= #[trigger] c[d] < boxes[b].hi[d] by {
            assert(q[d] * n[d] <= c[d] < (q[d] + 1) * n[d]);
            assert(boxes[b].lo[d] == base.coords_of(b)[d] * base.tile()[d]);
        }
    }
}

/// A tile is a nonempty box of the base domain.
proof fn lemma_tile_inside<R: Real, const D: usize>(
    base: &CartesianGrid<R, D>,
    bx: CellBox<D>,
    b: int,
)
    requires
        base.valid(),
        0 <= b < base.blocks(),
        is_tile(base, bx, b),
    ensures
        nonempty(bx),
        within(bx, base.domain()),
        forall|d: int| 0 <= d < D ==> #[trigger] bx.width(d) == base.tile()[d],
{
    let t = base.tiling();
    let n = base.tile();
    lemma_volume_positive(t);
    lemma_lin_delin(b, t);
    let c = base.coords_of(b);
    assert forall|d: int| 0 <= d < D implies 0 <= #[trigger] bx.lo[d] <= bx.hi[d] && bx.hi[d]
        <= base.domain()[d] && bx.hi[d] - bx.lo[d] == n[d] by {
        assert(0 <= c[d] < t[d]);
        assert(base.domain()[d] == t[d] * n[d]);
        let a = c[d];
        let k = t[d];
        let m = n[d];
        assert(m > 0);
        assert(0 <= a * m && (a + 1) * m == a * m + m && (a + 1) * m <= k * m) by (nonlinear_arith)
            requires
                0 <= a < k,
                m > 0,
        ;
    }
    assert forall|d: int| 0 <= d < D implies (#[trigger] bx.lo[d]) < bx.hi[d] by {
        assert(n[d] > 0);
    }
    assert forall|d: int| 0 <= d < D implies #[trigger] bx.width(d) == base.tile()[d] by {
        assert(bx.lo[d] < bx.hi[d]);
    }
}

/// Distinct tiles do not meet.
proof fn lemma_tiles_disjoint<R: Real, const D: usize>(
    base: &CartesianGrid<R, D>,
    x: CellBox<D>,
    y: CellBox<D>,
    a: int,
    b: int,
)
    requires
        base.valid(),
        0 <= a < base.blocks(),
        0 <= b < base.blocks(),
        a != b,
        is_tile(base, x, a),
        is_tile(base, y, b),
    ensures
        !x.meets(y),
{
    let t = base.tiling();
    let n = base.tile();
    lemma_volume_positive(t);
    lemma_lin_delin(a, t);
    lemma_lin_delin(b, t);
    let p = base.coords_of(a);
    let q = base.coords_of(b);
    if x.meets(y) {
        assert forall|d: int| 0 <= d < D implies p[d] == q[d] by {
            assert(x.lo[d] < y.hi[d] && y.lo[d] < x.hi[d]);
            assert(y.lo[d] == q[d] * n[d]);
            let m = n[d];
            let i = p[d];
            let j = q[d];
            assert(m > 0);
            assert(i == j) by (nonlinear_arith)
                requires
                    i * m < (j + 1) * m,
                    j * m < (i + 1) * m,
                    m > 0,
            ;
        }
        assert(p =~= q);
    }
}

/// The base grid's blocks as patches of level 0.
fn base_patches<R: Real, const D: usize>(base: &CartesianGrid<R, D>) -> (patches: Vec<AmrPatch<D>>)
    requires
        base.valid(),
        forall|d: int| 0 <= d < D ==> (#[trigger] base.domain()[d]) <= i64::MAX,
    ensures
        patches@.len() == base.blocks(),
        forall|b: int|
            0 <= b < patches@.len() ==> (#[trigger] patches@[b]).level == 0 && is_tile(
                base,
                patches@[b].bx,
                b,
            ),
{
    let count = base.num_blocks();
    let cells = base.block_cells();
    let ghost n = base.tile();
    let ghost t = base.tiling();
    proof {
        base.lemma_blocks();
    }
    let mut patches: Vec<AmrPatch<D>> = Vec::new();
    let mut b: usize = 0;
    while b < count
        invariant
            b <= count,
            count == base.blocks(),
            count <= u32::MAX,
            base.valid(),
            n == base.tile(),
            t == base.tiling(),
            n == usizes(cells),
            forall|d: int| 0 <= d < D ==> (#[trigger] base.domain()[d]) <= i64::MAX,
            patches@.len() == b,
            forall|k: int|
                0 <= k < b ==> (#[trigger] patches@[k]).level == 0 && is_tile(
                    base,
                    patches@[k].bx,
                    k,
                ),
        decreases count - b,
    {
        proof {
            lemma_volume_positive(t);
        }
        let coords = base.block_coords(BlockId(b as u32));
        let ghost c = base.coords_of(b as int);
        let mut lo = [0i64; D];
        let mut hi = [0i64; D];
        let mut d: usize = 0;
        while d < D
            invariant
                d <= D,
                base.valid(),
                n == base.tile(),
                t == base.tiling(),
                n == usizes(cells),
                c == usizes(coords),
                in_ext(c, t),
                forall|e: int| 0 <= e < D ==> (#[trigger] base.domain()[e]) <= i64::MAX,
                forall|e: int| 0 <= e < d ==> #[trigger] lo[e] == c[e] * n[e],
                forall|e: int| 0 <= e < d ==> #[trigger] hi[e] == (c[e] + 1) * n[e],
            decreases D - d,
        {
            proof {
                assert(0 <= c[d as int] < t[d as int]);
                assert(base.domain()[d as int] == t[d as int] * n[d as int]);
                let a = c[d as int];
                let k = t[d as int];
                let m = n[d as int];
                assert(m > 0);
                assert(0 <= a * m && (a + 1) * m == a * m + m && (a + 1) * m <= k * m)
                    by (nonlinear_arith)
                    requires
                        0 <= a < k,
                        m > 0,
                ;
                assert(coords[d as int] == a && cells[d as int] == m);
                assert(a + 1 <= (a + 1) * m) by (nonlinear_arith)
                    requires
                        a >= 0,
                        m >= 1,
                ;
            }
            lo[d] = (coords[d] * cells[d]) as i64;
            hi[d] = ((coords[d] + 1) * cells[d]) as i64;
            d += 1;
        }
        patches.push(AmrPatch { level: 0, bx: CellBox { lo, hi } });
        b += 1;
    }
    patches
}

/// Whether two boxes have the same corners.
fn same_box<const D: usize>(a: &CellBox<D>, b: &CellBox<D>) -> (r: bool)
    ensures
        r == (*a == *b),
{
    let mut d: usize = 0;
    while d < D
        invariant
            d <= D,
            forall|e: int| 0 <= e < d ==> #[trigger] a.lo[e] == b.lo[e],
            forall|e: int| 0 <= e < d ==> #[trigger] a.hi[e] == b.hi[e],
        decreases D - d,
    {
        if a.lo[d] != b.lo[d] || a.hi[d] != b.hi[d] {
            return false;
        }
        d += 1;
    }
    proof {
        crate::geometry::amr::cluster::lemma_box_ext(*a, *b);
    }
    true
}

/// A box with cells along every axis, or of no cells, by its cell count.
proof fn lemma_count<const D: usize>(bx: CellBox<D>)
    requires
        bx.spans_fit(),
    ensures
        bx.count() == 0 <==> exists|d: int| 0 <= d < D && #[trigger] bx.width(d) == 0,
{
    lemma_volume_zero(bx.widths());
    if volume(bx.widths()) == 0 {
        let d = choose|d: int| 0 <= d < D && #[trigger] bx.widths()[d] == 0;
        assert(bx.width(d) == 0);
    }
    if exists|d: int| 0 <= d < D && #[trigger] bx.width(d) == 0 {
        let d = choose|d: int| 0 <= d < D && #[trigger] bx.width(d) == 0;
        assert(bx.widths()[d] == 0);
    }
}

proof fn lemma_volume_zero(e: Seq<int>)
    requires
        forall|d: int| 0 <= d < e.len() ==> #[trigger] e[d] >= 0,
    ensures
        volume(e) >= 0,
        volume(e) == 0 <==> exists|d: int| 0 <= d < e.len() && #[trigger] e[d] == 0,
    decreases e.len(),
{
    if e.len() > 0 {
        let r = e.drop_first();
        assert forall|d: int| 0 <= d < r.len() implies #[trigger] r[d] >= 0 by {
            assert(e[d + 1] >= 0);
        }
        lemma_volume_zero(r);
        let a = e[0];
        let v = volume(r);
        assert(a >= 0);
        assert(a * v >= 0 && (a * v == 0 <==> a == 0 || v == 0)) by (nonlinear_arith)
            requires
                a >= 0,
                v >= 0,
        ;
        if exists|d: int| 0 <= d < e.len() && #[trigger] e[d] == 0 {
            let d = choose|d: int| 0 <= d < e.len() && #[trigger] e[d] == 0;
            if d > 0 {
                assert(r[d - 1] == 0);
            }
        }
        if v == 0 {
            let d = choose|d: int| 0 <= d < r.len() && #[trigger] r[d] == 0;
            assert(e[d + 1] == 0);
        }
    }
}

/// What is wrong with box `i` of level `l + 1`, if anything.
fn box_fault<R: Real, const D: usize>(
    base: &CartesianGrid<R, D>,
    ratios: &[u32],
    levels: &[Vec<CellBox<D>>],
    coarser: &[CellBox<D>],
    l: usize,
    i: usize,
) -> (e: Option<GridError<R>>)
    requires
        D > 0,
        base.valid(),
        ratios_ok(ratios@, levels@.len()),
        levels@.len() <= 255,
        l < levels@.len(),
        i < levels@[l as int]@.len(),
        levels_fit(base.domain(), ratios@, levels@.len()),
        levels@[l as int]@[i as int].spans_fit(),
        l == 0 ==> are_tiles(base, coarser@),
        l > 0 ==> coarser@ == levels@[l - 1]@,
    ensures
        e == box_error::<R, D>(
            base.domain(),
            ratios@,
            level_views(levels@),
            l as int,
            i as int,
        ),
{
    let ghost cells = base.domain();
    let ghost views = level_views(levels@);
    let ghost fine = level_cells(cells, ratios@, (l + 1) as nat);
    let ghost coarse = level_cells(cells, ratios@, l as nat);
    let level = (l + 1) as u8;
    let bx = levels[l][i];
    assert(views[l as int][i as int] == bx);
    let r: i64 = ratios[l] as i64;
    proof {
        assert(ratios@[l as int] >= 2);
        lemma_count(bx);
        lemma_domain_positive(base);
    }
    if bx.cells() == 0 {
        return Some(GridError::AmrEmptyPatch { level });
    }
    proof {
        assert(volume(fine) <= usize::MAX);
        assert(volume(coarse) <= usize::MAX);
        assert forall|d: int| 0 <= d < D implies (#[trigger] fine[d]) <= i64::MAX by {}
        assert forall|d: int| 0 <= d < D implies (#[trigger] coarse[d]) <= i64::MAX by {}
    }
    let domain = level_domain_of(base, ratios, level);
    let clipped = bx.clipped(&domain);
    proof {
        if clipped == bx {
            assert forall|d: int| 0 <= d < D implies 0 <= #[trigger] bx.lo[d] <= bx.hi[d]
                <= fine[d] by {
                assert(clipped.lo[d] == bx.lo[d]);
                assert(clipped.hi[d] == bx.hi[d]);
                assert(domain.lo[d] == 0 && domain.hi[d] == fine[d]);
                assert(bx.width(d) != 0);
            }
            assert(within(bx, fine));
        }
        if within(bx, fine) {
            assert forall|d: int| 0 <= d < D implies #[trigger] clipped.lo[d] == bx.lo[d] by {
                assert(0 <= bx.lo[d] <= bx.hi[d] <= fine[d]);
                assert(domain.lo[d] == 0 && domain.hi[d] == fine[d]);
            }
            assert forall|d: int| 0 <= d < D implies #[trigger] clipped.hi[d] == bx.hi[d] by {
                assert(0 <= bx.lo[d] <= bx.hi[d] <= fine[d]);
                assert(domain.lo[d] == 0 && domain.hi[d] == fine[d]);
            }
            crate::geometry::amr::cluster::lemma_box_ext(clipped, bx);
        }
    }
    if !same_box(&clipped, &bx) {
        return Some(GridError::AmrNotNested { level });
    }
    let mut d: usize = 0;
    while d < D
        invariant
            d <= D,
            r >= 2,
            within(bx, fine),
            forall|e: int|
                0 <= e < d ==> (#[trigger] bx.lo[e]) as int % (r as int) == 0 && bx.hi[e] as int % (
                r as int) == 0,
        ensures
            d == D || !aligned(bx, r as int),
            d == D ==> aligned(bx, r as int),
        decreases D - d,
    {
        assert(0 <= bx.lo[d as int] <= bx.hi[d as int]);
        if bx.lo[d] % r != 0 || bx.hi[d] % r != 0 {
            assert(!aligned(bx, r as int)) by {
                if aligned(bx, r as int) {
                    assert(bx.lo[d as int] as int % (r as int) == 0);
                }
            }
            break;
        }
        d += 1;
    }
    if d < D {
        return Some(GridError::AmrMisaligned { level });
    }
    let mut j: usize = 0;
    while j < i
        invariant
            j <= i,
            l < levels@.len(),
            i < levels@[l as int]@.len(),
            views == level_views(levels@),
            views[l as int][i as int] == bx,
            bx.count() != 0,
            level == (l + 1) as u8,
            r == ratios@[l as int],
            within(bx, level_cells(base.domain(), ratios@, (l + 1) as nat)),
            aligned(bx, r as int),
            forall|k: int| 0 <= k < j ==> !bx.meets(#[trigger] views[l as int][k]),
        decreases i - j,
    {
        if bx.intersects(&levels[l][j]) {
            assert(bx.meets(views[l as int][j as int]));
            return Some(GridError::AmrOverlap { level });
        }
        j += 1;
    }
    let mut lo = [0i64; D];
    let mut hi = [0i64; D];
    let mut d: usize = 0;
    while d < D
        invariant
            d <= D,
            2 <= r <= u32::MAX,
            within(bx, fine),
            fine.len() == D,
            forall|e: int| 0 <= e < D ==> (#[trigger] fine[e]) + 0x1_0000_0000 <= i64::MAX,
            forall|e: int| 0 <= e < d ==> #[trigger] lo[e] == bx.lo[e] as int / (r as int),
            forall|e: int| 0 <= e < d ==> #[trigger] hi[e] == (bx.hi[e] + r - 1) / (r as int),
        decreases D - d,
    {
        assert(0 <= bx.lo[d as int] <= bx.hi[d as int] <= fine[d as int]);
        assert(fine[d as int] + 0x1_0000_0000 <= i64::MAX);
        lo[d] = div_floor(bx.lo[d], r);
        hi[d] = div_floor(bx.hi[d] + r - 1, r);
        d += 1;
    }
    let shrunk = CellBox { lo, hi };
    proof {
        assert forall|e: int| 0 <= e < D implies i64::MIN <= (#[trigger] shrunk.lo[e]) - 1
            <= i64::MAX && i64::MIN <= shrunk.hi[e] + 1 <= i64::MAX by {
            assert(0 <= bx.lo[e] <= bx.hi[e] <= fine[e]);
            assert(fine[e] + 0x1_0000_0000 <= i64::MAX);
            let a = bx.lo[e] as int;
            let b = bx.hi[e] + r - 1;
            let q = r as int;
            vstd::arithmetic::div_mod::lemma_div_is_ordered_by_denominator(a, 1, q);
            vstd::arithmetic::div_mod::lemma_div_is_ordered_by_denominator(b, 1, q);
            vstd::arithmetic::div_mod::lemma_div_pos_is_pos(a, q);
            vstd::arithmetic::div_mod::lemma_div_pos_is_pos(b, q);
        }
    }
    let below = level_domain_of(base, ratios, l as u8);
    let grown = shrunk.grown(1);
    let need = grown.clipped(&below);
    proof {
        assert forall|c: [i64; D]| need.has(c) <==> #[trigger] in_margin(
            bx,
            r as int,
            coarse,
            c,
        ) by {
            lemma_margin_box(bx, r as int, coarse, shrunk, grown, below, need, c);
        }
    }
    if !covered_by(&need, coarser) {
        proof {
            let c = choose|c: [i64; D]| #[trigger] need.has(c) && !some_box_has(coarser@, c);
            assert(in_margin(bx, r as int, coarse, c));
            if l == 0 {
                assert(in_ext(ints(c), cells)) by {
                    assert forall|e: int| 0 <= e < D implies 0 <= #[trigger] ints(c)[e] < cells[e] by {
                        assert(0 <= c[e] < coarse[e]);
                        assert(cells[e] * 1 == cells[e]);
                    }
                }
                lemma_tiles_cover(base, coarser@, c);
            }
            assert(l > 0 ==> coarser@ == views[l - 1]);
        }
        return Some(GridError::AmrNotNested { level });
    }
    proof {
        assert(l > 0 ==> coarser@ == views[l - 1]);
        assert forall|c: [i64; D]| #[trigger] in_margin(bx, r as int, coarse, c) implies some_box_has(
            coarser@,
            c,
        ) by {
            assert(need.has(c));
        }
    }
    None
}

/// The executable margin box holds exactly the margin cells.
proof fn lemma_margin_box<const D: usize>(
    bx: CellBox<D>,
    r: int,
    coarse: Seq<int>,
    shrunk: CellBox<D>,
    grown: CellBox<D>,
    domain: CellBox<D>,
    need: CellBox<D>,
    c: [i64; D],
)
    requires
        forall|e: int| 0 <= e < D ==> #[trigger] shrunk.lo[e] == bx.lo[e] as int / r,
        forall|e: int| 0 <= e < D ==> #[trigger] shrunk.hi[e] == (bx.hi[e] + r - 1) / r,
        forall|e: int| 0 <= e < D ==> #[trigger] grown.lo[e] == shrunk.lo[e] - 1,
        forall|e: int| 0 <= e < D ==> #[trigger] grown.hi[e] == shrunk.hi[e] + 1,
        forall|e: int| 0 <= e < D ==> #[trigger] domain.lo[e] == 0,
        forall|e: int| 0 <= e < D ==> #[trigger] domain.hi[e] == coarse[e],
        forall|e: int|
            0 <= e < D ==> #[trigger] need.lo[e] == (if grown.lo[e] >= domain.lo[e] {
                grown.lo[e]
            } else {
                domain.lo[e]
            }),
        forall|e: int|
            0 <= e < D ==> #[trigger] need.hi[e] == ({
                let h = if grown.hi[e] <= domain.hi[e] {
                    grown.hi[e]
                } else {
                    domain.hi[e]
                };
                if h >= need.lo[e] {
                    h
                } else {
                    need.lo[e]
                }
            }),
    ensures
        need.has(c) <==> in_margin(bx, r, coarse, c),
{
    if need.has(c) {
        assert forall|d: int| 0 <= d < D implies {
            &&& 0 <= #[trigger] c[d] < coarse[d]
            &&& bx.lo[d] as int / r - 1 <= c[d]
            &&& c[d] < (bx.hi[d] + r - 1) / r + 1
        } by {
            assert(need.lo[d] <= c[d] < need.hi[d]);
            assert(grown.lo[d] == shrunk.lo[d] - 1);
            assert(grown.hi[d] == shrunk.hi[d] + 1);
            assert(domain.lo[d] == 0 && domain.hi[d] == coarse[d]);
        }
    }
    if in_margin(bx, r, coarse, c) {
        assert forall|d: int| 0 <= d < D implies need.lo[d] <= #[trigger] c[d] < need.hi[d] by {
            assert(0 <= c[d] < coarse[d]);
            assert(grown.lo[d] == shrunk.lo[d] - 1);
            assert(grown.hi[d] == shrunk.hi[d] + 1);
            assert(domain.lo[d] == 0 && domain.hi[d] == coarse[d]);
        }
    }
}

/// A block-structured hierarchy; see the module docs for invariants.
#[derive(Debug)]
pub struct AmrGrid<R: Real, const D: usize> {
    base: CartesianGrid<R, D>,
    /// `ratios[l]` is the refinement ratio from level `l` to `l + 1`.
    ratios: Box<[u32]>,
    /// All patches, level-major: a block id is an index into this.
    patches: Box<[AmrPatch<D>]>,
    /// Cell spacing per level, up to the deepest level the ratios allow.
    level_spacing: Box<[[R; D]]>,
    /// `level_start[l]..level_start[l + 1]` are level `l`'s patch indices.
    level_start: Box<[u32]>,
    /// Per populated level: cell to owning patch (`u32::MAX` = uncovered),
    /// dimension-0-fastest over the level domain.
    lookup: Box<[Box<[u32]>]>,
}

impl<R: Real, const D: usize> Clone for AmrGrid<R, D> {
    fn clone(&self) -> (r: Self)
        ensures
            r == *self,
    {
        let mut maps: Vec<Box<[u32]>> = Vec::with_capacity(self.lookup.len());
        let mut l: usize = 0;
        while l < self.lookup.len()
            invariant
                l <= self.lookup@.len(),
                maps@.len() == l,
                forall|k: int| 0 <= k < l ==> #[trigger] maps@[k] == self.lookup@[k],
            decreases self.lookup.len() - l,
        {
            let map = frozen(thawed(&self.lookup[l]));
            assert(map =~= self.lookup@[l as int]);
            maps.push(map);
            l += 1;
        }
        let r = AmrGrid {
            base: self.base.clone(),
            ratios: frozen(thawed(&self.ratios)),
            patches: frozen(thawed(&self.patches)),
            level_spacing: frozen(thawed(&self.level_spacing)),
            level_start: frozen(thawed(&self.level_start)),
            lookup: frozen(maps),
        };
        proof {
            assert(r.ratios =~= self.ratios);
            assert(r.patches =~= self.patches);
            assert(r.level_spacing =~= self.level_spacing);
            assert(r.level_start =~= self.level_start);
            assert(r.lookup =~= self.lookup);
        }
        r
    }
}

/// Cell spacing along `d` at a level: the base spacing divided by the ratios,
/// one after the other.
pub open spec fn level_step<R: Real, const D: usize>(
    base: CartesianGrid<R, D>,
    ratios: Seq<u32>,
    level: nat,
    d: int,
) -> R
    decreases level,
{
    if level == 0 {
        base.step(d)
    } else {
        level_step(base, ratios, (level - 1) as nat, d).div_spec(
            R::from_u64_spec(ratios[level - 1] as u64),
        )
    }
}

/// The map names, for every cell of the level domain, the patch among
/// `start..end` that holds it, or none.
pub open spec fn owns<const D: usize>(
    map: Seq<u32>,
    patches: Seq<AmrPatch<D>>,
    start: int,
    end: int,
    ext: Seq<int>,
) -> bool {
    &&& map.len() == volume(ext)
    &&& forall|c: [i64; D]|
        #![trigger lin(ints(c), ext)]
        in_ext(ints(c), ext) ==> {
            let m = map[lin(ints(c), ext)];
            if m == u32::MAX {
                forall|p: int| start <= p < end ==> !(#[trigger] patches[p]).bx.has(c)
            } else {
                start <= m < end && patches[m as int].bx.has(c)
            }
        }
}

impl<R: Real, const D: usize> AmrGrid<R, D> {
    /// The base (level-0) grid.
    pub closed spec fn base_grid(&self) -> CartesianGrid<R, D> {
        self.base
    }

    /// Refinement ratios between consecutive levels.
    pub closed spec fn ratio_list(&self) -> Seq<u32> {
        self.ratios@
    }

    /// All patches, level-major.
    pub closed spec fn patch_list(&self) -> Seq<AmrPatch<D>> {
        self.patches@
    }

    /// First patch of each level, and the number of patches.
    pub closed spec fn starts(&self) -> Seq<u32> {
        self.level_start@
    }

    /// Number of populated levels.
    pub open spec fn levels(&self) -> int {
        self.starts().len() - 1
    }

    /// Cells per dimension of the domain at one level.
    pub open spec fn cells_at(&self, level: int) -> Seq<int> {
        level_cells(self.base_grid().domain(), self.ratio_list(), level as nat)
    }

    /// The boxes of one level.
    pub open spec fn level_boxes(&self, level: int) -> Seq<CellBox<D>> {
        Seq::new(
            (self.starts()[level + 1] - self.starts()[level]) as nat,
            |i: int| self.patch_list()[self.starts()[level] + i].bx,
        )
    }

    /// Spacings and ownership maps agree with the patches.
    pub closed spec fn indexed(&self) -> bool {
        &&& self.level_spacing@.len() == self.ratios@.len() + 1
        &&& forall|l: int, d: int|
            0 <= l < self.level_spacing@.len() && 0 <= d < D ==> (
            #[trigger] self.level_spacing@[l][d]) == level_step(
                self.base,
                self.ratios@,
                l as nat,
                d,
            )
        &&& self.lookup@.len() == self.level_start@.len() - 1
        &&& forall|l: int|
            0 <= l < self.lookup@.len() ==> owns(
                (#[trigger] self.lookup@[l])@,
                self.patches@,
                self.level_start@[l] as int,
                self.level_start@[l + 1] as int,
                level_cells(self.base.domain(), self.ratios@, l as nat),
            )
    }

    /// Level starts partition the patch list.
    pub open spec fn stacked(&self) -> bool {
        &&& 2 <= self.starts().len() <= 257
        &&& self.starts()[0] == 0
        &&& self.starts().last() == self.patch_list().len()
        &&& self.patch_list().len() < u32::MAX
        &&& forall|l: int, m: int|
            0 <= l <= m < self.starts().len() ==> (#[trigger] self.starts()[l]) <= (
            #[trigger] self.starts()[m])
        &&& forall|p: int|
            0 <= p < self.patch_list().len() ==> (#[trigger] self.patch_list()[p]).level
                < self.levels() && self.starts()[self.patch_list()[p].level as int] <= p
                < self.starts()[self.patch_list()[p].level + 1]
    }

    /// The geometric invariants of the hierarchy.
    pub open spec fn sound(&self) -> bool {
        &&& D > 0
        &&& self.base_grid().valid()
        &&& ratios_ok(self.ratio_list(), (self.levels() - 1) as nat)
        &&& levels_fit(self.base_grid().domain(), self.ratio_list(), (self.levels() - 1) as nat)
        &&& self.stacked()
        &&& are_tiles(&self.base_grid(), self.level_boxes(0))
        &&& forall|p: int|
            0 <= p < self.patch_list().len() ==> nonempty((#[trigger] self.patch_list()[p]).bx)
                && within(
                self.patch_list()[p].bx,
                self.cells_at(self.patch_list()[p].level as int),
            )
        &&& self.disjoint()
        &&& self.properly_nested()
        &&& self.populated()
        &&& self.indexed()
    }

    /// Every level holds a patch.
    #[verifier::opaque]
    pub open spec fn populated(&self) -> bool {
        forall|l: int|
            0 <= l < self.levels() ==> (#[trigger] self.starts()[l]) < self.starts()[l + 1]
    }

    /// Patches of one level share no cell.
    #[verifier::opaque]
    pub open spec fn disjoint(&self) -> bool {
        forall|p: int, q: int|
            #![trigger self.patch_list()[p], self.patch_list()[q]]
            0 <= p < q < self.patch_list().len() && self.patch_list()[p].level
                == self.patch_list()[q].level ==> !self.patch_list()[q].bx.meets(
                self.patch_list()[p].bx,
            )
    }

    /// Refined patches lie on coarse faces, with a coarse margin around them.
    #[verifier::opaque]
    pub open spec fn properly_nested(&self) -> bool {
        forall|p: int|
            0 <= p < self.patch_list().len() && (#[trigger] self.patch_list()[p]).level > 0 ==> {
                let l = self.patch_list()[p].level as int;
                &&& aligned(self.patch_list()[p].bx, self.ratio_list()[l - 1] as int)
                &&& nested(
                    self.patch_list()[p].bx,
                    self.ratio_list()[l - 1] as int,
                    self.cells_at(l - 1),
                    self.level_boxes(l - 1),
                )
            }
    }

    /// The patches between two level starts belong to the level.
    pub proof fn lemma_level_at(&self, l: int, p: int)
        requires
            self.stacked(),
            0 <= l < self.levels(),
            self.starts()[l] <= p < self.starts()[l + 1],
        ensures
            0 <= p < self.patch_list().len(),
            self.patch_list()[p].level == l,
    {
        let st = self.starts();
        assert(st[l + 1] <= st[st.len() - 1]);
        assert(st[0] <= st[l]);
        let m = self.patch_list()[p].level as int;
        if m < l {
            assert(st[m + 1] <= st[l]);
        }
        if l < m {
            assert(st[l + 1] <= st[m]);
        }
    }

    /// What proper nesting says of one refined patch.
    pub proof fn lemma_nested(&self, p: int)
        requires
            self.sound(),
            0 <= p < self.patch_list().len(),
            self.patch_list()[p].level > 0,
        ensures
            ({
                let l = self.patch_list()[p].level as int;
                &&& aligned(self.patch_list()[p].bx, self.ratio_list()[l - 1] as int)
                &&& nested(
                    self.patch_list()[p].bx,
                    self.ratio_list()[l - 1] as int,
                    self.cells_at(l - 1),
                    self.level_boxes(l - 1),
                )
            }),
    {
        reveal(AmrGrid::properly_nested);
    }
}

/// The first fault in level and box order, if any.
fn check_levels<R: Real, const D: usize>(
    base: &CartesianGrid<R, D>,
    ratios: &[u32],
    levels: &[Vec<CellBox<D>>],
    tiles: &[CellBox<D>],
) -> (e: Option<GridError<R>>)
    requires
        D > 0,
        base.valid(),
        ratios_ok(ratios@, levels@.len()),
        levels@.len() <= 255,
        levels_fit(base.domain(), ratios@, levels@.len()),
        are_tiles(base, tiles@),
        forall|l: int, i: int|
            #![trigger levels@[l]@[i]]
            0 <= l < levels@.len() && 0 <= i < levels@[l]@.len() ==> levels@[l]@[i].spans_fit(),
    ensures
        e is None <==> no_fault::<R, D>(base.domain(), ratios@, level_views(levels@)),
        e matches Some(err) ==> first_fault::<R, D>(
            base.domain(),
            ratios@,
            level_views(levels@),
            err,
        ),
{
    let ghost cells = base.domain();
    let ghost views = level_views(levels@);
    let mut l: usize = 0;
    while l < levels.len()
        invariant
            l <= levels@.len(),
            D > 0,
            base.valid(),
            cells == base.domain(),
            views == level_views(levels@),
            ratios_ok(ratios@, levels@.len()),
            levels@.len() <= 255,
            levels_fit(base.domain(), ratios@, levels@.len()),
            are_tiles(base, tiles@),
            forall|l: int, i: int|
                #![trigger levels@[l]@[i]]
                0 <= l < levels@.len() && 0 <= i < levels@[l]@.len() ==> levels@[l]@[i].spans_fit(),
            forall|m: int, j: int|
                0 <= m < l && 0 <= j < views[m].len() ==> (#[trigger] box_error::<R, D>(
                    cells,
                    ratios@,
                    views,
                    m,
                    j,
                )) is None,
        decreases levels.len() - l,
    {
        let coarser = if l == 0 {
            tiles
        } else {
            levels[l - 1].as_slice()
        };
        let mut i: usize = 0;
        while i < levels[l].len()
            invariant
                l < levels@.len(),
                i <= levels@[l as int]@.len(),
                D > 0,
                base.valid(),
                cells == base.domain(),
                views == level_views(levels@),
                ratios_ok(ratios@, levels@.len()),
                levels@.len() <= 255,
                levels_fit(base.domain(), ratios@, levels@.len()),
                l == 0 ==> are_tiles(base, coarser@),
                l > 0 ==> coarser@ == levels@[l - 1]@,
                forall|l: int, i: int|
                    #![trigger levels@[l]@[i]]
                    0 <= l < levels@.len() && 0 <= i < levels@[l]@.len()
                        ==> levels@[l]@[i].spans_fit(),
                forall|m: int, j: int|
                    0 <= m < views.len() && 0 <= j < views[m].len() && (m < l || (m == l && j < i))
                        ==> (#[trigger] box_error::<R, D>(cells, ratios@, views, m, j)) is None,
            decreases levels[l as int]@.len() - i,
        {
            assert(levels@[l as int]@[i as int].spans_fit());
            let fault = box_fault(base, ratios, levels, coarser, l, i);
            if fault.is_some() {
                proof {
                    let e = box_error::<R, D>(cells, ratios@, views, l as int, i as int);
                    assert(i < views[l as int].len());
                }
                return fault;
            }
            i += 1;
        }
        l += 1;
    }
    None
}

/// No box of any level has a fault.
pub open spec fn no_fault<R, const D: usize>(
    cells: Seq<int>,
    ratios: Seq<u32>,
    levels: Seq<Seq<CellBox<D>>>,
) -> bool {
    forall|l: int, i: int|
        0 <= l < levels.len() && 0 <= i < levels[l].len() ==> (#[trigger] box_error::<R, D>(
            cells,
            ratios,
            levels,
            l,
            i,
        )) is None
}

/// `err` is the fault of the first faulty box, in level and box order.
pub open spec fn first_fault<R, const D: usize>(
    cells: Seq<int>,
    ratios: Seq<u32>,
    levels: Seq<Seq<CellBox<D>>>,
    err: GridError<R>,
) -> bool {
    exists|l: int, i: int|
        0 <= l < levels.len() && 0 <= i < levels[l].len() && (#[trigger] box_error::<R, D>(
            cells,
            ratios,
            levels,
            l,
            i,
        )) == Some(err) && forall|m: int, j: int|
            0 <= m < levels.len() && 0 <= j < levels[m].len() && !scans_first(l, i, m, j) ==> (
            #[trigger] box_error::<R, D>(cells, ratios, levels, m, j)) is None
}

/// First patch index of a level: the base tiles come first, then the boxes of
/// level 1, 2, and so on.
pub open spec fn start_of<const D: usize>(
    tiles: int,
    levels: Seq<Seq<CellBox<D>>>,
    level: int,
) -> int {
    if level <= 0 {
        0
    } else {
        tiles + boxes_below(levels, level - 1)
    }
}

proof fn lemma_boxes_below_grows<const D: usize>(levels: Seq<Seq<CellBox<D>>>, a: int, b: int)
    requires
        0 <= a <= b <= levels.len(),
    ensures
        0 <= boxes_below(levels, a) <= boxes_below(levels, b),
    decreases b,
{
    if b > 0 {
        if a < b {
            lemma_boxes_below_grows(levels, a, b - 1);
        } else {
            lemma_boxes_below_grows(levels, a - 1, a - 1);
        }
    }
}

/// The patch list of base tiles and refined boxes, level by level.
pub open spec fn stack_ok<const D: usize>(
    tiles: Seq<AmrPatch<D>>,
    levels: Seq<Seq<CellBox<D>>>,
    patches: Seq<AmrPatch<D>>,
    starts: Seq<u32>,
) -> bool {
    let n = tiles.len() as int;
    &&& starts.len() == levels.len() + 2
    &&& forall|l: int| 0 <= l < starts.len() ==> #[trigger] starts[l] == start_of(n, levels, l)
    &&& patches.len() == start_of(n, levels, levels.len() as int + 1)
    &&& forall|p: int| 0 <= p < n ==> #[trigger] patches[p] == tiles[p]
    &&& forall|l: int, i: int|
        #![trigger levels[l][i]]
        0 <= l < levels.len() && 0 <= i < levels[l].len() ==> patches[start_of(n, levels, l + 1)
            + i] == (AmrPatch { level: (l + 1) as u8, bx: levels[l][i] })
    &&& forall|p: int|
        n <= p < patches.len() ==> {
            let l = (#[trigger] patches[p]).level as int;
            &&& 1 <= l <= levels.len()
            &&& start_of(n, levels, l) <= p < start_of(n, levels, l + 1)
        }
}

fn push_level<const D: usize>(
    patches: &mut Vec<AmrPatch<D>>,
    boxes: &Vec<CellBox<D>>,
    level: u8,
)
    ensures
        final(patches)@ == old(patches)@ + Seq::new(
            boxes@.len(),
            |i: int| AmrPatch { level, bx: boxes@[i] },
        ),
{
    let ghost all = Seq::new(boxes@.len(), |i: int| AmrPatch { level, bx: boxes@[i] });
    let mut i: usize = 0;
    while i < boxes.len()
        invariant
            i <= boxes@.len(),
            all == Seq::new(boxes@.len(), |i: int| AmrPatch { level, bx: boxes@[i] }),
            patches@ == old(patches)@ + all.take(i as int),
        decreases boxes.len() - i,
    {
        patches.push(AmrPatch { level, bx: boxes[i] });
        i += 1;
        assert(patches@ =~= old(patches)@ + all.take(i as int));
    }
    assert(all.take(i as int) =~= all);
}

fn stack_levels<const D: usize>(
    tiles: Vec<AmrPatch<D>>,
    levels: &[Vec<CellBox<D>>],
) -> (r: (Vec<AmrPatch<D>>, Vec<u32>))
    requires
        levels@.len() <= 255,
        tiles@.len() + boxes_below(level_views(levels@), levels@.len() as int) < u32::MAX,
    ensures
        stack_ok(tiles@, level_views(levels@), r.0@, r.1@),
{
    let ghost base = tiles@;
    let ghost n = base.len() as int;
    let ghost views = level_views(levels@);
    let mut patches = tiles;
    let mut starts: Vec<u32> = Vec::new();
    proof {
        lemma_boxes_below_grows(views, 0, views.len() as int);
    }
    starts.push(0);
    starts.push(patches.len() as u32);
    let mut l: usize = 0;
    while l < levels.len()
        invariant
            l <= levels@.len(),
            levels@.len() <= 255,
            views == level_views(levels@),
            n == base.len(),
            n + boxes_below(views, levels@.len() as int) < u32::MAX,
            starts@.len() == l + 2,
            forall|k: int| 0 <= k < l + 2 ==> #[trigger] starts@[k] == start_of(n, views, k),
            patches@.len() == start_of(n, views, l + 1),
            forall|p: int| 0 <= p < n ==> #[trigger] patches@[p] == base[p],
            forall|m: int, i: int|
                #![trigger views[m][i]]
                0 <= m < l && 0 <= i < views[m].len() ==> patches@[start_of(n, views, m + 1) + i]
                    == (AmrPatch { level: (m + 1) as u8, bx: views[m][i] }),
            forall|p: int|
                n <= p < patches@.len() ==> {
                    let k = (#[trigger] patches@[p]).level as int;
                    &&& 1 <= k <= l
                    &&& start_of(n, views, k) <= p < start_of(n, views, k + 1)
                },
        decreases levels.len() - l,
    {
        let level = (l + 1) as u8;
        let ghost first = start_of(n, views, l + 1);
        proof {
            lemma_boxes_below_grows(views, 0, l as int);
            lemma_boxes_below_grows(views, l + 1, views.len() as int);
            assert(first >= n);
        }
        let ghost before = patches@;
        push_level(&mut patches, &levels[l], level);
        proof {
            let boxes = views[l as int];
            assert(boxes == levels@[l as int]@);
            assert(start_of(n, views, l + 2) == first + boxes.len());
            assert forall|m: int, i: int|
                #![trigger views[m][i]]
                0 <= m < l + 1 && 0 <= i < views[m].len() implies patches@[start_of(n, views, m + 1)
                + i] == (AmrPatch { level: (m + 1) as u8, bx: views[m][i] }) by {
                if m < l {
                    lemma_boxes_below_grows(views, m + 1, l as int);
                    lemma_boxes_below_grows(views, 0, m);
                    assert(before[start_of(n, views, m + 1) + i] == (AmrPatch {
                        level: (m + 1) as u8,
                        bx: views[m][i],
                    }));
                }
            }
            assert forall|p: int| n <= p < patches@.len() implies {
                let k = (#[trigger] patches@[p]).level as int;
                &&& 1 <= k <= l + 1
                &&& start_of(n, views, k) <= p < start_of(n, views, k + 1)
            } by {
                if p < first {
                    assert(patches@[p] == before[p]);
                }
            }
        }
        starts.push(patches.len() as u32);
        l += 1;
    }
    (patches, starts)
}

fn spacing_table<R: Real, const D: usize>(base: &CartesianGrid<R, D>, ratios: &[u32]) -> (table: Vec<
    [R; D],
>)
    requires
        base.valid(),
    ensures
        table@.len() == ratios@.len() + 1,
        forall|l: int, d: int|
            0 <= l < table@.len() && 0 <= d < D ==> (#[trigger] table@[l][d]) == level_step(
                *base,
                ratios@,
                l as nat,
                d,
            ),
{
    let mut table: Vec<[R; D]> = Vec::new();
    let first = base.finest_spacing();
    table.push(first);
    let mut l: usize = 0;
    while l < ratios.len()
        invariant
            l <= ratios@.len(),
            table@.len() == l + 1,
            forall|k: int, d: int|
                0 <= k <= l && 0 <= d < D ==> (#[trigger] table@[k][d]) == level_step(
                    *base,
                    ratios@,
                    k as nat,
                    d,
                ),
        decreases ratios.len() - l,
    {
        let prev = table[l];
        let mut next = [R::zero(); D];
        let mut d: usize = 0;
        while d < D
            invariant
                d <= D,
                l < ratios@.len(),
                forall|e: int|
                    0 <= e < D ==> (#[trigger] prev[e]) == level_step(*base, ratios@, l as nat, e),
                forall|e: int|
                    0 <= e < d ==> (#[trigger] next[e]) == level_step(
                        *base,
                        ratios@,
                        (l + 1) as nat,
                        e,
                    ),
            decreases D - d,
        {
            assert(prev[d as int] == level_step(*base, ratios@, l as nat, d as int));
            next[d] = prev[d].div(R::from_u64(ratios[l] as u64));
            d += 1;
        }
        table.push(next);
        l += 1;
    }
    table
}

/// Ownership map of one level: the patches `start..end` painted over the level
/// domain.
fn level_map<const D: usize>(
    patches: &Vec<AmrPatch<D>>,
    start: u32,
    end: u32,
    domain: &CellBox<D>,
) -> (map: Vec<u32>)
    requires
        D > 0,
        start <= end <= patches@.len(),
        end < u32::MAX,
        forall|d: int| 0 <= d < D ==> #[trigger] domain.lo[d] == 0,
        forall|d: int| 0 <= d < D ==> 0 < #[trigger] domain.hi[d],
        volume(ints(domain.hi)) <= usize::MAX,
        forall|p: int|
            start <= p < end ==> within((#[trigger] patches@[p]).bx, ints(domain.hi)),
        forall|p: int, q: int|
            #![trigger patches@[p], patches@[q]]
            start <= p < q < end ==> !patches@[q].bx.meets(patches@[p].bx),
    ensures
        owns(map@, patches@, start as int, end as int, ints(domain.hi)),
{
    let ghost ext = ints(domain.hi);
    let mut extent = [0usize; D];
    let mut total: usize = 1;
    let mut d: usize = 0;
    proof {
        lemma_take_zero(ext, ext);
        assert forall|e: int| 0 <= e < ext.len() implies 0 < #[trigger] ext[e] by {
            assert(0 < domain.hi[e]);
        }
    }
    while d < D
        invariant
            d <= D,
            ext == ints(domain.hi),
            positive(ext),
            volume(ext) <= usize::MAX,
            total == volume(ext.take(d as int)),
            forall|e: int| 0 <= e < d ==> #[trigger] extent[e] == ext[e],
        decreases D - d,
    {
        proof {
            lemma_lin_step(ext, ext, d as int);
            lemma_volume_prefix(ext, d as int);
            lemma_volume_prefix(ext, d + 1);
            let v = total as int;
            let x = ext[d as int];
            assert(x > 0);
            assert(x <= v * x) by (nonlinear_arith)
                requires
                    v >= 1,
                    x >= 1,
            ;
        }
        extent[d] = domain.hi[d] as usize;
        total = total * extent[d];
        d += 1;
    }
    proof {
        assert(ext.take(d as int) =~= ext);
        assert(usizes(extent) =~= ext);
    }
    let mut map: Vec<u32> = vec![u32::MAX; total];
    let mut pid: u32 = start;
    proof {
        assert forall|c: [i64; D]| in_ext(ints(c), ext) implies map@[#[trigger] lin(ints(c), ext)]
            == u32::MAX by {
            lemma_lin_bounds(ints(c), ext);
        }
    }
    while pid < end
        invariant
            D > 0,
            start <= pid <= end,
            end <= patches@.len(),
            end < u32::MAX,
            ext == usizes(extent),
            positive(ext),
            forall|p: int| start <= p < end ==> within((#[trigger] patches@[p]).bx, ext),
            forall|p: int, q: int|
                #![trigger patches@[p], patches@[q]]
                start <= p < q < end ==> !patches@[q].bx.meets(patches@[p].bx),
            owns(map@, patches@, start as int, pid as int, ext),
        decreases end - pid,
    {
        let bx = patches[pid as usize].bx;
        let ghost before = map@;
        proof {
            assert(within(patches@[pid as int].bx, ext));
            assert forall|e: int| 0 <= e < D implies 0 <= #[trigger] bx.lo[e] && bx.hi[e]
                <= extent[e] by {
                assert(0 <= bx.lo[e] <= bx.hi[e] <= ext[e]);
                assert(extent[e] == ext[e]);
            }
        }
        paint(map.as_mut_slice(), &extent, &bx, pid);
        proof {
            assert forall|c: [i64; D]|
                #![trigger lin(ints(c), ext)]
                in_ext(ints(c), ext) implies {
                let m = map@[lin(ints(c), ext)];
                if m == u32::MAX {
                    forall|p: int| start <= p < pid + 1 ==> !(#[trigger] patches@[p]).bx.has(c)
                } else {
                    start <= m < pid + 1 && patches@[m as int].bx.has(c)
                }
            } by {
                lemma_lin_bounds(ints(c), ext);
            }
        }
        pid = pid + 1;
    }
    map
}

/// A fault-free request stacks into disjoint boxes of their level domains.
proof fn lemma_stack_is_sound<R: Real, const D: usize>(
    base: &CartesianGrid<R, D>,
    ratios: Seq<u32>,
    levels: Seq<Seq<CellBox<D>>>,
    tiles: Seq<AmrPatch<D>>,
    patches: Seq<AmrPatch<D>>,
    starts: Seq<u32>,
)
    requires
        base.valid(),
        ratios_ok(ratios, levels.len()),
        levels.len() <= 255,
        no_fault::<R, D>(base.domain(), ratios, levels),
        tiles.len() == base.blocks(),
        forall|b: int|
            0 <= b < tiles.len() ==> (#[trigger] tiles[b]).level == 0 && is_tile(
                base,
                tiles[b].bx,
                b,
            ),
        stack_ok(tiles, levels, patches, starts),
        forall|l: int, i: int|
            #![trigger levels[l][i]]
            0 <= l < levels.len() && 0 <= i < levels[l].len() ==> levels[l][i].spans_fit(),
    ensures
        forall|p: int|
            0 <= p < patches.len() ==> {
                let l = (#[trigger] patches[p]).level as int;
                &&& l <= levels.len()
                &&& start_of(tiles.len() as int, levels, l) <= p < start_of(
                    tiles.len() as int,
                    levels,
                    l + 1,
                )
                &&& nonempty(patches[p].bx)
                &&& within(patches[p].bx, level_cells(base.domain(), ratios, l as nat))
                &&& l > 0 ==> patches[p].bx == levels[l - 1][p - start_of(
                    tiles.len() as int,
                    levels,
                    l,
                )]
            },
        forall|p: int, q: int|
            #![trigger patches[p], patches[q]]
            0 <= p < q < patches.len() && patches[p].level == patches[q].level
                ==> !patches[q].bx.meets(patches[p].bx),
{
    let n = tiles.len() as int;
    let cells = base.domain();
    assert forall|p: int| 0 <= p < patches.len() implies {
        let l = (#[trigger] patches[p]).level as int;
        &&& l <= levels.len()
        &&& start_of(n, levels, l) <= p < start_of(n, levels, l + 1)
        &&& nonempty(patches[p].bx)
        &&& within(patches[p].bx, level_cells(cells, ratios, l as nat))
        &&& l > 0 ==> patches[p].bx == levels[l - 1][p - start_of(n, levels, l)]
    } by {
        let l = patches[p].level as int;
        if p < n {
            assert(patches[p] == tiles[p]);
            lemma_tile_inside(base, tiles[p].bx, p);
            assert forall|d: int| 0 <= d < D implies 0 <= #[trigger] patches[p].bx.lo[d]
                <= patches[p].bx.hi[d] <= level_cells(cells, ratios, 0)[d] by {
                assert(0 <= tiles[p].bx.lo[d] <= tiles[p].bx.hi[d] <= cells[d]);
                assert(cells[d] * 1 == cells[d]);
            }
            lemma_boxes_below_grows(levels, 0, 0);
        } else {
            let i = p - start_of(n, levels, l);
            assert(start_of(n, levels, l + 1) == start_of(n, levels, l) + levels[l - 1].len());
            let bx = levels[l - 1][i];
            assert(patches[start_of(n, levels, l) + i] == (AmrPatch { level: l as u8, bx }));
            assert(box_error::<R, D>(cells, ratios, levels, l - 1, i) is None);
            lemma_count(bx);
            assert forall|d: int| 0 <= d < D implies (#[trigger] bx.lo[d]) < bx.hi[d] by {
                assert(0 <= bx.lo[d] <= bx.hi[d]);
                assert(bx.width(d) != 0);
            }
        }
    }
    assert forall|p: int, q: int|
        #![trigger patches[p], patches[q]]
        0 <= p < q < patches.len() && patches[p].level == patches[q].level implies !patches[q].bx.meets(
        patches[p].bx,
    ) by {
        let l = patches[p].level as int;
        if q < n {
            assert(patches[p] == tiles[p]);
            assert(patches[q] == tiles[q]);
            lemma_tiles_disjoint(base, tiles[q].bx, tiles[p].bx, q, p);
        } else {
            if p < n {
                assert(patches[p] == tiles[p]);
            }
            let i = p - start_of(n, levels, l);
            let j = q - start_of(n, levels, l);
            assert(start_of(n, levels, l + 1) == start_of(n, levels, l) + levels[l - 1].len());
            assert(box_error::<R, D>(cells, ratios, levels, l - 1, j) is None);
            assert(patches[p].bx == levels[l - 1][i]);
            assert(patches[q].bx == levels[l - 1][j]);
        }
    }
}

/// The requested levels up to the last one that holds a box.
fn populated_levels<const D: usize>(levels: &[Vec<CellBox<D>>]) -> (r: &[Vec<CellBox<D>>])
    ensures
        r@.len() <= levels@.len(),
        r@ == levels@.take(r@.len() as int),
        level_views(r@) == trimmed(level_views(levels@)),
{
    let ghost all = level_views(levels@);
    let mut n: usize = levels.len();
    assert(all.take(n as int) =~= all);
    while n > 0 && levels[n - 1].len() == 0
        invariant
            n <= levels@.len(),
            all == level_views(levels@),
            trimmed(all) == trimmed(all.take(n as int)),
        decreases n,
    {
        let ghost t = all.take(n as int);
        assert(t.last() == levels@[n - 1]@);
        assert(t.drop_last() =~= all.take(n - 1));
        n -= 1;
    }
    let r = vstd::slice::slice_subrange(levels, 0, n);
    proof {
        let t = all.take(n as int);
        assert(n > 0 ==> t.last() == levels@[n - 1]@);
        assert(trimmed(t) == t);
        assert(r@ =~= levels@.take(n as int));
        assert(level_views(r@) =~= t);
    }
    r
}

/// Leaving out the empty levels at the end of a fault-free request leaves no fault,
/// and the same boxes.
proof fn lemma_kept_levels<R, const D: usize>(
    cells: Seq<int>,
    ratios: Seq<u32>,
    levels: Seq<Seq<CellBox<D>>>,
)
    requires
        no_fault::<R, D>(cells, ratios, levels),
    ensures
        no_fault::<R, D>(cells, ratios, trimmed(levels)),
        trimmed(levels).len() <= levels.len(),
        trimmed(levels).len() > 0 ==> trimmed(levels).last().len() > 0,
        boxes_below(trimmed(levels), trimmed(levels).len() as int) <= boxes_below(
            levels,
            levels.len() as int,
        ),
{
    lemma_trimmed(levels);
    let kept = trimmed(levels);
    let n = kept.len() as int;
    assert forall|l: int, i: int| 0 <= l < n && 0 <= i < kept[l].len() implies (
    #[trigger] box_error::<R, D>(cells, ratios, kept, l, i)) is None by {
        assert(kept[l] == levels[l]);
        assert(l > 0 ==> kept[l - 1] == levels[l - 1]);
        assert(box_error::<R, D>(cells, ratios, levels, l, i) is None);
    }
    lemma_boxes_below_prefix(kept, levels, n);
    lemma_boxes_below_grows(levels, n, levels.len() as int);
}

proof fn lemma_boxes_below_prefix<const D: usize>(
    a: Seq<Seq<CellBox<D>>>,
    b: Seq<Seq<CellBox<D>>>,
    n: int,
)
    requires
        0 <= n <= a.len(),
        n <= b.len(),
        forall|l: int| 0 <= l < n ==> #[trigger] a[l] == b[l],
    ensures
        boxes_below(a, n) == boxes_below(b, n),
    decreases n,
{
    if n > 0 {
        lemma_boxes_below_prefix(a, b, n - 1);
        assert(a[n - 1] == b[n - 1]);
    }
}

/// Nesting leaves no level empty below one that holds a box.
proof fn lemma_levels_hold_boxes<R, const D: usize>(
    cells: Seq<int>,
    ratios: Seq<u32>,
    levels: Seq<Seq<CellBox<D>>>,
    l: int,
)
    requires
        cells.len() == D,
        no_fault::<R, D>(cells, ratios, levels),
        ratios_ok(ratios, levels.len()),
        levels.len() > 0,
        levels.last().len() > 0,
        0 <= l < levels.len(),
        forall|l: int, i: int|
            #![trigger levels[l][i]]
            0 <= l < levels.len() && 0 <= i < levels[l].len() ==> levels[l][i].spans_fit(),
    ensures
        levels[l].len() > 0,
    decreases levels.len() - l,
{
    if l < levels.len() - 1 {
        lemma_levels_hold_boxes::<R, D>(cells, ratios, levels, l + 1);
        let bx = levels[l + 1][0];
        let r = ratios[l + 1] as int;
        let coarse = level_cells(cells, ratios, (l + 1) as nat);
        let fine = level_cells(cells, ratios, (l + 2) as nat);
        assert(box_error::<R, D>(cells, ratios, levels, l + 1, 0) is None);
        lemma_count(bx);
        let s = Seq::new(D as nat, |d: int| (bx.lo[d] as int / r) as i64);
        let c = array_of::<D>(s);
        lemma_array_of::<D>(s);
        assert forall|d: int| 0 <= d < D implies {
            &&& 0 <= #[trigger] c[d] < coarse[d]
            &&& bx.lo[d] as int / r - 1 <= c[d]
            &&& c[d] < (bx.hi[d] + r - 1) / r + 1
        } by {
            let lo = bx.lo[d] as int;
            let hi = bx.hi[d] as int;
            assert(0 <= bx.lo[d] <= bx.hi[d] <= fine[d]);
            assert(bx.width(d) != 0);
            let n = coarse[d];
            let k = cells[d];
            let m = scale(ratios, (l + 1) as nat);
            assert(fine[d] == k * (m * r));
            assert(k * (m * r) == (k * m) * r) by (nonlinear_arith);
            assert(0 <= lo / r <= lo && lo / r < n) by (nonlinear_arith)
                requires
                    0 <= lo < n * r,
                    r >= 1,
            ;
            assert(lo / r <= (hi + r - 1) / r) by (nonlinear_arith)
                requires
                    lo < hi,
                    r >= 1,
            ;
            assert(c[d] == s[d]);
        }
        assert(in_margin(bx, r, coarse, c));
        assert(nested(bx, r, coarse, levels[l]));
        assert(some_box_has(levels[l], c));
    }
}

impl<R: Real, const D: usize> AmrGrid<R, D> {
    /// Build a hierarchy from explicit per-level patch boxes.
    ///
    /// `levels[l]` holds the level-`l + 1` patches, in level-`l + 1` cell
    /// coordinates; level 0 is always the base grid's own block tiling. Ratios
    /// apply in order. Levels above the last box are left unpopulated, for an
    /// adaptivity policy to fill. Fails on a ratio below 2 or more levels than ratios,
    /// else on the first faulty box in level and box order.
    pub fn from_patches(
        base: CartesianGrid<R, D>,
        ratios: &[u32],
        levels: &[Vec<CellBox<D>>],
    ) -> (r: Result<Self, GridError<R>>)
        requires
            D > 0,
            base.valid(),
            levels@.len() <= 255,
            ratios_ok(ratios@, levels@.len()) ==> levels_fit(
                base.domain(),
                ratios@,
                levels@.len(),
            ),
            base.blocks() + boxes_below(level_views(levels@), levels@.len() as int) < u32::MAX,
            forall|l: int, i: int|
                #![trigger levels@[l]@[i]]
                0 <= l < levels@.len() && 0 <= i < levels@[l]@.len() ==> levels@[l]@[i].spans_fit(),
        ensures
            !ratios_ok(ratios@, levels@.len()) ==> r == Err::<Self, GridError<R>>(
                GridError::AmrRatio {
                    levels: levels@.len() as usize,
                    ratios: ratios@.len() as usize,
                },
            ),
            ratios_ok(ratios@, levels@.len()) ==> (r is Ok <==> no_fault::<R, D>(
                base.domain(),
                ratios@,
                level_views(levels@),
            )),
            ratios_ok(ratios@, levels@.len()) ==> (r matches Err(err) ==> first_fault::<R, D>(
                base.domain(),
                ratios@,
                level_views(levels@),
                err,
            )),
            r matches Ok(grid) ==> {
                let kept = trimmed(level_views(levels@));
                &&& grid.sound()
                &&& grid.base_grid() == base
                &&& grid.ratio_list() == ratios@
                &&& grid.levels() == kept.len() + 1
                &&& forall|l: int|
                    0 <= l < kept.len() ==> #[trigger] grid.level_boxes(l + 1) == kept[l]
            },
    {
        let ghost asked = level_views(levels@);
        if levels.len() > ratios.len() {
            return Err(GridError::AmrRatio { levels: levels.len(), ratios: ratios.len() });
        }
        let mut list: Vec<u32> = Vec::new();
        let mut k: usize = 0;
        while k < ratios.len()
            invariant
                k <= ratios@.len(),
                list@ == ratios@.take(k as int),
                forall|j: int| 0 <= j < k ==> #[trigger] ratios@[j] >= 2,
            decreases ratios.len() - k,
        {
            if ratios[k] < 2 {
                assert(ratios@[k as int] < 2);
                return Err(GridError::AmrRatio { levels: levels.len(), ratios: ratios.len() });
            }
            list.push(ratios[k]);
            k += 1;
            assert(list@ =~= ratios@.take(k as int));
        }
        assert(list@ =~= ratios@);
        assert(ratios_ok(ratios@, levels@.len()));
        let ghost cells = base.domain();
        proof {
            let lc = level_cells(cells, ratios@, 0);
            assert(volume(lc) <= usize::MAX);
            assert forall|d: int| 0 <= d < D implies (#[trigger] base.domain()[d]) <= i64::MAX by {
                assert(lc[d] + 0x1_0000_0000 <= i64::MAX);
                assert(cells[d] * 1 == cells[d]);
            }
        }
        let tiles = base_patches(&base);
        let mut tile_boxes: Vec<CellBox<D>> = Vec::new();
        let mut b: usize = 0;
        while b < tiles.len()
            invariant
                b <= tiles@.len(),
                tile_boxes@.len() == b,
                forall|k: int| 0 <= k < b ==> #[trigger] tile_boxes@[k] == tiles@[k].bx,
            decreases tiles.len() - b,
        {
            tile_boxes.push(tiles[b].bx);
            b += 1;
        }
        match check_levels(&base, ratios, levels, tile_boxes.as_slice()) {
            Some(err) => {
                return Err(err);
            },
            None => {},
        }
        let ghost tile_list = tiles@;
        let levels = populated_levels(levels);
        let ghost views = level_views(levels@);
        proof {
            lemma_kept_levels::<R, D>(cells, ratios@, asked);
            assert(views == trimmed(asked));
        }
        let (patches, level_start) = stack_levels(tiles, levels);
        let level_spacing = spacing_table(&base, ratios);
        proof {
            assert forall|l: int, i: int|
                #![trigger views[l][i]]
                0 <= l < views.len() && 0 <= i < views[l].len() implies views[l][i].spans_fit() by {
                assert(views[l] == levels@[l]@);
                assert(levels@[l]@[i].spans_fit());
            }
            lemma_stack_is_sound(&base, ratios@, views, tile_list, patches@, level_start@);
            lemma_domain_positive(&base);
        }
        let lookup = lookup_table(
            &base,
            ratios,
            &patches,
            &level_start,
            Ghost(tile_list),
            Ghost(views),
        );
        let ghost base0 = base;
        let grid = AmrGrid {
            base,
            ratios: frozen(list),
            patches: frozen(patches),
            level_spacing: frozen(level_spacing),
            level_start: frozen(level_start),
            lookup: frozen(lookup),
        };
        proof {
            lemma_built(base0, views, tile_list, grid);
        }
        Ok(grid)
    }
}

proof fn lemma_starts_grow<const D: usize>(
    n: int,
    levels: Seq<Seq<CellBox<D>>>,
    a: int,
    b: int,
)
    requires
        n >= 0,
        0 <= a <= b <= levels.len() + 1,
    ensures
        start_of(n, levels, a) <= start_of(n, levels, b),
{
    if a > 0 {
        lemma_boxes_below_grows(levels, a - 1, b - 1);
    } else if b > 0 {
        lemma_boxes_below_grows(levels, 0, b - 1);
    }
}

/// The ownership maps of all levels.
fn lookup_table<R: Real, const D: usize>(
    base: &CartesianGrid<R, D>,
    ratios: &[u32],
    patches: &Vec<AmrPatch<D>>,
    level_start: &Vec<u32>,
    tiles: Ghost<Seq<AmrPatch<D>>>,
    levels: Ghost<Seq<Seq<CellBox<D>>>>,
) -> (lookup: Vec<Box<[u32]>>)
    requires
        D > 0,
        base.valid(),
        positive(base.domain()),
        levels@.len() <= 255,
        tiles@.len() + boxes_below(levels@, levels@.len() as int) < u32::MAX,
        ratios_ok(ratios@, levels@.len()),
        levels_fit(base.domain(), ratios@, levels@.len()),
        stack_ok(tiles@, levels@, patches@, level_start@),
        forall|p: int|
            0 <= p < patches@.len() ==> {
                let l = (#[trigger] patches@[p]).level as int;
                &&& l <= levels@.len()
                &&& start_of(tiles@.len() as int, levels@, l) <= p < start_of(
                    tiles@.len() as int,
                    levels@,
                    l + 1,
                )
                &&& within(patches@[p].bx, level_cells(base.domain(), ratios@, l as nat))
            },
        forall|p: int, q: int|
            #![trigger patches@[p], patches@[q]]
            0 <= p < q < patches@.len() && patches@[p].level == patches@[q].level
                ==> !patches@[q].bx.meets(patches@[p].bx),
    ensures
        lookup@.len() == level_start@.len() - 1,
        forall|l: int|
            0 <= l < lookup@.len() ==> owns(
                (#[trigger] lookup@[l])@,
                patches@,
                level_start@[l] as int,
                level_start@[l + 1] as int,
                level_cells(base.domain(), ratios@, l as nat),
            ),
{
    let ghost cells = base.domain();
    let ghost views = levels@;
    let ghost n = tiles@.len() as int;
    let mut lookup: Vec<Box<[u32]>> = Vec::new();
    let mut level: usize = 0;
    while level + 1 < level_start.len()
        invariant
            D > 0,
            base.valid(),
            cells == base.domain(),
            positive(cells),
            views == levels@,
            views.len() <= 255,
            n == tiles@.len(),
            n + boxes_below(views, views.len() as int) < u32::MAX,
            ratios_ok(ratios@, views.len()),
            levels_fit(cells, ratios@, views.len()),
            stack_ok(tiles@, views, patches@, level_start@),
            level < level_start@.len(),
            lookup@.len() == level,
            forall|p: int|
                0 <= p < patches@.len() ==> {
                    let l = (#[trigger] patches@[p]).level as int;
                    &&& l <= views.len()
                    &&& start_of(n, views, l) <= p < start_of(n, views, l + 1)
                    &&& within(patches@[p].bx, level_cells(cells, ratios@, l as nat))
                },
            forall|p: int, q: int|
                #![trigger patches@[p], patches@[q]]
                0 <= p < q < patches@.len() && patches@[p].level == patches@[q].level
                    ==> !patches@[q].bx.meets(patches@[p].bx),
            forall|l: int|
                0 <= l < level ==> owns(
                    (#[trigger] lookup@[l])@,
                    patches@,
                    level_start@[l] as int,
                    level_start@[l + 1] as int,
                    level_cells(cells, ratios@, l as nat),
                ),
        decreases level_start.len() - level,
    {
        let ghost lc = level_cells(cells, ratios@, level as nat);
        proof {
            assert(volume(lc) <= usize::MAX);
            assert forall|d: int| 0 <= d < D implies (#[trigger] lc[d]) <= i64::MAX by {
                assert(lc[d] + 0x1_0000_0000 <= i64::MAX);
            }
            lemma_level_cells_positive(cells, ratios@, level as nat);
        }
        let domain = level_domain_of(base, ratios, level as u8);
        let start = level_start[level];
        let end = level_start[level + 1];
        proof {
            assert(ints(domain.hi) =~= lc);
            lemma_starts_grow(n, views, level as int, level + 1);
            lemma_starts_grow(n, views, level + 1, views.len() as int + 1);
            assert forall|d: int| 0 <= d < D implies 0 < #[trigger] domain.hi[d] by {
                assert(lc[d] > 0);
            }
            assert forall|p: int| start <= p < end implies (#[trigger] patches@[p]).level
                == level by {
                let l = patches@[p].level as int;
                if l < level {
                    lemma_starts_grow(n, views, l + 1, level as int);
                } else if l > level {
                    lemma_starts_grow(n, views, level + 1, l);
                }
            }
        }
        let map = level_map(patches, start, end, &domain);
        lookup.push(frozen(map));
        level += 1;
    }
    lookup
}

/// Everything known of a hierarchy when its parts have been put together.
spec fn assembled<R: Real, const D: usize>(
    base0: CartesianGrid<R, D>,
    views: Seq<Seq<CellBox<D>>>,
    tile_list: Seq<AmrPatch<D>>,
    grid: AmrGrid<R, D>,
) -> bool {
    &&& D > 0
    &&& base0.valid()
    &&& grid.base_grid() == base0
    &&& views.len() <= 255
    &&& ratios_ok(grid.ratio_list(), views.len())
    &&& levels_fit(base0.domain(), grid.ratio_list(), views.len())
    &&& no_fault::<R, D>(base0.domain(), grid.ratio_list(), views)
    &&& tile_list.len() == base0.blocks()
    &&& tile_list.len() + boxes_below(views, views.len() as int) < u32::MAX
    &&& forall|b: int|
        0 <= b < tile_list.len() ==> (#[trigger] tile_list[b]).level == 0 && is_tile(
            &base0,
            tile_list[b].bx,
            b,
        )
    &&& forall|l: int, i: int|
        #![trigger views[l][i]]
        0 <= l < views.len() && 0 <= i < views[l].len() ==> views[l][i].spans_fit()
    &&& stack_ok(tile_list, views, grid.patch_list(), grid.starts())
    &&& views.len() > 0 ==> views.last().len() > 0
}

proof fn lemma_assembled_stack<R: Real, const D: usize>(
    base0: CartesianGrid<R, D>,
    views: Seq<Seq<CellBox<D>>>,
    tile_list: Seq<AmrPatch<D>>,
    grid: AmrGrid<R, D>,
)
    requires
        assembled(base0, views, tile_list, grid),
    ensures
        grid.stacked(),
{
    let n = tile_list.len() as int;
    let st = grid.starts();
    let pl = grid.patch_list();
    let last = views.len() as int + 1;
    lemma_stack_is_sound(&base0, grid.ratio_list(), views, tile_list, pl, st);
    assert forall|l: int, m: int| 0 <= l <= m < st.len() implies (#[trigger] st[l]) <= (
    #[trigger] st[m]) by {
        lemma_starts_grow(n, views, l, m);
    }
    assert forall|l: int, p: int|
        #![trigger st[l], pl[p]]
        0 <= l < grid.levels() && st[l] <= p < st[l + 1] implies pl[p].level == l by {
        let k = pl[p].level as int;
        lemma_starts_grow(n, views, l + 1, last);
        if k < l {
            lemma_starts_grow(n, views, k + 1, l);
        } else if k > l {
            lemma_starts_grow(n, views, l + 1, k);
        }
    }
    assert forall|p: int| 0 <= p < pl.len() implies (#[trigger] pl[p]).level < grid.levels()
        && st[pl[p].level as int] <= p < st[pl[p].level + 1] by {
        let k = pl[p].level as int;
        assert(st[k] == start_of(n, views, k));
        assert(st[k + 1] == start_of(n, views, k + 1));
    }
    assert(st.last() == start_of(n, views, last));
}

proof fn lemma_assembled_boxes<R: Real, const D: usize>(
    base0: CartesianGrid<R, D>,
    views: Seq<Seq<CellBox<D>>>,
    tile_list: Seq<AmrPatch<D>>,
    grid: AmrGrid<R, D>,
)
    requires
        assembled(base0, views, tile_list, grid),
    ensures
        are_tiles(&base0, grid.level_boxes(0)),
        forall|l: int| 0 <= l < views.len() ==> #[trigger] grid.level_boxes(l + 1) == views[l],
{
    let n = tile_list.len() as int;
    let st = grid.starts();
    let pl = grid.patch_list();
    assert forall|l: int| 0 <= l < views.len() implies #[trigger] grid.level_boxes(l + 1)
        == views[l] by {
        assert(st[l + 1] == start_of(n, views, l + 1));
        assert(st[l + 2] == start_of(n, views, l + 2));
        assert forall|i: int| 0 <= i < views[l].len() implies grid.level_boxes(l + 1)[i]
            == #[trigger] views[l][i] by {
            assert(pl[start_of(n, views, l + 1) + i] == (AmrPatch {
                level: (l + 1) as u8,
                bx: views[l][i],
            }));
        }
        assert(grid.level_boxes(l + 1) =~= views[l]);
    }
    assert(st[0] == 0);
    assert(st[1] == start_of(n, views, 1));
    assert forall|b: int| 0 <= b < n implies is_tile(&base0, #[trigger] grid.level_boxes(0)[b], b) by {
        assert(pl[b] == tile_list[b]);
    }
}

proof fn lemma_assembled_nesting<R: Real, const D: usize>(
    base0: CartesianGrid<R, D>,
    views: Seq<Seq<CellBox<D>>>,
    tile_list: Seq<AmrPatch<D>>,
    grid: AmrGrid<R, D>,
    p: int,
)
    requires
        assembled(base0, views, tile_list, grid),
        0 <= p < grid.patch_list().len(),
        grid.patch_list()[p].level > 0,
    ensures
        ({
            let l = grid.patch_list()[p].level as int;
            &&& aligned(grid.patch_list()[p].bx, grid.ratio_list()[l - 1] as int)
            &&& nested(
                grid.patch_list()[p].bx,
                grid.ratio_list()[l - 1] as int,
                grid.cells_at(l - 1),
                grid.level_boxes(l - 1),
            )
        }),
{
    let n = tile_list.len() as int;
    let cells = base0.domain();
    let ratios = grid.ratio_list();
    let pl = grid.patch_list();
    lemma_stack_is_sound(&base0, ratios, views, tile_list, pl, grid.starts());
    lemma_assembled_boxes(base0, views, tile_list, grid);
    let l = pl[p].level as int;
    let i = p - start_of(n, views, l);
    let bx = pl[p].bx;
    assert(start_of(n, views, l + 1) == start_of(n, views, l) + views[l - 1].len());
    assert(bx == views[l - 1][i]);
    assert(box_error::<R, D>(cells, ratios, views, l - 1, i) is None);
    if l == 1 {
        assert forall|c: [i64; D]| #[trigger] in_margin(
            bx,
            ratios[0] as int,
            grid.cells_at(0),
            c,
        ) implies some_box_has(grid.level_boxes(0), c) by {
            assert(in_ext(ints(c), cells)) by {
                assert forall|e: int| 0 <= e < D implies 0 <= #[trigger] ints(c)[e] < cells[e] by {
                    assert(0 <= c[e] < grid.cells_at(0)[e]);
                    assert(cells[e] * 1 == cells[e]);
                }
            }
            lemma_tiles_cover(&base0, grid.level_boxes(0), c);
        }
    } else {
        assert(grid.level_boxes((l - 2) + 1) == views[l - 2]);
    }
}

proof fn lemma_assembled_populated<R: Real, const D: usize>(
    base0: CartesianGrid<R, D>,
    views: Seq<Seq<CellBox<D>>>,
    tile_list: Seq<AmrPatch<D>>,
    grid: AmrGrid<R, D>,
)
    requires
        assembled(base0, views, tile_list, grid),
    ensures
        grid.populated(),
{
    reveal(AmrGrid::populated);
    let st = grid.starts();
    let n = tile_list.len() as int;
    assert forall|l: int| 0 <= l < grid.levels() implies (#[trigger] st[l]) < st[l + 1] by {
        assert(st[l] == start_of(n, views, l));
        assert(st[l + 1] == start_of(n, views, l + 1));
        if l == 0 {
            lemma_volume_positive(base0.tiling());
        } else {
            lemma_levels_hold_boxes::<R, D>(base0.domain(), grid.ratio_list(), views, l - 1);
        }
    }
}

/// A stacked, indexed, fault-free hierarchy meets its invariants.
proof fn lemma_built<R: Real, const D: usize>(
    base0: CartesianGrid<R, D>,
    views: Seq<Seq<CellBox<D>>>,
    tile_list: Seq<AmrPatch<D>>,
    grid: AmrGrid<R, D>,
)
    requires
        assembled(base0, views, tile_list, grid),
        grid.indexed(),
    ensures
        grid.sound(),
        grid.levels() == views.len() + 1,
        forall|l: int| 0 <= l < views.len() ==> #[trigger] grid.level_boxes(l + 1) == views[l],
{
    let pl = grid.patch_list();
    lemma_stack_is_sound(&base0, grid.ratio_list(), views, tile_list, pl, grid.starts());
    lemma_assembled_stack(base0, views, tile_list, grid);
    lemma_assembled_boxes(base0, views, tile_list, grid);
    assert forall|p: int| 0 <= p < pl.len() && (#[trigger] pl[p]).level > 0 implies {
        let l = pl[p].level as int;
        &&& aligned(pl[p].bx, grid.ratio_list()[l - 1] as int)
        &&& nested(
            pl[p].bx,
            grid.ratio_list()[l - 1] as int,
            grid.cells_at(l - 1),
            grid.level_boxes(l - 1),
        )
    } by {
        lemma_assembled_nesting(base0, views, tile_list, grid, p);
    }
    reveal(AmrGrid::disjoint);
    reveal(AmrGrid::properly_nested);
    lemma_assembled_populated(base0, views, tile_list, grid);
}

/// Extents of a level domain are machine words.
pub proof fn lemma_extent_le_volume(ext: Seq<int>, d: int)
    requires
        positive(ext),
        0 <= d < ext.len(),
    ensures
        ext[d] <= volume(ext),
{
    lemma_volume_prefix(ext, d);
    lemma_volume_prefix(ext, d + 1);
    lemma_lin_step(ext, ext, d);
    let v = volume(ext.take(d));
    let x = ext[d];
    assert(x > 0);
    assert(x <= v * x) by (nonlinear_arith)
        requires
            v >= 1,
            x >= 1,
    ;
}

impl<R: Real, const D: usize> AmrGrid<R, D> {
    /// Facts about one patch of a sound hierarchy.
    pub proof fn lemma_patch(&self, p: int)
        requires
            self.sound(),
            0 <= p < self.patch_list().len(),
        ensures
            ({
                let q = self.patch_list()[p];
                &&& q.level < self.levels()
                &&& nonempty(q.bx)
                &&& q.bx.spans_fit()
                &&& within(q.bx, self.cells_at(q.level as int))
                &&& forall|d: int|
                    0 <= d < D ==> (#[trigger] q.bx.hi[d]) - q.bx.lo[d] <= usize::MAX
                &&& positive(q.bx.widths())
                &&& positive(self.cells_at(q.level as int))
                &&& volume(self.cells_at(q.level as int)) <= usize::MAX
                &&& forall|d: int|
                    0 <= d < D ==> q.bx.width(d) == (#[trigger] q.bx.hi[d]) - q.bx.lo[d]
                &&& forall|d: int|
                    0 <= d < D ==> (#[trigger] self.cells_at(q.level as int)[d]) + 0x1_0000_0000
                        <= i64::MAX
            }),
    {
        let q = self.patch_list()[p];
        let l = q.level as int;
        let ext = self.cells_at(l);
        lemma_domain_positive(&self.base_grid());
        lemma_level_cells_positive(self.base_grid().domain(), self.ratio_list(), l as nat);
        assert(volume(ext) <= usize::MAX);
        assert forall|d: int| 0 <= d < D implies {
            &&& 0 <= (#[trigger] q.bx.hi[d]) - q.bx.lo[d] <= usize::MAX
            &&& q.bx.hi[d] - q.bx.lo[d] <= i64::MAX
            &&& q.bx.width(d) == q.bx.hi[d] - q.bx.lo[d]
        } by {
            assert(0 <= q.bx.lo[d] <= q.bx.hi[d] <= ext[d]);
            lemma_extent_le_volume(ext, d);
        }
        assert forall|d: int| 0 <= d < D implies 0 < #[trigger] q.bx.widths()[d] by {
            assert(q.bx.lo[d] < q.bx.hi[d]);
        }
    }

    /// A patch stands in the list of boxes of its level.
    pub proof fn lemma_position(&self, p: int)
        requires
            self.stacked(),
            0 <= p < self.patch_list().len(),
        ensures
            ({
                let l = self.patch_list()[p].level as int;
                let k = p - self.starts()[l];
                &&& l < self.levels()
                &&& 0 <= k < self.level_boxes(l).len()
                &&& self.level_boxes(l)[k] == self.patch_list()[p].bx
            }),
    {
    }

    /// A box of a level belongs to a patch of that level.
    pub proof fn lemma_level_box(&self, l: int, k: int)
        requires
            self.stacked(),
            0 <= l < self.levels(),
            0 <= k < self.level_boxes(l).len(),
        ensures
            ({
                let p = self.starts()[l] + k;
                &&& 0 <= p < self.patch_list().len()
                &&& self.patch_list()[p].level == l
                &&& self.level_boxes(l)[k] == self.patch_list()[p].bx
            }),
    {
        let st = self.starts();
        assert(st[l + 1] <= st[st.len() - 1]);
        assert(st[0] <= st[l]);
        self.lemma_level_at(l, st[l] + k);
    }

    /// The base (level-0) grid.
    pub fn base(&self) -> (r: &CartesianGrid<R, D>)
        ensures
            *r == self.base_grid(),
    {
        &self.base
    }

    /// Refinement ratios between consecutive levels.
    pub fn ratios(&self) -> (r: &[u32])
        ensures
            r@ == self.ratio_list(),
    {
        &self.ratios
    }

    /// Number of *populated* levels (at least 1; level 0 is the base).
    pub fn num_levels(&self) -> (r: usize)
        requires
            self.sound(),
        ensures
            r == self.levels(),
    {
        self.level_start.len() - 1
    }

    /// Maximum levels this hierarchy's ratio list allows.
    pub fn max_levels(&self) -> (r: usize)
        requires
            self.ratio_list().len() < usize::MAX,
        ensures
            r == self.ratio_list().len() + 1,
    {
        self.ratios.len() + 1
    }

    /// Cell spacing at refinement `level`, valid up to the deepest level the
    /// ratios allow, even for levels not currently populated.
    pub fn spacing_at_level(&self, level: u8) -> (r: [R; D])
        requires
            self.sound(),
            level <= self.ratio_list().len(),
        ensures
            forall|d: int|
                0 <= d < D ==> #[trigger] r[d] == level_step(
                    self.base_grid(),
                    self.ratio_list(),
                    level as nat,
                    d,
                ),
    {
        self.level_spacing[level as usize]
    }

    /// All patches, level-major (a block id indexes this slice).
    pub fn patches(&self) -> (r: &[AmrPatch<D>])
        ensures
            r@ == self.patch_list(),
    {
        &self.patches
    }

    /// The patch behind a block id.
    pub fn patch(&self, block: BlockId) -> (r: &AmrPatch<D>)
        requires
            block.id() < self.patch_list().len(),
        ensures
            *r == self.patch_list()[block.id()],
    {
        &self.patches[block.index()]
    }

    /// The whole domain as a cell box at level `level`'s resolution.
    pub fn level_domain(&self, level: u8) -> (r: CellBox<D>)
        requires
            self.sound(),
            level <= self.ratio_list().len(),
            forall|d: int| 0 <= d < D ==> (#[trigger] self.cells_at(level as int)[d]) <= i64::MAX,
        ensures
            forall|d: int| 0 <= d < D ==> #[trigger] r.lo[d] == 0,
            forall|d: int| 0 <= d < D ==> #[trigger] r.hi[d] == self.cells_at(level as int)[d],
    {
        proof {
            let ext = level_cells(self.base.domain(), self.ratios@, level as nat);
            assert(ext == self.cells_at(level as int));
            assert forall|d: int| 0 <= d < D implies (#[trigger] ext[d]) <= i64::MAX by {
                assert(self.cells_at(level as int)[d] <= i64::MAX);
            }
        }
        level_domain_of(&self.base, &self.ratios, level)
    }

    /// First and one-past-last block of a level; an empty range for levels the
    /// hierarchy does not currently populate.
    pub fn level_range(&self, level: u8) -> (r: (u32, u32))
        requires
            self.sound(),
        ensures
            level < self.levels() ==> r.0 == self.starts()[level as int] && r.1
                == self.starts()[level + 1],
            level >= self.levels() ==> r.0 == 0 && r.1 == 0,
    {
        let l = level as usize;
        if l + 1 < self.level_start.len() {
            (self.level_start[l], self.level_start[l + 1])
        } else {
            (0, 0)
        }
    }

    /// The blocks of one level, in id order (none for levels the hierarchy does
    /// not currently populate).
    pub fn blocks_at(&self, level: u8) -> (r: Vec<BlockId>)
        requires
            self.sound(),
        ensures
            level < self.levels() ==> r@.len() == self.level_boxes(level as int).len() && (forall|
                i: int,
            |
                0 <= i < r@.len() ==> (#[trigger] r@[i]).id() == self.starts()[level as int] + i),
            level >= self.levels() ==> r@.len() == 0,
    {
        let (start, end) = self.level_range(level);
        let mut out: Vec<BlockId> = Vec::new();
        let mut b: u32 = start;
        proof {
            if level < self.levels() {
                assert(self.starts()[level as int] <= self.starts()[level + 1]);
            }
        }
        while b < end
            invariant
                start <= b <= end,
                out@.len() == b - start,
                forall|i: int| 0 <= i < out@.len() ==> (#[trigger] out@[i]).id() == start + i,
            decreases end - b,
        {
            out.push(BlockId(b));
            b = b + 1;
        }
        out
    }

    /// The level-`level` patch containing `cell`, if any: a lookup in the
    /// level's ownership map.
    pub fn find_patch(&self, level: u8, cell: [i64; D]) -> (r: Option<BlockId>)
        requires
            self.sound(),
        ensures
            r is None <==> level >= self.levels() || !some_box_has(
                self.level_boxes(level as int),
                cell,
            ),
            r matches Some(b) ==> b.id() < self.patch_list().len() && self.patch_list()[b.id()].level
                == level && self.patch_list()[b.id()].bx.has(cell),
    {
        let l = level as usize;
        if l >= self.lookup.len() {
            return None;
        }
        let ghost ext = self.cells_at(level as int);
        let ghost st = self.starts();
        let ghost pl = self.patch_list();
        proof {
            lemma_domain_positive(&self.base_grid());
            lemma_level_cells_positive(
                self.base_grid().domain(),
                self.ratio_list(),
                level as nat,
            );
            assert(volume(ext) <= usize::MAX);
            assert forall|d: int| 0 <= d < D implies (#[trigger] self.cells_at(level as int)[d])
                <= i64::MAX by {
                assert(ext[d] + 0x1_0000_0000 <= i64::MAX);
            }
            assert(st[level as int] <= st[level + 1]);
            assert(st[level + 1] <= st[st.len() - 1]);
            assert forall|p: int| st[level as int] <= p < st[level + 1] implies (
            #[trigger] pl[p]).level == level by {
                assert(st[level as int] <= p);
            }
        }
        let domain = self.level_domain(level);
        if !domain.contains(cell) {
            proof {
                assert forall|k: int| 0 <= k < self.level_boxes(level as int).len() implies !(
                #[trigger] self.level_boxes(level as int)[k]).has(cell) by {
                    let p = st[level as int] + k;
                    let bx = pl[p].bx;
                    assert(within(pl[p].bx, self.cells_at(pl[p].level as int)));
                    if bx.has(cell) {
                        assert forall|d: int| 0 <= d < D implies domain.lo[d] <= #[trigger] cell[d]
                            < domain.hi[d] by {
                            assert(bx.lo[d] <= cell[d] < bx.hi[d]);
                            assert(domain.lo[d] == 0 && domain.hi[d] == ext[d]);
                        }
                    }
                }
            }
            return None;
        }
        let mut extent = [0usize; D];
        let mut d: usize = 0;
        while d < D
            invariant
                d <= D,
                positive(ext),
                ext.len() == D,
                volume(ext) <= usize::MAX,
                forall|e: int| 0 <= e < D ==> #[trigger] domain.hi[e] == ext[e],
                forall|e: int| 0 <= e < d ==> #[trigger] extent[e] == ext[e],
            decreases D - d,
        {
            proof {
                lemma_extent_le_volume(ext, d as int);
                assert(ext[d as int] > 0);
                assert(domain.hi[d as int] == ext[d as int]);
            }
            extent[d] = domain.hi[d] as usize;
            d += 1;
        }
        proof {
            assert(usizes(extent) =~= ext);
            assert(in_ext(ints(cell), ext)) by {
                assert forall|e: int| 0 <= e < D implies 0 <= #[trigger] ints(cell)[e] < ext[e] by {
                    assert(domain.lo[e] <= cell[e] < domain.hi[e]);
                }
            }
        }
        let off = domain_offset(&cell, &extent);
        let pid = self.lookup[l][off];
        if pid == u32::MAX {
            proof {
                assert forall|k: int| 0 <= k < self.level_boxes(level as int).len() implies !(
                #[trigger] self.level_boxes(level as int)[k]).has(cell) by {
                    let p = st[level as int] + k;
                    assert(!self.patches@[p].bx.has(cell));
                }
            }
            None
        } else {
            proof {
                let k = pid - st[level as int];
                assert(self.level_boxes(level as int)[k] == pl[pid as int].bx);
                assert(self.level_boxes(level as int)[k].has(cell));
            }
            Some(BlockId(pid))
        }
    }
}

/// The levels of a hierarchy are those that hold a patch.
pub proof fn every_level_is_populated<R: Real, const D: usize>(grid: &AmrGrid<R, D>, l: int)
    requires
        grid.sound(),
        0 <= l < grid.levels(),
    ensures
        grid.level_boxes(l).len() > 0,
{
    reveal(AmrGrid::populated);
    assert(grid.starts()[l] < grid.starts()[l + 1]);
}

/// A cell lies in at most one patch of its level: lookups are unambiguous.
pub proof fn owners_are_unique<R: Real, const D: usize>(
    grid: &AmrGrid<R, D>,
    p: int,
    q: int,
    c: [i64; D],
)
    requires
        grid.sound(),
        0 <= p < grid.patch_list().len(),
        0 <= q < grid.patch_list().len(),
        grid.patch_list()[p].level == grid.patch_list()[q].level,
        grid.patch_list()[p].bx.has(c),
        grid.patch_list()[q].bx.has(c),
    ensures
        p == q,
{
    reveal(AmrGrid::disjoint);
    let a = grid.patch_list()[p].bx;
    let b = grid.patch_list()[q].bx;
    assert(a.meets(b) && b.meets(a)) by {
        assert forall|d: int| 0 <= d < D implies (#[trigger] a.lo[d]) < b.hi[d] && b.lo[d]
            < a.hi[d] by {
            assert(a.lo[d] <= c[d] < a.hi[d]);
            assert(b.lo[d] <= c[d] < b.hi[d]);
        }
        assert forall|d: int| 0 <= d < D implies (#[trigger] b.lo[d]) < a.hi[d] && a.lo[d]
            < b.hi[d] by {
            assert(a.lo[d] <= c[d] < a.hi[d]);
            assert(b.lo[d] <= c[d] < b.hi[d]);
        }
    }
}

proof fn lemma_same_starts<R: Real, const D: usize>(
    a: &AmrGrid<R, D>,
    b: &AmrGrid<R, D>,
    n: int,
)
    requires
        a.stacked(),
        b.stacked(),
        a.levels() == b.levels(),
        forall|l: int| 0 <= l < a.levels() ==> #[trigger] a.level_boxes(l) == b.level_boxes(l),
        0 <= n <= a.levels(),
    ensures
        a.starts()[n] == b.starts()[n],
    decreases n,
{
    if n > 0 {
        lemma_same_starts(a, b, n - 1);
        assert(a.starts()[n - 1] <= a.starts()[n]);
        assert(b.starts()[n - 1] <= b.starts()[n]);
        assert(a.level_boxes(n - 1).len() == b.level_boxes(n - 1).len());
    }
}

proof fn lemma_same_patches<R: Real, const D: usize>(a: &AmrGrid<R, D>, b: &AmrGrid<R, D>)
    requires
        a.stacked(),
        b.stacked(),
        a.levels() == b.levels(),
        forall|l: int| 0 <= l < a.levels() ==> #[trigger] a.level_boxes(l) == b.level_boxes(l),
    ensures
        a.starts() == b.starts(),
        a.patch_list() == b.patch_list(),
{
    assert forall|n: int| 0 <= n < a.starts().len() implies a.starts()[n] == b.starts()[n] by {
        lemma_same_starts(a, b, n);
    }
    assert(a.starts() =~= b.starts());
    assert forall|p: int| 0 <= p < a.patch_list().len() implies a.patch_list()[p]
        == b.patch_list()[p] by {
        let l = a.patch_list()[p].level as int;
        let k = p - a.starts()[l];
        b.lemma_level_at(l, p);
        assert(a.level_boxes(l)[k] == a.patch_list()[p].bx);
        assert(b.level_boxes(l)[k] == b.patch_list()[p].bx);
    }
    assert(a.patch_list() =~= b.patch_list());
}

/// Both maps name the one patch that holds the cell, or none.
proof fn lemma_same_owner<R: Real, const D: usize>(
    a: &AmrGrid<R, D>,
    b: &AmrGrid<R, D>,
    l: int,
    k: int,
)
    requires
        a.sound(),
        b.sound(),
        a.base_grid() == b.base_grid(),
        a.ratio_list() == b.ratio_list(),
        a.starts() == b.starts(),
        a.patch_list() == b.patch_list(),
        0 <= l < a.levels(),
        0 <= k < volume(a.cells_at(l)),
    ensures
        a.lookup@[l]@[k] == b.lookup@[l]@[k],
{
    let ext = a.cells_at(l);
    lemma_domain_positive(&a.base_grid());
    lemma_level_cells_positive(a.base_grid().domain(), a.ratio_list(), l as nat);
    lemma_lin_delin(k, ext);
    let x = delin(k, ext);
    let s = Seq::new(D as nat, |d: int| x[d] as i64);
    let c = array_of::<D>(s);
    lemma_array_of::<D>(s);
    assert(ints(c) =~= x) by {
        assert forall|d: int| 0 <= d < D implies #[trigger] ints(c)[d] == x[d] by {
            assert(c[d] == s[d]);
            assert(0 <= x[d] < ext[d]);
            assert(ext[d] + 0x1_0000_0000 <= i64::MAX);
        }
    }
    let m = a.lookup@[l]@[k];
    let n = b.lookup@[l]@[k];
    let end = a.starts()[l + 1] as int;
    assert(end <= a.starts().last());
    assert(lin(ints(c), ext) == k);
    if m != u32::MAX && n != u32::MAX {
        a.lemma_level_at(l, m as int);
        a.lemma_level_at(l, n as int);
        owners_are_unique(a, m as int, n as int, c);
    } else if m != u32::MAX {
        assert(!b.patch_list()[m as int].bx.has(c));
    } else if n != u32::MAX {
        assert(!a.patch_list()[n as int].bx.has(c));
    }
}

/// A hierarchy is its base grid, its ratios and its boxes: two hierarchies that agree
/// on these are the same, down to the derived tables.
pub proof fn hierarchies_are_their_boxes<R: Real, const D: usize>(
    a: &AmrGrid<R, D>,
    b: &AmrGrid<R, D>,
)
    requires
        a.sound(),
        b.sound(),
        a.base_grid() == b.base_grid(),
        a.ratio_list() == b.ratio_list(),
        a.levels() == b.levels(),
        forall|l: int| 0 < l < a.levels() ==> #[trigger] a.level_boxes(l) == b.level_boxes(l),
    ensures
        *a == *b,
{
    assert(a.level_boxes(0) =~= b.level_boxes(0)) by {
        lemma_same_tiles(&a.base_grid(), a.level_boxes(0), b.level_boxes(0));
    }
    lemma_same_patches(a, b);
    assert(a.ratios =~= b.ratios);
    assert(a.level_start =~= b.level_start);
    assert(a.patches =~= b.patches);
    assert forall|l: int| 0 <= l < a.level_spacing@.len() implies a.level_spacing@[l]
        == b.level_spacing@[l] by {
        assert forall|d: int| 0 <= d < D implies #[trigger] a.level_spacing@[l][d]
            == b.level_spacing@[l][d] by {}
        assert(a.level_spacing@[l] =~= b.level_spacing@[l]);
    }
    assert(a.level_spacing =~= b.level_spacing);
    assert forall|l: int| 0 <= l < a.lookup@.len() implies a.lookup@[l] == b.lookup@[l] by {
        assert(a.cells_at(l) == b.cells_at(l));
        assert(a.lookup@[l]@.len() == volume(a.cells_at(l)));
        assert(b.lookup@[l]@.len() == volume(b.cells_at(l)));
        assert forall|k: int| 0 <= k < a.lookup@[l]@.len() implies a.lookup@[l]@[k]
            == b.lookup@[l]@[k] by {
            lemma_same_owner(a, b, l, k);
        }
        assert(a.lookup@[l] =~= b.lookup@[l]);
    }
    assert(a.lookup =~= b.lookup);
}

/// The tiles of a base grid are determined by it.
proof fn lemma_same_tiles<R: Real, const D: usize>(
    base: &CartesianGrid<R, D>,
    x: Seq<CellBox<D>>,
    y: Seq<CellBox<D>>,
)
    requires
        are_tiles(base, x),
        are_tiles(base, y),
    ensures
        x == y,
{
    assert forall|i: int| 0 <= i < x.len() implies x[i] == y[i] by {
        assert(is_tile(base, x[i], i));
        assert(is_tile(base, y[i], i));
        assert forall|d: int| 0 <= d < D implies #[trigger] x[i].hi[d] == y[i].hi[d] by {
            assert(x[i].lo[d] == y[i].lo[d]);
        }
        crate::geometry::amr::cluster::lemma_box_ext(x[i], y[i]);
    }
    assert(x =~= y);
}

/// Level 0 covers the whole domain: every cell of it has a patch.
pub proof fn base_level_covers_the_domain<R: Real, const D: usize>(
    grid: &AmrGrid<R, D>,
    c: [i64; D],
)
    requires
        grid.sound(),
        in_ext(ints(c), grid.base_grid().domain()),
    ensures
        some_box_has(grid.level_boxes(0), c),
{
    lemma_tiles_cover(&grid.base_grid(), grid.level_boxes(0), c);
}

/// Level 0 of a hierarchy is the base grid: its blocks come first, in block order,
/// with the base grid's extents and spacing, and a hierarchy of one level has no
/// others.
pub proof fn level_zero_is_the_base_grid<R: Real, const D: usize>(
    grid: &AmrGrid<R, D>,
    b: int,
    d: int,
)
    requires
        grid.sound(),
        0 <= b < grid.base_grid().blocks(),
        0 <= d < D,
    ensures
        b < grid.blocks(),
        grid.level_of(b) == 0,
        grid.extent_of(b) == grid.base_grid().extent_of(b),
        grid.spacing_of(b, d) == grid.base_grid().spacing_of(b, d),
        grid.levels() == 1 ==> grid.blocks() == grid.base_grid().blocks(),
{
    let st = grid.starts();
    let base = grid.base_grid();
    assert(grid.level_boxes(0).len() == base.blocks());
    assert(st[1] <= st[st.len() - 1]);
    grid.lemma_level_at(0, b);
    grid.lemma_level_box(0, b);
    let bx = grid.level_boxes(0)[b];
    assert(is_tile(&base, bx, b));
    assert(grid.extent_of(b) =~= base.tile()) by {
        assert forall|e: int| 0 <= e < D implies #[trigger] bx.widths()[e] == base.tile()[e] by {
            assert((base.coords_of(b)[e] + 1) * base.tile()[e] == base.coords_of(b)[e]
                * base.tile()[e] + base.tile()[e]) by (nonlinear_arith);
            assert(bx.lo[e] == base.coords_of(b)[e] * base.tile()[e]);
        }
    }
}

impl<R: Real, const D: usize> Grid<R, D> for AmrGrid<R, D> {
    open spec fn valid(&self) -> bool {
        self.sound()
    }

    open spec fn blocks(&self) -> nat {
        self.patch_list().len()
    }

    open spec fn extent_of(&self, b: int) -> Seq<int> {
        self.patch_list()[b].bx.widths()
    }

    open spec fn level_of(&self, b: int) -> int {
        self.patch_list()[b].level as int
    }

    open spec fn spacing_of(&self, b: int, d: int) -> R {
        level_step(self.base_grid(), self.ratio_list(), self.patch_list()[b].level as nat, d)
    }

    open spec fn finest_of(&self, d: int) -> R {
        level_step(self.base_grid(), self.ratio_list(), self.ratio_list().len(), d)
    }

    open spec fn center_of(&self, b: int, idx: Seq<int>, d: int) -> R {
        R::from_i64_spec((self.patch_list()[b].bx.lo[d] + idx[d]) as i64).add_spec(
            R::half_spec(),
        ).mul_add_spec(self.spacing_of(b, d), self.base_grid().corner(d))
    }

    open spec fn center_fits(&self, b: int, idx: Seq<int>) -> bool {
        forall|d: int|
            0 <= d < D ==> i64::MIN <= self.patch_list()[b].bx.lo[d] + (#[trigger] idx[d])
                <= i64::MAX
    }

    proof fn lemma_blocks(&self) {
        assert forall|b: int| 0 <= b < self.blocks() implies (#[trigger] self.extent_of(b)).len()
            == D && positive(self.extent_of(b)) by {
            self.lemma_patch(b);
        }
    }

    fn num_blocks(&self) -> (r: usize) {
        self.patches.len()
    }

    fn block_extent(&self, block: BlockId) -> (r: [usize; D]) {
        proof {
            self.lemma_patch(block.id());
        }
        self.patch(block).extent()
    }

    fn level(&self, block: BlockId) -> (r: u8) {
        self.patch(block).level
    }

    fn spacing(&self, block: BlockId) -> (r: [R; D]) {
        let level = self.patch(block).level;
        proof {
            self.lemma_patch(block.id());
        }
        self.spacing_at_level(level)
    }

    fn finest_spacing(&self) -> (r: [R; D]) {
        self.level_spacing[self.ratios.len()]
    }

    fn cell_center(&self, block: BlockId, idx: [isize; D]) -> (r: [R; D]) {
        let p = *self.patch(block);
        let h = self.spacing(block);
        let origin = self.base.origin();
        let mut out = [R::zero(); D];
        let mut d: usize = 0;
        while d < D
            invariant
                d <= D,
                self.valid(),
                block.id() < self.blocks(),
                p == self.patch_list()[block.id()],
                self.center_fits(block.id(), isizes(idx)),
                forall|e: int| 0 <= e < D ==> #[trigger] h[e] == self.spacing_of(block.id(), e),
                forall|e: int| 0 <= e < D ==> #[trigger] origin[e] == self.base_grid().corner(e),
                forall|e: int|
                    0 <= e < d ==> #[trigger] out[e] == self.center_of(
                        block.id(),
                        isizes(idx),
                        e,
                    ),
            decreases D - d,
        {
            assert(isizes(idx)[d as int] == idx[d as int]);
            assert(i64::MIN <= p.bx.lo[d as int] + isizes(idx)[d as int] <= i64::MAX);
            assert(h[d as int] == self.spacing_of(block.id(), d as int));
            assert(origin[d as int] == self.base_grid().corner(d as int));
            let at = R::from_i64(p.bx.lo[d] + idx[d] as i64).add(R::half());
            out[d] = at.mul_add(h[d], origin[d]);
            d += 1;
        }
        out
    }
}

} // verus!
