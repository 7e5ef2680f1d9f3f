//! Intergrid operations: the grid interactions of a refinement hierarchy.
//!
//! - [`restrict`]: fine-to-coarse *updating*, conservative averaging of fine
//!   interiors onto the coarse cells beneath them.
//! - [`fill_ghosts_mirror`]: ghost filling per level — same-level halo exchange
//!   where an abutting patch exists, mirror (no-flux) reflection at physical
//!   domain boundaries, and coarse-to-fine multilinear prolongation everywhere
//!   else.
//!
//! Every ghost value is computed from *interior* cells of donor patches, so
//! results are independent of the order in which patches are visited.

use vstd::prelude::*;

use crate::engine::state::{BlockValues, FieldHandle, State};
use crate::engine::storage::{Real, StorageBackend};
use crate::geometry::amr::cluster::CellBox;
use crate::geometry::amr::grid::{
    in_margin, lemma_domain_positive, lemma_level_cells_positive, level_cells, scale, within,
    AmrGrid,
};
use crate::geometry::amr::walk::{lemma_has_is_in_box, nonempty, some_box_has};
use crate::geometry::boundary::reflected;
use crate::geometry::grid::{
    ghosted, in_slab, lemma_extent_fits, lemma_interior_in_slab, lemma_slab_at, lemma_slab_index,
    linearize, slab_at, slab_fits, slab_index, BlockId, Grid,
};
use crate::geometry::halo::{field_slabs, with_field};
use crate::geometry::index::{
    array_of, delin, in_box, in_ext, ints, isizes, lemma_array_of, lemma_rank, minus, next_cell,
    plus, positive, rank, usizes, volume,
};

verus! {

/// Patch `p` belongs to the level and holds the cell.
pub open spec fn patch_holds<R: Real, const D: usize>(
    grid: &AmrGrid<R, D>,
    p: int,
    level: int,
    x: Seq<int>,
) -> bool {
    &&& 0 <= p < grid.patch_list().len()
    &&& grid.patch_list()[p].level == level
    &&& in_box(x, ints(grid.patch_list()[p].bx.lo), ints(grid.patch_list()[p].bx.hi))
}

/// The patch of a level that holds a cell, if any.
pub open spec fn owner_at<R: Real, const D: usize>(
    grid: &AmrGrid<R, D>,
    level: int,
    x: Seq<int>,
) -> Option<int> {
    if exists|p: int| patch_holds(grid, p, level, x) {
        Some(choose|p: int| patch_holds(grid, p, level, x))
    } else {
        None
    }
}

/// Value of a cell read from the patch `p` that holds it.
pub open spec fn value_in<R: Real, T, const D: usize>(
    grid: &AmrGrid<R, D>,
    g: int,
    v: Seq<Seq<T>>,
    p: int,
    x: Seq<int>,
) -> T {
    v[p][slab_at(minus(x, ints(grid.patch_list()[p].bx.lo)), grid.extent_of(p), g)]
}

/// The coarse cell whose center lies at or below the center of fine cell `x`.
pub open spec fn coarse_below(x: int, r: int) -> int {
    if 2 * (x % r) + 1 >= r {
        x / r
    } else {
        x / r - 1
    }
}

/// The centers of fine cell `x` and its coarse cell coincide.
pub open spec fn on_center(x: int, r: int) -> bool {
    2 * (x % r) + 1 == r
}

/// Fraction of the way from the center of coarse cell `coarse_below(x)` to the
/// next one at which the center of fine cell `x` lies.
pub open spec fn fraction<T: Real>(x: int, r: int) -> T {
    T::from_i64_spec(x as i64).add_spec(T::half_spec()).div_spec(
        T::from_u64_spec(r as u64),
    ).sub_spec(T::half_spec()).sub_spec(T::from_i64_spec(coarse_below(x, r) as i64))
}

/// Extents of the corner box `{0, 1}^n`.
pub open spec fn twos(n: nat) -> Seq<int> {
    Seq::new(n, |d: int| 2int)
}

/// Interpolation weight of corner `o`: the product over the first `d` axes.
pub open spec fn corner_weight<T: Real>(x: Seq<int>, r: int, o: Seq<int>, d: nat) -> T
    decreases d,
{
    if d == 0 {
        T::one_spec()
    } else {
        let w = fraction::<T>(x[d - 1], r);
        corner_weight::<T>(x, r, o, (d - 1) as nat).mul_spec(
            if o[d - 1] == 1 {
                w
            } else {
                T::one_spec().sub_spec(w)
            },
        )
    }
}

/// The corner has zero weight: it lies on the far side of an axis along which
/// the centers coincide.
pub open spec fn corner_vanishes(x: Seq<int>, r: int, o: Seq<int>) -> bool {
    exists|d: int| 0 <= d < x.len() && #[trigger] o[d] == 1 && on_center(x[d], r)
}

/// The coarse cell at corner `o`, mirrored at the physical boundary.
pub open spec fn donor(x: Seq<int>, r: int, o: Seq<int>, cells: Seq<int>) -> Seq<int> {
    Seq::new(x.len(), |d: int| reflected(coarse_below(x[d], r) + o[d], 0, cells[d]))
}

/// The solution at a level's cell: the covering patch's value if that level
/// reaches here, else multilinear interpolation from one level down.
pub open spec fn sampled<R: Real, T: Real, const D: usize>(
    grid: &AmrGrid<R, D>,
    g: int,
    v: Seq<Seq<T>>,
    level: nat,
    x: Seq<int>,
) -> T
    decreases level, volume(twos(D as nat)) + 1,
{
    proof {
        crate::geometry::index::lemma_volume_positive(twos(D as nat));
    }
    match owner_at(grid, level as int, x) {
        Some(p) => value_in(grid, g, v, p, x),
        None => if level == 0 {
            T::zero_spec()
        } else {
            interpolated(grid, g, v, level, x, volume(twos(D as nat)) as nat)
        },
    }
}

/// Multilinear interpolation of the level below at the center of `x`: the sum
/// over the first `k` corners, first axis fastest.
pub open spec fn interpolated<R: Real, T: Real, const D: usize>(
    grid: &AmrGrid<R, D>,
    g: int,
    v: Seq<Seq<T>>,
    level: nat,
    x: Seq<int>,
    k: nat,
) -> T
    decreases level, k as int,
    when level > 0
{
    if k == 0 {
        T::zero_spec()
    } else {
        let before = interpolated(grid, g, v, level, x, (k - 1) as nat);
        let r = grid.ratio_list()[level - 1] as int;
        let o = delin(k - 1, twos(D as nat));
        if corner_vanishes(x, r, o) {
            before
        } else {
            before.add_spec(
                sampled(
                    grid,
                    g,
                    v,
                    (level - 1) as nat,
                    donor(x, r, o, grid.cells_at(level - 1)),
                ).mul_spec(corner_weight(x, r, o, D as nat)),
            )
        }
    }
}

/// One slab per patch, each as long as its patch says, and addressable.
pub open spec fn slabs_fit<R: Real, T, const D: usize>(
    grid: &AmrGrid<R, D>,
    g: int,
    v: Seq<Seq<T>>,
) -> bool {
    &&& v.len() == grid.patch_list().len()
    &&& forall|p: int| 0 <= p < v.len() ==> #[trigger] slab_fits(grid.extent_of(p), g)
    &&& forall|p: int|
        0 <= p < v.len() ==> (#[trigger] v[p]).len() == volume(ghosted(grid.extent_of(p), g))
}

/// The field's slabs match the hierarchy on every patch.
pub open spec fn field_fits<R: Real, T: Real, S: StorageBackend<T>, const D: usize>(
    grid: &AmrGrid<R, D>,
    state: &State<T, S>,
    f: int,
) -> bool {
    &&& 0 <= f < state.fields().len()
    &&& forall|b: int|
        0 <= b < state.values().len() ==> f < (#[trigger] state.values()[b]).fields.len()
    &&& slabs_fit(grid, state.fields()[f].halo as int, field_slabs(state.values(), f))
}

/// The array of a cell given by integers.
pub open spec fn cell_of<const D: usize>(x: Seq<int>) -> [i64; D] {
    array_of::<D>(Seq::new(D as nat, |d: int| x[d] as i64))
}

pub proof fn lemma_cell_of<const D: usize>(x: Seq<int>)
    requires
        x.len() == D,
        forall|d: int| 0 <= d < D ==> i64::MIN <= #[trigger] x[d] <= i64::MAX,
    ensures
        ints(cell_of::<D>(x)) == x,
{
    let s = Seq::new(D as nat, |d: int| x[d] as i64);
    lemma_array_of::<D>(s);
    let c = cell_of::<D>(x);
    assert forall|d: int| 0 <= d < D implies #[trigger] ints(c)[d] == x[d] by {
        assert(c[d] == s[d]);
        assert(i64::MIN <= x[d] <= i64::MAX);
    }
    assert(ints(c) =~= x);
}

/// The patch that holds a cell is *the* owner.
pub proof fn lemma_owner<R: Real, const D: usize>(
    grid: &AmrGrid<R, D>,
    p: int,
    level: int,
    x: Seq<int>,
)
    requires
        grid.sound(),
        patch_holds(grid, p, level, x),
    ensures
        owner_at(grid, level, x) == Some(p),
{
    let q = choose|q: int| patch_holds(grid, q, level, x);
    let a = grid.patch_list()[p].bx;
    let b = grid.patch_list()[q].bx;
    assert forall|d: int| 0 <= d < D implies i64::MIN <= #[trigger] x[d] <= i64::MAX by {
        assert(ints(a.lo)[d] <= x[d] < ints(a.hi)[d]);
    }
    lemma_cell_of::<D>(x);
    let c = cell_of::<D>(x);
    lemma_has_is_in_box(a, c);
    lemma_has_is_in_box(b, c);
    crate::geometry::amr::grid::owners_are_unique(grid, p, q, c);
}

/// A level without a box around the cell has no owner for it.
pub proof fn lemma_no_owner<R: Real, const D: usize>(grid: &AmrGrid<R, D>, level: int, c: [i64; D])
    requires
        grid.stacked(),
        0 <= level,
        level >= grid.levels() || !some_box_has(grid.level_boxes(level), c),
    ensures
        owner_at(grid, level, ints(c)) is None,
{
    assert forall|p: int| !patch_holds(grid, p, level, ints(c)) by {
        if patch_holds(grid, p, level, ints(c)) {
            let bx = grid.patch_list()[p].bx;
            lemma_has_is_in_box(bx, c);
            grid.lemma_position(p);
            let k = p - grid.starts()[level];
            assert(grid.level_boxes(level)[k].has(c));
        }
    }
}

/// Read one cell of the patch that holds it.
pub fn read_cell<R: Real, T: Real, S: StorageBackend<T>, const D: usize>(
    grid: &AmrGrid<R, D>,
    state: &State<T, S>,
    handle: FieldHandle<T>,
    block: BlockId,
    cell: [i64; D],
) -> (r: T)
    requires
        grid.sound(),
        field_fits(grid, state, handle.pos()),
        block.id() < grid.patch_list().len(),
        grid.patch_list()[block.id()].bx.has(cell),
    ensures
        r == value_in(
            grid,
            state.fields()[handle.pos()].halo as int,
            field_slabs(state.values(), handle.pos()),
            block.id(),
            ints(cell),
        ),
{
    let ghost b = block.id();
    let ghost f = handle.pos();
    let ghost v = field_slabs(state.values(), f);
    let ghost ext = grid.extent_of(b);
    let width = state.layout().ghost(handle.index());
    let bx = grid.patch(block).bx;
    let extent = grid.block_extent(block);
    proof {
        grid.lemma_patch(b);
        assert(v[b].len() == volume(ghosted(ext, width as int)));
        lemma_extent_fits(ext, width as int);
    }
    let mut local = [0isize; D];
    let mut d: usize = 0;
    while d < D
        invariant
            d <= D,
            bx == grid.patch_list()[b].bx,
            bx.has(cell),
            ext == bx.widths(),
            nonempty(bx),
            forall|e: int| 0 <= e < D ==> bx.width(e) == (#[trigger] bx.hi[e]) - bx.lo[e],
            forall|e: int| 0 <= e < D ==> (#[trigger] ext[e]) + 2 * width <= isize::MAX,
            forall|e: int| 0 <= e < d ==> #[trigger] local[e] == cell[e] - bx.lo[e],
        decreases D - d,
    {
        assert(bx.lo[d as int] <= cell[d as int] < bx.hi[d as int]);
        assert(ext[d as int] + 2 * width <= isize::MAX);
        assert(bx.width(d as int) == bx.hi[d as int] - bx.lo[d as int]);
        local[d] = (cell[d] - bx.lo[d]) as isize;
        d += 1;
    }
    proof {
        let i = isizes(local);
        assert(i =~= minus(ints(cell), ints(bx.lo)));
        assert(in_ext(i, ext)) by {
            assert forall|e: int| 0 <= e < D implies 0 <= #[trigger] i[e] < ext[e] by {
                assert(bx.lo[e] <= cell[e] < bx.hi[e]);
                assert(bx.width(e) == bx.hi[e] - bx.lo[e]);
            }
        }
        lemma_interior_in_slab(i, ext, width as int);
        lemma_slab_at(i, ext, width as int);
    }
    let at = linearize(local, extent, width);
    state.slab(block, handle)[at]
}

/// Coarse neighbors of a fine cell of the domain stay within one cell of the
/// coarse domain, and mirror into it.
proof fn lemma_donor_coordinate(x: int, r: int, n: int, o: int)
    requires
        r >= 2,
        n >= 1,
        0 <= x < n * r,
        o == 0 || o == 1,
    ensures
        -1 <= coarse_below(x, r) <= n - 1,
        -1 <= coarse_below(x, r) + o <= n,
        0 <= reflected(coarse_below(x, r) + o, 0, n) < n,
        0 <= x / r < n,
        0 <= x % r < r,
{
    vstd::arithmetic::div_mod::lemma_fundamental_div_mod(x, r);
    vstd::arithmetic::div_mod::lemma_mod_bound(x, r);
    let q = x / r;
    let m = x % r;
    assert(0 <= q < n) by (nonlinear_arith)
        requires
            x == r * q + m,
            0 <= m < r,
            0 <= x < n * r,
    ;
}

/// One level's domain is the next coarser one scaled by the ratio.
pub proof fn lemma_cells_refine<R: Real, const D: usize>(
    grid: &AmrGrid<R, D>,
    level: int,
    d: int,
)
    requires
        grid.base_grid().tiled(),
        0 <= d < D,
        1 <= level,
    ensures
        grid.cells_at(level)[d] == grid.cells_at(level - 1)[d] * grid.ratio_list()[level - 1],
{
    let a = grid.base_grid().domain()[d];
    let s = scale(grid.ratio_list(), (level - 1) as nat);
    let r = grid.ratio_list()[level - 1] as int;
    assert(a * (s * r) == (a * s) * r) by (nonlinear_arith);
}

/// The solution at a level's cell: the covering patch's value if the level
/// reaches here, else interpolation from one level down, recursively (level 0
/// always covers).
pub fn sample<R: Real, T: Real, S: StorageBackend<T>, const D: usize>(
    grid: &AmrGrid<R, D>,
    state: &State<T, S>,
    handle: FieldHandle<T>,
    level: u8,
    cell: [i64; D],
) -> (r: T)
    requires
        grid.sound(),
        field_fits(grid, state, handle.pos()),
        level <= grid.ratio_list().len(),
        crate::geometry::amr::grid::levels_fit(
            grid.base_grid().domain(),
            grid.ratio_list(),
            level as nat,
        ),
        in_ext(ints(cell), grid.cells_at(level as int)),
    ensures
        r == sampled(
            grid,
            state.fields()[handle.pos()].halo as int,
            field_slabs(state.values(), handle.pos()),
            level as nat,
            ints(cell),
        ),
    decreases level, 1int,
{
    match grid.find_patch(level, cell) {
        Some(b) => {
            proof {
                lemma_has_is_in_box(grid.patch_list()[b.id()].bx, cell);
                lemma_owner(grid, b.id(), level as int, ints(cell));
            }
            read_cell(grid, state, handle, b, cell)
        },
        None => {
            proof {
                lemma_no_owner(grid, level as int, cell);
                if level == 0 {
                    assert(in_ext(ints(cell), grid.base_grid().domain())) by {
                        assert forall|d: int| 0 <= d < D implies 0 <= #[trigger] ints(cell)[d]
                            < grid.base_grid().domain()[d] by {
                            assert(0 <= ints(cell)[d] < grid.cells_at(0)[d]);
                            assert(grid.base_grid().domain()[d] * 1
                                == grid.base_grid().domain()[d]);
                        }
                    }
                    crate::geometry::amr::grid::base_level_covers_the_domain(grid, cell);
                }
            }
            prolonged(grid, state, handle, level, cell)
        },
    }
}

/// Multilinear (per-axis linear) interpolation of the level below at fine cell
/// `cell`'s center, from interior values, mirrored at the physical boundary.
pub fn prolonged<R: Real, T: Real, S: StorageBackend<T>, const D: usize>(
    grid: &AmrGrid<R, D>,
    state: &State<T, S>,
    handle: FieldHandle<T>,
    level: u8,
    cell: [i64; D],
) -> (r: T)
    requires
        grid.sound(),
        field_fits(grid, state, handle.pos()),
        0 < level <= grid.ratio_list().len(),
        crate::geometry::amr::grid::levels_fit(
            grid.base_grid().domain(),
            grid.ratio_list(),
            level as nat,
        ),
        in_ext(ints(cell), grid.cells_at(level as int)),
    ensures
        r == interpolated(
            grid,
            state.fields()[handle.pos()].halo as int,
            field_slabs(state.values(), handle.pos()),
            level as nat,
            ints(cell),
            volume(twos(D as nat)) as nat,
        ),
    decreases level, 0int,
{
    let ghost g = state.fields()[handle.pos()].halo as int;
    let ghost v = field_slabs(state.values(), handle.pos());
    let ghost x = ints(cell);
    let coarse: u8 = level - 1;
    let r: i64 = grid.ratios()[coarse as usize] as i64;
    let ghost cells = grid.cells_at(coarse as int);
    proof {
        assert(grid.ratio_list()[coarse as int] >= 2);
        lemma_domain_positive(&grid.base_grid());
        lemma_level_cells_positive(grid.base_grid().domain(), grid.ratio_list(), coarse as nat);
        let lc = level_cells(grid.base_grid().domain(), grid.ratio_list(), coarse as nat);
        let lf = level_cells(grid.base_grid().domain(), grid.ratio_list(), level as nat);
        assert(volume(lc) <= usize::MAX);
        assert(volume(lf) <= usize::MAX);
        assert forall|d: int| 0 <= d < D implies (#[trigger] grid.cells_at(coarse as int)[d])
            <= i64::MAX by {
            assert(lc[d] + 0x1_0000_0000 <= i64::MAX);
        }
        assert forall|d: int| 0 <= d < D implies {
            &&& 0 <= #[trigger] x[d] < cells[d] * r
            &&& cells[d] >= 1
            &&& cells[d] + 0x1_0000_0000 <= i64::MAX
        } by {
            assert(0 <= x[d] < grid.cells_at(level as int)[d]);
            lemma_cells_refine(grid, level as int, d);
            assert(lc[d] + 0x1_0000_0000 <= i64::MAX);
            assert(cells[d] > 0);
        }
    }
    let domain = grid.level_domain(coarse);
    let mut c0 = [0i64; D];
    let mut w = [T::zero(); D];
    let mut exact = [false; D];
    let mut d: usize = 0;
    while d < D
        invariant
            d <= D,
            x == ints(cell),
            2 <= r <= u32::MAX,
            cells.len() == D,
            forall|e: int|
                0 <= e < D ==> {
                    &&& 0 <= #[trigger] x[e] < cells[e] * r
                    &&& cells[e] >= 1
                    &&& cells[e] + 0x1_0000_0000 <= i64::MAX
                },
            forall|e: int| 0 <= e < d ==> #[trigger] c0[e] == coarse_below(x[e], r as int),
            forall|e: int| 0 <= e < d ==> #[trigger] w[e] == fraction::<T>(x[e], r as int),
            forall|e: int| 0 <= e < d ==> #[trigger] exact[e] == on_center(x[e], r as int),
        decreases D - d,
    {
        proof {
            assert(0 <= x[d as int] < cells[d as int] * r);
            lemma_donor_coordinate(x[d as int], r as int, cells[d as int], 0);
            assert(cell[d as int] == x[d as int]);
        }
        let q: i64 = cell[d] / r;
        let m: i64 = cell[d] % r;
        let c: i64 = if 2 * m + 1 >= r {
            q
        } else {
            q - 1
        };
        c0[d] = c;
        exact[d] = 2 * m + 1 == r;
        w[d] = T::from_i64(cell[d]).add(T::half()).div(T::from_u64(r as u64)).sub(T::half()).sub(
            T::from_i64(c),
        );
        d += 1;
    }
    let lo = [0i64; D];
    let hi = [2i64; D];
    let mut o = lo;
    let mut more = true;
    let mut acc = T::zero();
    let ghost mut k: nat = 0;
    let ghost l = ints(lo);
    let ghost h = ints(hi);
    proof {
        assert(minus(h, l) =~= twos(D as nat));
        assert(in_box(ints(o), l, h));
        lemma_rank(ints(o), l, h);
        crate::geometry::index::lemma_lin_zero(minus(l, l), minus(h, l));
    }
    while more
        invariant
            D > 0,
            grid.sound(),
            field_fits(grid, state, handle.pos()),
            0 < level <= grid.ratio_list().len(),
            coarse == level - 1,
            crate::geometry::amr::grid::levels_fit(
                grid.base_grid().domain(),
                grid.ratio_list(),
                level as nat,
            ),
            g == state.fields()[handle.pos()].halo,
            v == field_slabs(state.values(), handle.pos()),
            x == ints(cell),
            r == grid.ratio_list()[level - 1],
            2 <= r <= u32::MAX,
            cells == grid.cells_at(coarse as int),
            cells.len() == D,
            forall|e: int|
                0 <= e < D ==> {
                    &&& 0 <= #[trigger] x[e] < cells[e] * r
                    &&& cells[e] >= 1
                    &&& cells[e] + 0x1_0000_0000 <= i64::MAX
                },
            forall|e: int| 0 <= e < D ==> #[trigger] domain.hi[e] == cells[e],
            forall|e: int| 0 <= e < D ==> #[trigger] c0[e] == coarse_below(x[e], r as int),
            forall|e: int| 0 <= e < D ==> #[trigger] w[e] == fraction::<T>(x[e], r as int),
            forall|e: int| 0 <= e < D ==> #[trigger] exact[e] == on_center(x[e], r as int),
            l == ints(lo),
            h == ints(hi),
            forall|e: int| 0 <= e < D ==> #[trigger] l[e] == 0,
            forall|e: int| 0 <= e < D ==> #[trigger] h[e] == 2,
            minus(h, l) == twos(D as nat),
            k <= volume(twos(D as nat)),
            acc == interpolated(grid, g, v, level as nat, x, k),
            more ==> in_box(ints(o), l, h) && rank(ints(o), l, h) == k,
            !more ==> k == volume(twos(D as nat)),
        decreases volume(twos(D as nat)) - k,
    {
        let ghost oo = ints(o);
        proof {
            lemma_rank(oo, l, h);
            assert(plus(l, delin(k as int, minus(h, l))) =~= delin(k as int, twos(D as nat))) by {
                crate::geometry::index::lemma_delin_len(k as int, twos(D as nat));
                assert forall|e: int| 0 <= e < D implies plus(l, delin(k as int, minus(h, l)))[e]
                    == delin(k as int, twos(D as nat))[e] by {
                    assert(l[e] == 0);
                }
            }
            assert(oo == delin(k as int, twos(D as nat)));
            assert forall|e: int| 0 <= e < D implies 0 <= #[trigger] oo[e] <= 1 by {
                assert(l[e] <= oo[e] < h[e]);
            }
        }
        let mut skip = false;
        let mut weight = T::one();
        let mut cc = [0i64; D];
        let mut d: usize = 0;
        while d < D
            invariant
                d <= D,
                oo == ints(o),
                x == ints(cell),
                2 <= r <= u32::MAX,
                cells.len() == D,
                forall|e: int| 0 <= e < D ==> 0 <= #[trigger] oo[e] <= 1,
                forall|e: int|
                    0 <= e < D ==> {
                        &&& 0 <= #[trigger] x[e] < cells[e] * r
                        &&& cells[e] >= 1
                        &&& cells[e] + 0x1_0000_0000 <= i64::MAX
                    },
                forall|e: int| 0 <= e < D ==> #[trigger] domain.hi[e] == cells[e],
                forall|e: int| 0 <= e < D ==> #[trigger] c0[e] == coarse_below(x[e], r as int),
                forall|e: int| 0 <= e < D ==> #[trigger] w[e] == fraction::<T>(x[e], r as int),
                forall|e: int| 0 <= e < D ==> #[trigger] exact[e] == on_center(x[e], r as int),
                skip == exists|e: int| 0 <= e < d && #[trigger] oo[e] == 1 && on_center(
                    x[e],
                    r as int,
                ),
                weight == corner_weight::<T>(x, r as int, oo, d as nat),
                forall|e: int|
                    0 <= e < d ==> #[trigger] cc[e] == reflected(
                        coarse_below(x[e], r as int) + oo[e],
                        0,
                        cells[e],
                    ) && 0 <= cc[e] < cells[e],
            decreases D - d,
        {
            proof {
                assert(0 <= oo[d as int] <= 1);
                assert(0 <= x[d as int] < cells[d as int] * r);
                lemma_donor_coordinate(
                    x[d as int],
                    r as int,
                    cells[d as int],
                    oo[d as int],
                );
                assert(c0[d as int] == coarse_below(x[d as int], r as int));
                assert(w[d as int] == fraction::<T>(x[d as int], r as int));
                assert(exact[d as int] == on_center(x[d as int], r as int));
                assert(domain.hi[d as int] == cells[d as int]);
            }
            let far = o[d] == 1;
            assert(far == (oo[d as int] == 1));
            if far {
                if exact[d] {
                    skip = true;
                }
                weight = weight.mul(w[d]);
            } else {
                weight = weight.mul(T::one().sub(w[d]));
            }
            let c: i64 = c0[d] + o[d];
            cc[d] = mirror_into(c, domain.hi[d]);
            d += 1;
        }
        proof {
            assert(skip == corner_vanishes(x, r as int, oo));
        }
        if !skip {
            proof {
                assert(ints(cc) =~= donor(x, r as int, oo, cells));
                assert(in_ext(ints(cc), cells)) by {
                    assert forall|e: int| 0 <= e < D implies 0 <= #[trigger] ints(cc)[e]
                        < cells[e] by {
                        assert(0 <= cc[e] < cells[e]);
                    }
                }
            }
            let value = sample(grid, state, handle, coarse, cc);
            acc = acc.add(value.mul(weight));
        }
        proof {
            k = (k + 1) as nat;
        }
        more = next_cell(&mut o, &lo, &hi);
    }
    acc
}

/// Reflect a coordinate at most one domain length outside `[0, n)` into it.
fn mirror_into(c: i64, n: i64) -> (r: i64)
    requires
        n >= 1,
        -n <= c < 2 * n,
    ensures
        r == reflected(c as int, 0, n as int),
        0 <= r < n,
{
    if c < 0 {
        -1 - c
    } else if c >= n {
        (n - 1) - (c - n)
    } else {
        c
    }
}

/// The two fields agree on every interior cell.
pub open spec fn same_interiors<R: Real, T, const D: usize>(
    grid: &AmrGrid<R, D>,
    g: int,
    v: Seq<Seq<T>>,
    w: Seq<Seq<T>>,
) -> bool {
    forall|p: int, i: Seq<int>|
        #![trigger v[p][slab_at(i, grid.extent_of(p), g)]]
        #![trigger w[p][slab_at(i, grid.extent_of(p), g)]]
        0 <= p < grid.patch_list().len() && in_ext(i, grid.extent_of(p)) ==> v[p][slab_at(
            i,
            grid.extent_of(p),
            g,
        )] == w[p][slab_at(i, grid.extent_of(p), g)]
}

/// A cell of a patch, relative to the patch, is one of its interior cells.
pub proof fn lemma_local_interior<R: Real, const D: usize>(
    grid: &AmrGrid<R, D>,
    p: int,
    level: int,
    x: Seq<int>,
)
    requires
        grid.sound(),
        patch_holds(grid, p, level, x),
    ensures
        in_ext(minus(x, ints(grid.patch_list()[p].bx.lo)), grid.extent_of(p)),
{
    let bx = grid.patch_list()[p].bx;
    grid.lemma_patch(p);
    let i = minus(x, ints(bx.lo));
    let ext = grid.extent_of(p);
    assert forall|d: int| 0 <= d < ext.len() implies 0 <= #[trigger] i[d] < ext[d] by {
        assert(ints(bx.lo)[d] <= x[d] < ints(bx.hi)[d]);
        assert(bx.width(d) == bx.hi[d] - bx.lo[d]);
    }
}

/// Sampling reads interiors only.
proof fn lemma_sampled_interiors<R: Real, T: Real, const D: usize>(
    grid: &AmrGrid<R, D>,
    g: int,
    v: Seq<Seq<T>>,
    w: Seq<Seq<T>>,
    level: nat,
    x: Seq<int>,
)
    requires
        grid.sound(),
        same_interiors(grid, g, v, w),
    ensures
        sampled(grid, g, v, level, x) == sampled(grid, g, w, level, x),
    decreases level, volume(twos(D as nat)) + 1,
{
    crate::geometry::index::lemma_volume_positive(twos(D as nat));
    match owner_at(grid, level as int, x) {
        Some(p) => {
            assert(patch_holds(grid, p, level as int, x));
            lemma_local_interior(grid, p, level as int, x);
        },
        None => {
            if level > 0 {
                lemma_interpolated_interiors(
                    grid,
                    g,
                    v,
                    w,
                    level,
                    x,
                    volume(twos(D as nat)) as nat,
                );
            }
        },
    }
}

/// Interpolation reads interiors only.
proof fn lemma_interpolated_interiors<R: Real, T: Real, const D: usize>(
    grid: &AmrGrid<R, D>,
    g: int,
    v: Seq<Seq<T>>,
    w: Seq<Seq<T>>,
    level: nat,
    x: Seq<int>,
    k: nat,
)
    requires
        grid.sound(),
        same_interiors(grid, g, v, w),
        level > 0,
    ensures
        interpolated(grid, g, v, level, x, k) == interpolated(grid, g, w, level, x, k),
    decreases level, k as int,
{
    if k > 0 {
        lemma_interpolated_interiors(grid, g, v, w, level, x, (k - 1) as nat);
        let r = grid.ratio_list()[level - 1] as int;
        let o = delin(k - 1, twos(D as nat));
        lemma_sampled_interiors(
            grid,
            g,
            v,
            w,
            (level - 1) as nat,
            donor(x, r, o, grid.cells_at(level - 1)),
        );
    }
}

/// The in-domain cell a ghost cell stands for: itself, or its mirror image.
pub open spec fn ghost_target<R: Real, const D: usize>(
    grid: &AmrGrid<R, D>,
    level: int,
    x: Seq<int>,
) -> Seq<int> {
    Seq::new(D as nat, |d: int| reflected(x[d], 0, grid.cells_at(level)[d]))
}

/// The value of a ghost cell: the same-level patch that holds its in-domain
/// cell, else interpolation of the coarser level — blended in time between an
/// earlier field and the current one where a time fraction is given.
pub open spec fn ghost_value_of<R: Real, T: Real, const D: usize>(
    grid: &AmrGrid<R, D>,
    g: int,
    v: Seq<Seq<T>>,
    interp: Option<(Seq<Seq<T>>, T)>,
    level: int,
    x: Seq<int>,
) -> T {
    let t = ghost_target(grid, level, x);
    match owner_at(grid, level, t) {
        Some(p) => value_in(grid, g, v, p, t),
        None => {
            let corners = volume(twos(D as nat)) as nat;
            let now = interpolated(grid, g, v, level as nat, t, corners);
            match interp {
                Some((old_field, alpha)) => interpolated(
                    grid,
                    g,
                    old_field,
                    level as nat,
                    t,
                    corners,
                ).mul_spec(T::one_spec().sub_spec(alpha)).add_spec(now.mul_spec(alpha)),
                None => now,
            }
        },
    }
}

/// The field after one level's ghosts were filled: ghosts of that level's
/// patches get their values, every other entry is kept.
pub open spec fn level_filled<R: Real, T: Real, const D: usize>(
    grid: &AmrGrid<R, D>,
    g: int,
    v: Seq<Seq<T>>,
    interp: Option<(Seq<Seq<T>>, T)>,
    level: int,
) -> Seq<Seq<T>> {
    Seq::new(
        v.len(),
        |b: int|
            Seq::new(
                v[b].len(),
                |k: int|
                    {
                        let idx = slab_index(k, grid.extent_of(b), g);
                        if grid.level_of(b) == level && !in_ext(idx, grid.extent_of(b)) {
                            ghost_value_of(
                                grid,
                                g,
                                v,
                                interp,
                                level,
                                plus(idx, ints(grid.patch_list()[b].bx.lo)),
                            )
                        } else {
                            v[b][k]
                        }
                    },
            ),
    )
}

/// The last axis along which an index lies outside the interior, or -1.
spec fn last_out(idx: Seq<int>, ext: Seq<int>, n: int) -> int
    decreases n,
{
    if n <= 0 {
        -1
    } else if 0 <= idx[n - 1] < ext[n - 1] {
        last_out(idx, ext, n - 1)
    } else {
        n - 1
    }
}

proof fn lemma_last_out(idx: Seq<int>, ext: Seq<int>, n: int)
    requires
        0 <= n <= ext.len(),
    ensures
        -1 <= last_out(idx, ext, n) < n || (n == 0 && last_out(idx, ext, n) == -1),
        forall|e: int|
            last_out(idx, ext, n) < e < n ==> 0 <= #[trigger] idx[e] < ext[e],
        last_out(idx, ext, n) >= 0 ==> !(0 <= idx[last_out(idx, ext, n)] < ext[last_out(
            idx,
            ext,
            n,
        )]),
    decreases n,
{
    if n > 0 {
        lemma_last_out(idx, ext, n - 1);
    }
}

/// Part of a patch's ring written: the strips of the axes before `d`, and the
/// low strip of axis `d` if `half`.
spec fn ring_done(idx: Seq<int>, ext: Seq<int>, d: int, half: bool) -> bool {
    let l = last_out(idx, ext, ext.len() as int);
    l >= 0 && (l < d || (l == d && half && idx[d] < 0))
}

spec fn ring_progress<R: Real, T: Real, const D: usize>(
    grid: &AmrGrid<R, D>,
    g: int,
    v: Seq<Seq<T>>,
    interp: Option<(Seq<Seq<T>>, T)>,
    level: int,
    b: int,
    d: int,
    half: bool,
) -> Seq<Seq<T>> {
    let full = level_filled(grid, g, v, interp, level);
    Seq::new(
        v.len(),
        |c: int|
            Seq::new(
                v[c].len(),
                |k: int|
                    if c == b && ring_done(
                        slab_index(k, grid.extent_of(c), g),
                        grid.extent_of(c),
                        d,
                        half,
                    ) {
                        full[c][k]
                    } else {
                        v[c][k]
                    },
            ),
    )
}

/// The earlier field and time fraction, as contents.
pub open spec fn interp_view<T: Real, S: StorageBackend<T>>(
    interp: Option<(&State<T, S>, T)>,
    f: int,
) -> Option<(Seq<Seq<T>>, T)> {
    match interp {
        Some((old_state, alpha)) => Some((field_slabs(old_state.values(), f), alpha)),
        None => None,
    }
}

/// Level domains fit and ghosts reach at most one domain length outside.
pub open spec fn ring_reaches<R: Real, const D: usize>(
    grid: &AmrGrid<R, D>,
    level: int,
    g: int,
) -> bool {
    forall|d: int| 0 <= d < D ==> g <= #[trigger] grid.cells_at(level)[d]
}

/// Value of one ghost cell, given by its global coordinates.
fn ghost_cell<R: Real, T: Real, S: StorageBackend<T>, const D: usize>(
    grid: &AmrGrid<R, D>,
    state: &State<T, S>,
    interp: Option<(&State<T, S>, T)>,
    handle: FieldHandle<T>,
    level: u8,
    cell: [i64; D],
) -> (r: T)
    requires
        grid.sound(),
        level < grid.levels(),
        field_fits(grid, state, handle.pos()),
        interp matches Some((old_state, _)) ==> field_fits(grid, old_state, handle.pos())
            && old_state.fields()[handle.pos()].halo == state.fields()[handle.pos()].halo,
        forall|d: int|
            0 <= d < D ==> -grid.cells_at(level as int)[d] <= #[trigger] cell[d] < 2
                * grid.cells_at(level as int)[d],
    ensures
        r == ghost_value_of(
            grid,
            state.fields()[handle.pos()].halo as int,
            field_slabs(state.values(), handle.pos()),
            interp_view(interp, handle.pos()),
            level as int,
            ints(cell),
        ),
{
    let ghost cells = grid.cells_at(level as int);
    proof {
        lemma_domain_positive(&grid.base_grid());
        lemma_level_cells_positive(grid.base_grid().domain(), grid.ratio_list(), level as nat);
        let lc = level_cells(grid.base_grid().domain(), grid.ratio_list(), level as nat);
        assert(volume(lc) <= usize::MAX);
        assert forall|d: int| 0 <= d < D implies (#[trigger] grid.cells_at(level as int)[d])
            <= i64::MAX by {
            assert(lc[d] + 0x1_0000_0000 <= i64::MAX);
        }
    }
    let domain = grid.level_domain(level);
    let mut target = [0i64; D];
    let mut d: usize = 0;
    while d < D
        invariant
            d <= D,
            cells == grid.cells_at(level as int),
            cells.len() == D,
            positive(cells),
            forall|e: int| 0 <= e < D ==> #[trigger] domain.hi[e] == cells[e],
            forall|e: int| 0 <= e < D ==> -cells[e] <= #[trigger] cell[e] < 2 * cells[e],
            forall|e: int|
                0 <= e < d ==> #[trigger] target[e] == reflected(cell[e] as int, 0, cells[e]) && 0
                    <= target[e] < cells[e],
        decreases D - d,
    {
        assert(-cells[d as int] <= cell[d as int] < 2 * cells[d as int]);
        assert(domain.hi[d as int] == cells[d as int]);
        assert(cells[d as int] > 0);
        target[d] = mirror_into(cell[d], domain.hi[d]);
        d += 1;
    }
    let ghost t = ints(target);
    proof {
        assert(t =~= ghost_target(grid, level as int, ints(cell)));
        assert(in_ext(t, cells)) by {
            assert forall|e: int| 0 <= e < D implies 0 <= #[trigger] t[e] < cells[e] by {
                assert(0 <= target[e] < cells[e]);
            }
        }
    }
    match grid.find_patch(level, target) {
        Some(b) => {
            proof {
                lemma_has_is_in_box(grid.patch_list()[b.id()].bx, target);
                lemma_owner(grid, b.id(), level as int, t);
            }
            read_cell(grid, state, handle, b, target)
        },
        None => {
            proof {
                lemma_no_owner(grid, level as int, target);
                if level == 0 {
                    assert(in_ext(t, grid.base_grid().domain())) by {
                        assert forall|d: int| 0 <= d < D implies 0 <= #[trigger] t[d]
                            < grid.base_grid().domain()[d] by {
                            assert(0 <= t[d] < grid.cells_at(0)[d]);
                            assert(grid.base_grid().domain()[d] * 1
                                == grid.base_grid().domain()[d]);
                        }
                    }
                    crate::geometry::amr::grid::base_level_covers_the_domain(grid, target);
                }
            }
            let now = prolonged(grid, state, handle, level, target);
            match interp {
                Some((old_state, alpha)) => {
                    let then_value = prolonged(grid, old_state, handle, level, target);
                    then_value.mul(T::one().sub(alpha)).add(now.mul(alpha))
                },
                None => now,
            }
        },
    }
}

/// The field after the ghost cells of one box of one patch were written.
spec fn box_filled<R: Real, T: Real, const D: usize>(
    grid: &AmrGrid<R, D>,
    g: int,
    v: Seq<Seq<T>>,
    interp: Option<(Seq<Seq<T>>, T)>,
    level: int,
    b: int,
    lo: Seq<int>,
    hi: Seq<int>,
    r: int,
) -> Seq<Seq<T>> {
    Seq::new(
        v.len(),
        |c: int|
            Seq::new(
                v[c].len(),
                |k: int|
                    {
                        let idx = slab_index(k, grid.extent_of(c), g);
                        if c == b && in_box(idx, lo, hi) && rank(idx, lo, hi) < r {
                            ghost_value_of(
                                grid,
                                g,
                                v,
                                interp,
                                level,
                                plus(idx, ints(grid.patch_list()[b].bx.lo)),
                            )
                        } else {
                            v[c][k]
                        }
                    },
            ),
    )
}

/// Writing ghosts of a patch leaves every interior alone.
proof fn lemma_box_filled_interiors<R: Real, T: Real, const D: usize>(
    grid: &AmrGrid<R, D>,
    g: int,
    v: Seq<Seq<T>>,
    interp: Option<(Seq<Seq<T>>, T)>,
    level: int,
    b: int,
    lo: Seq<int>,
    hi: Seq<int>,
    r: int,
)
    requires
        grid.sound(),
        g >= 0,
        slabs_fit(grid, g, v),
        forall|i: Seq<int>| #[trigger] in_box(i, lo, hi) ==> !in_ext(i, grid.extent_of(b)),
    ensures
        same_interiors(grid, g, v, box_filled(grid, g, v, interp, level, b, lo, hi, r)),
{
    let w = box_filled(grid, g, v, interp, level, b, lo, hi, r);
    assert forall|p: int, i: Seq<int>|
        #![trigger v[p][slab_at(i, grid.extent_of(p), g)]]
        #![trigger w[p][slab_at(i, grid.extent_of(p), g)]]
        0 <= p < grid.patch_list().len() && in_ext(i, grid.extent_of(p)) implies v[p][slab_at(
        i,
        grid.extent_of(p),
        g,
    )] == w[p][slab_at(i, grid.extent_of(p), g)] by {
        lemma_interior_in_slab(i, grid.extent_of(p), g);
        lemma_slab_at(i, grid.extent_of(p), g);
        assert(v[p].len() == volume(ghosted(grid.extent_of(p), g)));
    }
}

/// Ghost values are determined by the interiors.
proof fn lemma_ghost_interiors<R: Real, T: Real, const D: usize>(
    grid: &AmrGrid<R, D>,
    g: int,
    v: Seq<Seq<T>>,
    w: Seq<Seq<T>>,
    interp: Option<(Seq<Seq<T>>, T)>,
    level: int,
    x: Seq<int>,
)
    requires
        grid.sound(),
        same_interiors(grid, g, v, w),
        0 < level || owner_at(grid, level, ghost_target(grid, level, x)) is Some,
        level >= 0,
    ensures
        ghost_value_of(grid, g, v, interp, level, x) == ghost_value_of(
            grid,
            g,
            w,
            interp,
            level,
            x,
        ),
{
    let t = ghost_target(grid, level, x);
    match owner_at(grid, level, t) {
        Some(p) => {
            assert(patch_holds(grid, p, level, t));
            lemma_local_interior(grid, p, level, t);
        },
        None => {
            lemma_interpolated_interiors(
                grid,
                g,
                v,
                w,
                level as nat,
                t,
                volume(twos(D as nat)) as nat,
            );
        },
    }
}

/// Level 0 owns every cell of the domain.
proof fn lemma_base_owner<R: Real, const D: usize>(grid: &AmrGrid<R, D>, x: Seq<int>)
    requires
        grid.sound(),
        in_ext(x, grid.cells_at(0)),
    ensures
        owner_at(grid, 0, x) is Some,
{
    let dom = grid.base_grid().domain();
    assert forall|d: int| 0 <= d < D implies i64::MIN <= #[trigger] x[d] <= i64::MAX && 0 <= x[d]
        < dom[d] by {
        assert(0 <= x[d] < grid.cells_at(0)[d]);
        assert(dom[d] * 1 == dom[d]);
        let lc = level_cells(dom, grid.ratio_list(), 0);
        assert(volume(lc) <= usize::MAX);
        assert(lc[d] + 0x1_0000_0000 <= i64::MAX);
    }
    lemma_cell_of::<D>(x);
    let c = cell_of::<D>(x);
    crate::geometry::amr::grid::base_level_covers_the_domain(grid, c);
    let k = choose|k: int|
        0 <= k < grid.level_boxes(0).len() && (#[trigger] grid.level_boxes(0)[k]).has(c);
    grid.lemma_level_box(0, k);
    let p = grid.starts()[0] + k;
    lemma_has_is_in_box(grid.patch_list()[p].bx, c);
    assert(patch_holds(grid, p, 0, x));
}

proof fn lemma_box_filled_fits<R: Real, T: Real, const D: usize>(
    grid: &AmrGrid<R, D>,
    g: int,
    v: Seq<Seq<T>>,
    interp: Option<(Seq<Seq<T>>, T)>,
    level: int,
    b: int,
    lo: Seq<int>,
    hi: Seq<int>,
    r: int,
)
    requires
        slabs_fit(grid, g, v),
    ensures
        slabs_fit(grid, g, box_filled(grid, g, v, interp, level, b, lo, hi, r)),
{
    let cur = box_filled(grid, g, v, interp, level, b, lo, hi, r);
    assert forall|p: int| 0 <= p < cur.len() implies (#[trigger] cur[p]).len() == volume(
        ghosted(grid.extent_of(p), g),
    ) by {
        assert(v[p].len() == volume(ghosted(grid.extent_of(p), g)));
    }
}

/// Ghost targets of the base level are owned.
proof fn lemma_base_ghost_owner<R: Real, const D: usize>(
    grid: &AmrGrid<R, D>,
    level: int,
    x: Seq<int>,
)
    requires
        grid.sound(),
        level >= 0,
        x.len() == D,
        forall|e: int|
            0 <= e < D ==> -grid.cells_at(level)[e] <= #[trigger] x[e] < 2 * grid.cells_at(level)[e],
    ensures
        0 < level || owner_at(grid, level, ghost_target(grid, level, x)) is Some,
{
    if level == 0 {
        let t = ghost_target(grid, 0, x);
        lemma_domain_positive(&grid.base_grid());
        assert(in_ext(t, grid.cells_at(0))) by {
            assert forall|e: int| 0 <= e < D implies 0 <= #[trigger] t[e] < grid.cells_at(0)[e] by {
                assert(-grid.cells_at(0)[e] <= x[e] < 2 * grid.cells_at(0)[e]);
                assert(grid.base_grid().domain()[e] > 0);
                assert(grid.base_grid().domain()[e] * 1 == grid.base_grid().domain()[e]);
            }
        }
        lemma_base_owner(grid, t);
    }
}

/// Writing the cell of rank `r` advances the box by one.
proof fn lemma_box_step<R: Real, T: Real, const D: usize>(
    grid: &AmrGrid<R, D>,
    g: int,
    v: Seq<Seq<T>>,
    interp: Option<(Seq<Seq<T>>, T)>,
    level: int,
    b: int,
    lo: Seq<int>,
    hi: Seq<int>,
    r: int,
    i: Seq<int>,
)
    requires
        slabs_fit(grid, g, v),
        g >= 0,
        0 <= b < v.len(),
        positive(grid.extent_of(b)),
        in_slab(i, grid.extent_of(b), g),
        lo.len() == hi.len(),
        in_box(i, lo, hi),
        rank(i, lo, hi) == r,
    ensures
        ({
            let cur = box_filled(grid, g, v, interp, level, b, lo, hi, r);
            let value = ghost_value_of(
                grid,
                g,
                v,
                interp,
                level,
                plus(i, ints(grid.patch_list()[b].bx.lo)),
            );
            box_filled(grid, g, v, interp, level, b, lo, hi, r + 1) == cur.update(
                b,
                cur[b].update(slab_at(i, grid.extent_of(b), g), value),
            )
        }),
{
    let ext = grid.extent_of(b);
    let cur = box_filled(grid, g, v, interp, level, b, lo, hi, r);
    let next = box_filled(grid, g, v, interp, level, b, lo, hi, r + 1);
    let at = slab_at(i, ext, g);
    let value = ghost_value_of(
        grid,
        g,
        v,
        interp,
        level,
        plus(i, ints(grid.patch_list()[b].bx.lo)),
    );
    lemma_slab_at(i, ext, g);
    assert(v[b].len() == volume(ghosted(ext, g)));
    assert forall|k: int| 0 <= k < v[b].len() implies #[trigger] next[b][k] == cur[b].update(
        at,
        value,
    )[k] by {
        let j = slab_index(k, ext, g);
        lemma_slab_index(k, ext, g);
        if k == at {
            assert(j == i);
        } else if in_box(j, lo, hi) && rank(j, lo, hi) == r {
            lemma_rank(j, lo, hi);
            lemma_rank(i, lo, hi);
            assert(j == i);
        }
    }
    assert(next[b] =~= cur[b].update(at, value));
    assert forall|c: int| 0 <= c < v.len() && c != b implies #[trigger] next[c] == cur[c] by {
        assert(next[c] =~= cur[c]);
    }
    assert(next =~= cur.update(b, cur[b].update(at, value)));
}

/// A patch-relative slab index as a view index and as a global cell.
fn place<R: Real, const D: usize>(
    grid: &AmrGrid<R, D>,
    level: u8,
    block: BlockId,
    idx: [i64; D],
    width: u32,
) -> (r: ([isize; D], [i64; D]))
    requires
        grid.sound(),
        block.id() < grid.patch_list().len(),
        grid.patch_list()[block.id()].level == level,
        in_slab(ints(idx), grid.extent_of(block.id()), width as int),
        slab_fits(grid.extent_of(block.id()), width as int),
        ring_reaches(grid, level as int, width as int),
    ensures
        forall|e: int| 0 <= e < D ==> #[trigger] r.0[e] == idx[e],
        forall|e: int|
            0 <= e < D ==> #[trigger] r.1[e] == idx[e] + grid.patch_list()[block.id()].bx.lo[e],
        forall|e: int|
            0 <= e < D ==> -grid.cells_at(level as int)[e] <= #[trigger] r.1[e] < 2 * grid.cells_at(
                level as int,
            )[e],
{
    let ghost b = block.id();
    let ghost i = ints(idx);
    let ghost g = width as int;
    let ghost ext = grid.extent_of(b);
    let ghost cells = grid.cells_at(level as int);
    let bx = grid.patch(block).bx;
    proof {
        grid.lemma_patch(b);
        lemma_extent_fits(ext, g);
        assert forall|e: int| 0 <= e < D implies g <= #[trigger] cells[e] by {
            assert(g <= grid.cells_at(level as int)[e]);
        }
    }
    let mut local = [0isize; D];
    let mut cell = [0i64; D];
    let mut d: usize = 0;
    while d < D
        invariant
            d <= D,
            i == ints(idx),
            in_slab(i, ext, g),
            0 <= g <= u32::MAX,
            ext == bx.widths(),
            within(bx, cells),
            nonempty(bx),
            forall|e: int| 0 <= e < D ==> g <= #[trigger] cells[e],
            forall|e: int| 0 <= e < D ==> bx.width(e) == (#[trigger] bx.hi[e]) - bx.lo[e],
            forall|e: int| 0 <= e < D ==> (#[trigger] ext[e]) + 2 * g <= isize::MAX,
            forall|e: int| 0 <= e < D ==> (#[trigger] cells[e]) + 0x1_0000_0000 <= i64::MAX,
            forall|e: int| 0 <= e < d ==> #[trigger] local[e] == idx[e],
            forall|e: int|
                0 <= e < d ==> #[trigger] cell[e] == idx[e] + bx.lo[e] && -cells[e] <= cell[e] < 2
                    * cells[e],
        decreases D - d,
    {
        proof {
            assert(-g <= i[d as int] < ext[d as int] + g);
            assert(ext[d as int] + 2 * g <= isize::MAX);
            assert(0 <= bx.lo[d as int] <= bx.hi[d as int] <= cells[d as int]);
            assert(bx.width(d as int) == bx.hi[d as int] - bx.lo[d as int]);
            assert(cells[d as int] + 0x1_0000_0000 <= i64::MAX);
            assert(g <= cells[d as int]);
            assert(idx[d as int] == i[d as int]);
        }
        local[d] = idx[d] as isize;
        cell[d] = idx[d] + bx.lo[d];
        d += 1;
    }
    (local, cell)
}

/// Write the ghost cells of one box of one patch.
fn fill_box<R: Real, T: Real, S: StorageBackend<T>, const D: usize>(
    grid: &AmrGrid<R, D>,
    state: &mut State<T, S>,
    interp: Option<(&State<T, S>, T)>,
    handle: FieldHandle<T>,
    level: u8,
    block: BlockId,
    lo: [i64; D],
    hi: [i64; D],
)
    requires
        grid.sound(),
        level < grid.levels(),
        field_fits(grid, old(state), handle.pos()),
        interp matches Some((old_state, _)) ==> field_fits(grid, old_state, handle.pos())
            && old_state.fields()[handle.pos()].halo == old(state).fields()[handle.pos()].halo,
        ring_reaches(grid, level as int, old(state).fields()[handle.pos()].halo as int),
        block.id() < grid.patch_list().len(),
        grid.patch_list()[block.id()].level == level,
        forall|d: int| 0 <= d < D ==> (#[trigger] lo[d]) < hi[d],
        forall|d: int|
            0 <= d < D ==> -(old(state).fields()[handle.pos()].halo as int) <= #[trigger] lo[d]
                && hi[d] <= grid.extent_of(block.id())[d]
                + old(state).fields()[handle.pos()].halo as int,
        forall|i: Seq<int>| #[trigger]
            in_box(i, ints(lo), ints(hi)) ==> !in_ext(i, grid.extent_of(block.id())),
    ensures
        final(state).fields() == old(state).fields(),
        final(state).values() == with_field(
            old(state).values(),
            handle.pos(),
            box_filled(
                grid,
                old(state).fields()[handle.pos()].halo as int,
                field_slabs(old(state).values(), handle.pos()),
                interp_view(interp, handle.pos()),
                level as int,
                block.id(),
                ints(lo),
                ints(hi),
                volume(minus(ints(hi), ints(lo))),
            ),
        ),
{
    let ghost f = handle.pos();
    let ghost all = state.values();
    let ghost v = field_slabs(all, f);
    let ghost g = state.fields()[f].halo as int;
    let ghost iv = interp_view(interp, f);
    let ghost b = block.id();
    let ghost ext = grid.extent_of(b);
    let ghost l = ints(lo);
    let ghost h = ints(hi);
    let width = state.layout().ghost(handle.index());
    let bx = grid.patch(block).bx;
    let extent = grid.block_extent(block);
    proof {
        grid.lemma_patch(b);
        assert(v[b].len() == volume(ghosted(ext, g)));
        lemma_extent_fits(ext, g);
    }
    let mut idx = lo;
    let mut more = true;
    let ghost mut r: int = 0;
    proof {
        assert(in_box(ints(idx), l, h)) by {
            assert forall|d: int| 0 <= d < D implies l[d] <= #[trigger] ints(idx)[d] < h[d] by {
                assert(lo[d] < hi[d]);
            }
        }
        lemma_rank(ints(idx), l, h);
        crate::geometry::index::lemma_lin_zero(minus(l, l), minus(h, l));
        let w = box_filled(grid, g, v, iv, level as int, b, l, h, 0);
        assert forall|c: int| 0 <= c < v.len() implies #[trigger] w[c] == v[c] by {
            assert forall|k: int| 0 <= k < v[c].len() implies #[trigger] w[c][k] == v[c][k] by {
                let i = slab_index(k, grid.extent_of(c), g);
                if c == b && in_box(i, l, h) {
                    lemma_rank(i, l, h);
                }
            }
            assert(w[c] =~= v[c]);
        }
        assert(w =~= v);
        assert(with_field(all, f, v) =~~= all);
    }
    while more
        invariant
            D > 0,
            grid.sound(),
            level < grid.levels(),
            interp matches Some((old_state, _)) ==> field_fits(grid, old_state, f)
                && old_state.fields()[f].halo == state.fields()[f].halo,
            f == handle.pos(),
            b == block.id(),
            b < grid.patch_list().len(),
            bx == grid.patch_list()[b].bx,
            grid.patch_list()[b].level == level,
            nonempty(bx),
            within(bx, grid.cells_at(level as int)),
            ext == grid.extent_of(b),
            ext == usizes(extent),
            ext == bx.widths(),
            positive(ext),
            forall|d: int| 0 <= d < D ==> bx.width(d) == (#[trigger] bx.hi[d]) - bx.lo[d],
            forall|d: int| 0 <= d < D ==> (#[trigger] ext[d]) + 2 * g <= isize::MAX,
            forall|d: int|
                0 <= d < D ==> (#[trigger] grid.cells_at(level as int)[d]) + 0x1_0000_0000
                    <= i64::MAX,
            g == width,
            ring_reaches(grid, level as int, g),
            l == ints(lo),
            h == ints(hi),
            forall|d: int| 0 <= d < D ==> -g <= #[trigger] lo[d] && hi[d] <= ext[d] + g,
            forall|i: Seq<int>| #[trigger] in_box(i, l, h) ==> !in_ext(i, ext),
            iv == interp_view(interp, f),
            all == old(state).values(),
            v == field_slabs(all, f),
            slabs_fit(grid, g, v),
            state.fields() == old(state).fields(),
            0 <= f < state.fields().len(),
            state.fields()[f].halo == width,
            forall|c: int| 0 <= c < all.len() ==> f < (#[trigger] all[c]).fields.len(),
            state.values() == with_field(
                all,
                f,
                box_filled(grid, g, v, iv, level as int, b, l, h, r),
            ),
            0 <= r <= volume(minus(h, l)),
            more ==> in_box(ints(idx), l, h) && rank(ints(idx), l, h) == r,
            !more ==> r == volume(minus(h, l)),
        decreases volume(minus(h, l)) - r,
    {
        let ghost i = ints(idx);
        let ghost cur = box_filled(grid, g, v, iv, level as int, b, l, h, r);
        let ghost x = plus(i, ints(bx.lo));
        proof {
            lemma_rank(i, l, h);
            lemma_box_filled_interiors(grid, g, v, iv, level as int, b, l, h, r);
            assert(field_slabs(with_field(all, f, cur), f) =~= cur);
            lemma_box_filled_fits(grid, g, v, iv, level as int, b, l, h, r);
            assert(v[b].len() == volume(ghosted(ext, g)));
            assert(slab_fits(ext, g));
            assert forall|c: int| 0 <= c < state.values().len() implies f < (
            #[trigger] state.values()[c]).fields.len() by {
                assert(f < all[c].fields.len());
            }
            assert(in_slab(i, ext, g)) by {
                assert forall|d: int| 0 <= d < ext.len() implies -g <= #[trigger] i[d] < ext[d]
                    + g by {
                    assert(l[d] <= i[d] < h[d]);
                    assert(-g <= lo[d] && hi[d] <= ext[d] + g);
                }
            }
            lemma_slab_at(i, ext, g);
        }
        let (local, cell) = place(grid, level, block, idx, width);
        proof {
            assert(isizes(local) =~= i);
            assert(ints(cell) =~= x);
        }
        let value = ghost_cell(grid, &*state, interp, handle, level, cell);
        proof {
            assert forall|e: int| 0 <= e < D implies -grid.cells_at(level as int)[e]
                <= #[trigger] x[e] < 2 * grid.cells_at(level as int)[e] by {
                assert(x[e] == cell[e]);
            }
            lemma_base_ghost_owner(grid, level as int, x);
            lemma_ghost_interiors(grid, g, v, cur, iv, level as int, x);
        }
        let at = linearize(local, extent, width);
        let slab = state.slab_mut(block, handle);
        slab[at] = value;
        proof {
            let next = box_filled(grid, g, v, iv, level as int, b, l, h, r + 1);
            lemma_box_step(grid, g, v, iv, level as int, b, l, h, r, i);
            assert(next == cur.update(b, cur[b].update(at as int, value)));
            assert(state.values() =~~= with_field(all, f, next));
            r = r + 1;
        }
        more = next_cell(&mut idx, &lo, &hi);
    }
}

/// Lower corner of the ghost strip of axis `d` on side `dir`: earlier axes span
/// the grown range, later axes the interior.
spec fn strip_lo(ext: Seq<int>, g: int, d: int, dir: int) -> Seq<int> {
    Seq::new(
        ext.len(),
        |e: int|
            if e < d || (e == d && dir < 0) {
                -g
            } else if e == d {
                ext[e]
            } else {
                0
            },
    )
}

/// Upper corner of the ghost strip of axis `d` on side `dir`.
spec fn strip_hi(ext: Seq<int>, g: int, d: int, dir: int) -> Seq<int> {
    Seq::new(
        ext.len(),
        |e: int|
            if e < d || (e == d && dir >= 0) {
                ext[e] + g
            } else if e == d {
                0
            } else {
                ext[e]
            },
    )
}

/// The strips are a disjoint, complete cover of the ghost ring: a ghost lies in
/// the strip of the last axis along which it is outside.
proof fn lemma_strip(idx: Seq<int>, ext: Seq<int>, g: int, d: int, dir: int)
    requires
        0 <= d < ext.len(),
        positive(ext),
        g >= 0,
        idx.len() == ext.len(),
        dir == 1 || dir == -1,
    ensures
        in_box(idx, strip_lo(ext, g, d, dir), strip_hi(ext, g, d, dir)) <==> in_slab(idx, ext, g)
            && last_out(idx, ext, ext.len() as int) == d && (dir < 0 <==> idx[d] < 0),
        in_box(idx, strip_lo(ext, g, d, dir), strip_hi(ext, g, d, dir)) ==> !in_ext(idx, ext),
{
    let n = ext.len() as int;
    let l = strip_lo(ext, g, d, dir);
    let h = strip_hi(ext, g, d, dir);
    lemma_last_out(idx, ext, n);
    let o = last_out(idx, ext, n);
    if in_box(idx, l, h) {
        assert(l[d] <= idx[d] < h[d]);
        assert(in_slab(idx, ext, g)) by {
            assert forall|e: int| 0 <= e < n implies -g <= #[trigger] idx[e] < ext[e] + g by {
                assert(l[e] <= idx[e] < h[e]);
                assert(ext[e] > 0);
            }
        }
        if o > d {
            assert(l[o] <= idx[o] < h[o]);
        }
        if o < d {
            assert(0 <= idx[d] < ext[d]);
        }
        if in_ext(idx, ext) {
            assert(0 <= idx[d] < ext[d]);
        }
    }
    if in_slab(idx, ext, g) && o == d && (dir < 0 <==> idx[d] < 0) {
        assert forall|e: int| 0 <= e < n implies l[e] <= #[trigger] idx[e] < h[e] by {
            assert(-g <= idx[e] < ext[e] + g);
            if e > d {
                assert(0 <= idx[e] < ext[e]);
            }
        }
    }
}

/// An index is a ghost exactly when it is outside along some axis.
proof fn lemma_ghost_is_out(idx: Seq<int>, ext: Seq<int>)
    requires
        idx.len() == ext.len(),
    ensures
        in_ext(idx, ext) <==> last_out(idx, ext, ext.len() as int) == -1,
        -1 <= last_out(idx, ext, ext.len() as int) < ext.len(),
{
    let n = ext.len() as int;
    lemma_last_out(idx, ext, n);
    let o = last_out(idx, ext, n);
    if in_ext(idx, ext) && o >= 0 {
        assert(0 <= idx[o] < ext[o]);
    }
    if o == -1 {
        assert forall|d: int| 0 <= d < n implies 0 <= #[trigger] idx[d] < ext[d] by {}
    }
}

proof fn lemma_progress_interiors<R: Real, T: Real, const D: usize>(
    grid: &AmrGrid<R, D>,
    g: int,
    v: Seq<Seq<T>>,
    interp: Option<(Seq<Seq<T>>, T)>,
    level: int,
    b: int,
    d: int,
    half: bool,
)
    requires
        slabs_fit(grid, g, v),
        g >= 0,
    ensures
        slabs_fit(grid, g, ring_progress(grid, g, v, interp, level, b, d, half)),
        same_interiors(grid, g, v, ring_progress(grid, g, v, interp, level, b, d, half)),
{
    let w = ring_progress(grid, g, v, interp, level, b, d, half);
    assert forall|p: int| 0 <= p < w.len() implies (#[trigger] w[p]).len() == volume(
        ghosted(grid.extent_of(p), g),
    ) by {
        assert(v[p].len() == volume(ghosted(grid.extent_of(p), g)));
    }
    assert forall|p: int, i: Seq<int>|
        #![trigger v[p][slab_at(i, grid.extent_of(p), g)]]
        #![trigger w[p][slab_at(i, grid.extent_of(p), g)]]
        0 <= p < grid.patch_list().len() && in_ext(i, grid.extent_of(p)) implies v[p][slab_at(
        i,
        grid.extent_of(p),
        g,
    )] == w[p][slab_at(i, grid.extent_of(p), g)] by {
        lemma_interior_in_slab(i, grid.extent_of(p), g);
        lemma_slab_at(i, grid.extent_of(p), g);
        lemma_ghost_is_out(i, grid.extent_of(p));
        assert(v[p].len() == volume(ghosted(grid.extent_of(p), g)));
    }
}

/// Writing one strip advances the ring.
proof fn lemma_ring_advances<R: Real, T: Real, const D: usize>(
    grid: &AmrGrid<R, D>,
    g: int,
    v: Seq<Seq<T>>,
    interp: Option<(Seq<Seq<T>>, T)>,
    level: int,
    b: int,
    d: int,
    dir: int,
)
    requires
        grid.sound(),
        g > 0,
        slabs_fit(grid, g, v),
        0 <= b < grid.patch_list().len(),
        grid.level_of(b) == level,
        0 <= d < D,
        dir == 1 || dir == -1,
        ring_reaches(grid, level, g),
    ensures
        ({
            let ext = grid.extent_of(b);
            let lo = strip_lo(ext, g, d, dir);
            let hi = strip_hi(ext, g, d, dir);
            let from = ring_progress(grid, g, v, interp, level, b, d, dir >= 0);
            let to = if dir < 0 {
                ring_progress(grid, g, v, interp, level, b, d, true)
            } else {
                ring_progress(grid, g, v, interp, level, b, d + 1, false)
            };
            box_filled(grid, g, from, interp, level, b, lo, hi, volume(minus(hi, lo))) == to
        }),
{
    grid.lemma_patch(b);
    let ext = grid.extent_of(b);
    let bx = grid.patch_list()[b].bx;
    let cells = grid.cells_at(level);
    let lo = strip_lo(ext, g, d, dir);
    let hi = strip_hi(ext, g, d, dir);
    let from = ring_progress(grid, g, v, interp, level, b, d, dir >= 0);
    let to = if dir < 0 {
        ring_progress(grid, g, v, interp, level, b, d, true)
    } else {
        ring_progress(grid, g, v, interp, level, b, d + 1, false)
    };
    lemma_progress_interiors(grid, g, v, interp, level, b, d, dir >= 0);
    let got = box_filled(grid, g, from, interp, level, b, lo, hi, volume(minus(hi, lo)));
    assert forall|k: int| 0 <= k < v[b].len() implies #[trigger] got[b][k] == to[b][k] by {
        assert(v[b].len() == volume(ghosted(ext, g)));
        let i = slab_index(k, ext, g);
        lemma_slab_index(k, ext, g);
        lemma_strip(i, ext, g, d, dir);
        lemma_ghost_is_out(i, ext);
        if in_box(i, lo, hi) {
            lemma_rank(i, lo, hi);
            let x = plus(i, ints(bx.lo));
            assert forall|e: int| 0 <= e < D implies -cells[e] <= #[trigger] x[e] < 2 * cells[e] by {
                assert(-g <= i[e] < ext[e] + g);
                assert(0 <= bx.lo[e] <= bx.hi[e] <= cells[e]);
                assert(bx.width(e) == bx.hi[e] - bx.lo[e]);
                assert(g <= grid.cells_at(level)[e]);
            }
            lemma_base_ghost_owner(grid, level, x);
            lemma_ghost_interiors(grid, g, v, from, interp, level, x);
        }
    }
    assert(got[b] =~= to[b]);
    assert forall|c: int| 0 <= c < v.len() && c != b implies #[trigger] got[c] == to[c] by {
        assert(got[c] =~= to[c]);
    }
    assert(got =~= to);
}

/// Fill the ghost strip of axis `d` on side `dir`.
fn fill_strip<R: Real, T: Real, S: StorageBackend<T>, const D: usize>(
    grid: &AmrGrid<R, D>,
    state: &mut State<T, S>,
    interp: Option<(&State<T, S>, T)>,
    handle: FieldHandle<T>,
    level: u8,
    block: BlockId,
    extent: [usize; D],
    w: i64,
    d: usize,
    dir: i64,
    Ghost(all): Ghost<Seq<BlockValues<T>>>,
)
    requires
        grid.sound(),
        level < grid.levels(),
        interp matches Some((old_state, _)) ==> field_fits(grid, old_state, handle.pos())
            && old_state.fields()[handle.pos()].halo == w,
        block.id() < grid.patch_list().len(),
        grid.patch_list()[block.id()].level == level,
        grid.extent_of(block.id()) == usizes(extent),
        positive(usizes(extent)),
        forall|e: int| 0 <= e < D ==> (#[trigger] extent[e]) + 2 * w <= isize::MAX,
        w > 0,
        d < D,
        dir == 1 || dir == -1,
        ring_reaches(grid, level as int, w as int),
        slabs_fit(grid, w as int, field_slabs(all, handle.pos())),
        0 <= handle.pos() < old(state).fields().len(),
        old(state).fields()[handle.pos()].halo == w,
        forall|c: int| 0 <= c < all.len() ==> handle.pos() < (#[trigger] all[c]).fields.len(),
        old(state).values() == with_field(
            all,
            handle.pos(),
            ring_progress(
                grid,
                w as int,
                field_slabs(all, handle.pos()),
                interp_view(interp, handle.pos()),
                level as int,
                block.id(),
                d as int,
                dir >= 0,
            ),
        ),
    ensures
        final(state).fields() == old(state).fields(),
        final(state).values() == with_field(
            all,
            handle.pos(),
            ring_progress(
                grid,
                w as int,
                field_slabs(all, handle.pos()),
                interp_view(interp, handle.pos()),
                level as int,
                block.id(),
                if dir < 0 {
                    d as int
                } else {
                    d + 1
                },
                dir < 0,
            ),
        ),
{
    let ghost f = handle.pos();
    let ghost v = field_slabs(all, f);
    let ghost g = w as int;
    let ghost iv = interp_view(interp, f);
    let ghost b = block.id();
    let ghost first = ring_progress(grid, g, v, iv, level as int, b, d as int, dir >= 0);
    let ghost last = ring_progress(
        grid,
        g,
        v,
        iv,
        level as int,
        b,
        if dir < 0 {
            d as int
        } else {
            d + 1
        },
        dir < 0,
    );
    let (lo, hi) = strip_box(extent, w, d, dir);
    proof {
        lemma_ring_advances(grid, g, v, iv, level as int, b, d as int, dir as int);
        lemma_progress_interiors(grid, g, v, iv, level as int, b, d as int, dir >= 0);
        lemma_strip_call(
            grid,
            state,
            all,
            f,
            first,
            g,
            b,
            d as int,
            dir as int,
            ints(lo),
            ints(hi),
        );
    }
    fill_box(grid, state, interp, handle, level, block, lo, hi);
    proof {
        assert(with_field(with_field(all, f, first), f, last) =~~= with_field(all, f, last));
    }
}

/// Fill the ghost ring of one patch.
fn fill_patch<R: Real, T: Real, S: StorageBackend<T>, const D: usize>(
    grid: &AmrGrid<R, D>,
    state: &mut State<T, S>,
    interp: Option<(&State<T, S>, T)>,
    handle: FieldHandle<T>,
    level: u8,
    block: BlockId,
)
    requires
        grid.sound(),
        level < grid.levels(),
        field_fits(grid, old(state), handle.pos()),
        interp matches Some((old_state, _)) ==> field_fits(grid, old_state, handle.pos())
            && old_state.fields()[handle.pos()].halo == old(state).fields()[handle.pos()].halo,
        ring_reaches(grid, level as int, old(state).fields()[handle.pos()].halo as int),
        old(state).fields()[handle.pos()].halo > 0,
        block.id() < grid.patch_list().len(),
        grid.patch_list()[block.id()].level == level,
    ensures
        final(state).fields() == old(state).fields(),
        final(state).values() == with_field(
            old(state).values(),
            handle.pos(),
            ring_progress(
                grid,
                old(state).fields()[handle.pos()].halo as int,
                field_slabs(old(state).values(), handle.pos()),
                interp_view(interp, handle.pos()),
                level as int,
                block.id(),
                D as int,
                false,
            ),
        ),
{
    let ghost f = handle.pos();
    let ghost all = state.values();
    let ghost v = field_slabs(all, f);
    let ghost g = state.fields()[f].halo as int;
    let ghost iv = interp_view(interp, f);
    let ghost b = block.id();
    let ghost ext = grid.extent_of(b);
    let width = state.layout().ghost(handle.index());
    let w: i64 = width as i64;
    let extent = grid.block_extent(block);
    proof {
        grid.lemma_patch(b);
        assert(slab_fits(ext, g));
        lemma_extent_fits(ext, g);
        assert forall|e: int| 0 <= e < D implies (#[trigger] extent[e]) + 2 * w <= isize::MAX by {
            assert(ext[e] == extent[e]);
        }
        let p0 = ring_progress(grid, g, v, iv, level as int, b, 0, false);
        assert(p0 =~~= v);
        assert(with_field(all, f, v) =~~= all);
    }
    let mut d: usize = 0;
    while d < D
        invariant
            d <= D,
            grid.sound(),
            level < grid.levels(),
            interp matches Some((old_state, _)) ==> field_fits(grid, old_state, f)
                && old_state.fields()[f].halo == width,
            f == handle.pos(),
            b == block.id(),
            b < grid.patch_list().len(),
            grid.patch_list()[b].level == level,
            ext == grid.extent_of(b),
            ext == usizes(extent),
            positive(ext),
            forall|e: int| 0 <= e < D ==> (#[trigger] extent[e]) + 2 * w <= isize::MAX,
            g == width,
            w == width,
            g > 0,
            ring_reaches(grid, level as int, g),
            iv == interp_view(interp, f),
            all == old(state).values(),
            v == field_slabs(all, f),
            slabs_fit(grid, g, v),
            state.fields() == old(state).fields(),
            0 <= f < state.fields().len(),
            state.fields()[f].halo == width,
            forall|c: int| 0 <= c < all.len() ==> f < (#[trigger] all[c]).fields.len(),
            state.values() == with_field(
                all,
                f,
                ring_progress(grid, g, v, iv, level as int, b, d as int, false),
            ),
        decreases D - d,
    {
        fill_strip(grid, state, interp, handle, level, block, extent, w, d, -1, Ghost(all));
        fill_strip(grid, state, interp, handle, level, block, extent, w, d, 1, Ghost(all));
        d += 1;
    }
}

/// Corners of the ghost strip of axis `d` on side `dir`.
fn strip_box<const D: usize>(extent: [usize; D], w: i64, d: usize, dir: i64) -> (r: (
    [i64; D],
    [i64; D],
))
    requires
        d < D,
        0 < w,
        dir == 1 || dir == -1,
        positive(usizes(extent)),
        forall|e: int| 0 <= e < D ==> (#[trigger] extent[e]) + 2 * w <= isize::MAX,
    ensures
        ints(r.0) == strip_lo(usizes(extent), w as int, d as int, dir as int),
        ints(r.1) == strip_hi(usizes(extent), w as int, d as int, dir as int),
        forall|e: int| 0 <= e < D ==> (#[trigger] r.0[e]) < r.1[e],
        forall|e: int| 0 <= e < D ==> -w <= #[trigger] r.0[e] && r.1[e] <= extent[e] + w,
{
    let mut lo = [0i64; D];
    let mut hi = [0i64; D];
    let mut e: usize = 0;
    while e < D
        invariant
            e <= D,
            d < D,
            0 < w,
            positive(usizes(extent)),
            forall|k: int| 0 <= k < D ==> (#[trigger] extent[k]) + 2 * w <= isize::MAX,
            forall|k: int|
                0 <= k < e ==> #[trigger] lo[k] == strip_lo(
                    usizes(extent),
                    w as int,
                    d as int,
                    dir as int,
                )[k],
            forall|k: int|
                0 <= k < e ==> #[trigger] hi[k] == strip_hi(
                    usizes(extent),
                    w as int,
                    d as int,
                    dir as int,
                )[k],
            forall|k: int| 0 <= k < e ==> (#[trigger] lo[k]) < hi[k],
            forall|k: int| 0 <= k < e ==> -w <= #[trigger] lo[k] && hi[k] <= extent[k] + w,
        decreases D - e,
    {
        assert(usizes(extent)[e as int] > 0);
        assert(extent[e as int] + 2 * w <= isize::MAX);
        let n: i64 = extent[e] as i64;
        lo[e] = if e < d || (e == d && dir < 0) {
            -w
        } else if e == d {
            n
        } else {
            0
        };
        hi[e] = if e < d || (e == d && dir >= 0) {
            n + w
        } else if e == d {
            0
        } else {
            n
        };
        e += 1;
    }
    proof {
        assert(ints(lo) =~= strip_lo(usizes(extent), w as int, d as int, dir as int));
        assert(ints(hi) =~= strip_hi(usizes(extent), w as int, d as int, dir as int));
    }
    (lo, hi)
}

/// The state between two strips is ready for the next one.
proof fn lemma_strip_call<R: Real, T: Real, S: StorageBackend<T>, const D: usize>(
    grid: &AmrGrid<R, D>,
    state: &State<T, S>,
    all: Seq<BlockValues<T>>,
    f: int,
    cur: Seq<Seq<T>>,
    g: int,
    b: int,
    d: int,
    dir: int,
    lo: Seq<int>,
    hi: Seq<int>,
)
    requires
        state.values() == with_field(all, f, cur),
        0 <= f < state.fields().len(),
        state.fields()[f].halo == g,
        g > 0,
        slabs_fit(grid, g, cur),
        cur.len() == all.len(),
        forall|c: int| 0 <= c < all.len() ==> f < (#[trigger] all[c]).fields.len(),
        0 <= b < grid.patch_list().len(),
        positive(grid.extent_of(b)),
        grid.extent_of(b).len() == D,
        0 <= d < D,
        dir == 1 || dir == -1,
        lo == strip_lo(grid.extent_of(b), g, d, dir),
        hi == strip_hi(grid.extent_of(b), g, d, dir),
    ensures
        field_fits(grid, state, f),
        field_slabs(state.values(), f) == cur,
        forall|i: Seq<int>| #[trigger] in_box(i, lo, hi) ==> !in_ext(i, grid.extent_of(b)),
{
    assert(field_slabs(state.values(), f) =~= cur);
    assert forall|c: int| 0 <= c < state.values().len() implies f < (
    #[trigger] state.values()[c]).fields.len() by {
        assert(f < all[c].fields.len());
    }
    assert forall|i: Seq<int>| #[trigger] in_box(i, lo, hi) implies !in_ext(
        i,
        grid.extent_of(b),
    ) by {
        lemma_strip(i, grid.extent_of(b), g, d, dir);
    }
}

/// The field after the ghosts of a level's patches before patch `n` were filled.
spec fn blocks_filled<R: Real, T: Real, const D: usize>(
    grid: &AmrGrid<R, D>,
    g: int,
    v: Seq<Seq<T>>,
    interp: Option<(Seq<Seq<T>>, T)>,
    level: int,
    n: int,
) -> Seq<Seq<T>> {
    let full = level_filled(grid, g, v, interp, level);
    Seq::new(
        v.len(),
        |b: int|
            if b < n {
                full[b]
            } else {
                v[b]
            },
    )
}

/// Filling ghosts touches no interior.
proof fn lemma_blocks_filled<R: Real, T: Real, const D: usize>(
    grid: &AmrGrid<R, D>,
    g: int,
    v: Seq<Seq<T>>,
    interp: Option<(Seq<Seq<T>>, T)>,
    level: int,
    n: int,
)
    requires
        slabs_fit(grid, g, v),
        g >= 0,
    ensures
        slabs_fit(grid, g, blocks_filled(grid, g, v, interp, level, n)),
        same_interiors(grid, g, v, blocks_filled(grid, g, v, interp, level, n)),
{
    let w = blocks_filled(grid, g, v, interp, level, n);
    assert forall|p: int| 0 <= p < w.len() implies (#[trigger] w[p]).len() == volume(
        ghosted(grid.extent_of(p), g),
    ) by {
        assert(v[p].len() == volume(ghosted(grid.extent_of(p), g)));
    }
    assert forall|p: int, i: Seq<int>|
        #![trigger v[p][slab_at(i, grid.extent_of(p), g)]]
        #![trigger w[p][slab_at(i, grid.extent_of(p), g)]]
        0 <= p < grid.patch_list().len() && in_ext(i, grid.extent_of(p)) implies v[p][slab_at(
        i,
        grid.extent_of(p),
        g,
    )] == w[p][slab_at(i, grid.extent_of(p), g)] by {
        lemma_interior_in_slab(i, grid.extent_of(p), g);
        lemma_slab_at(i, grid.extent_of(p), g);
        assert(v[p].len() == volume(ghosted(grid.extent_of(p), g)));
    }
}

/// Filling the ring of patch `b` advances the level by one patch.
proof fn lemma_level_advances<R: Real, T: Real, const D: usize>(
    grid: &AmrGrid<R, D>,
    g: int,
    v: Seq<Seq<T>>,
    interp: Option<(Seq<Seq<T>>, T)>,
    level: int,
    b: int,
)
    requires
        grid.sound(),
        g > 0,
        slabs_fit(grid, g, v),
        0 <= b < grid.patch_list().len(),
        grid.level_of(b) == level,
        ring_reaches(grid, level, g),
    ensures
        ring_progress(
            grid,
            g,
            blocks_filled(grid, g, v, interp, level, b),
            interp,
            level,
            b,
            D as int,
            false,
        ) == blocks_filled(grid, g, v, interp, level, b + 1),
{
    grid.lemma_patch(b);
    let ext = grid.extent_of(b);
    let bx = grid.patch_list()[b].bx;
    let cells = grid.cells_at(level);
    let w = blocks_filled(grid, g, v, interp, level, b);
    let got = ring_progress(grid, g, w, interp, level, b, D as int, false);
    let want = blocks_filled(grid, g, v, interp, level, b + 1);
    lemma_blocks_filled(grid, g, v, interp, level, b);
    assert forall|k: int| 0 <= k < v[b].len() implies #[trigger] got[b][k] == want[b][k] by {
        assert(v[b].len() == volume(ghosted(ext, g)));
        let i = slab_index(k, ext, g);
        lemma_slab_index(k, ext, g);
        lemma_ghost_is_out(i, ext);
        if !in_ext(i, ext) {
            let x = plus(i, ints(bx.lo));
            assert forall|e: int| 0 <= e < D implies -cells[e] <= #[trigger] x[e] < 2 * cells[e] by {
                assert(-g <= i[e] < ext[e] + g);
                assert(0 <= bx.lo[e] <= bx.hi[e] <= cells[e]);
                assert(bx.width(e) == bx.hi[e] - bx.lo[e]);
                assert(g <= grid.cells_at(level)[e]);
            }
            lemma_base_ghost_owner(grid, level, x);
            lemma_ghost_interiors(grid, g, v, w, interp, level, x);
        }
    }
    assert(got[b] =~= want[b]);
    assert forall|c: int| 0 <= c < v.len() && c != b implies #[trigger] got[c] == want[c] by {
        assert(got[c] =~= want[c]);
    }
    assert(got =~= want);
}

/// Without ghosts there is nothing to fill.
proof fn lemma_no_ghosts<R: Real, T: Real, const D: usize>(
    grid: &AmrGrid<R, D>,
    v: Seq<Seq<T>>,
    interp: Option<(Seq<Seq<T>>, T)>,
    level: int,
)
    requires
        grid.sound(),
        slabs_fit(grid, 0, v),
    ensures
        level_filled(grid, 0, v, interp, level) == v,
{
    let w = level_filled(grid, 0, v, interp, level);
    assert forall|b: int| 0 <= b < v.len() implies #[trigger] w[b] == v[b] by {
        grid.lemma_patch(b);
        let ext = grid.extent_of(b);
        assert(v[b].len() == volume(ghosted(ext, 0)));
        assert forall|k: int| 0 <= k < v[b].len() implies #[trigger] w[b][k] == v[b][k] by {
            let i = slab_index(k, ext, 0);
            lemma_slab_index(k, ext, 0);
            assert(in_ext(i, ext)) by {
                assert forall|d: int| 0 <= d < ext.len() implies 0 <= #[trigger] i[d] < ext[d] by {}
            }
        }
        assert(w[b] =~= v[b]);
    }
    assert(w =~= v);
}

/// The patches of one level are its slice of the patch list.
pub proof fn lemma_level_slice<R: Real, const D: usize>(grid: &AmrGrid<R, D>, level: int, p: int)
    requires
        grid.sound(),
        0 <= level < grid.levels(),
        0 <= p < grid.patch_list().len(),
    ensures
        grid.level_of(p) == level <==> grid.starts()[level] <= p < grid.starts()[level + 1],
        grid.starts()[level + 1] <= grid.patch_list().len(),
{
    let st = grid.starts();
    assert(st[level + 1] <= st[st.len() - 1]);
    if grid.level_of(p) == level {
        grid.lemma_position(p);
    }
    if st[level] <= p < st[level + 1] {
        grid.lemma_level_at(level, p);
    }
}

/// Fill one level's ghosts under **subcycling**.
///
/// Same-level exchange and physical mirror read the current `state`.
/// `time_interp = Some((old, alpha))` makes the coarse-to-fine prolongation
/// interpolate *in time* between `old` (the coarser level at the start of its
/// step) and the current `state` (the coarser level after its step), at
/// fraction `alpha` in `[0, 1]`. Level 0 never prolongs, so it passes `None`.
pub fn fill_level<R: Real, T: Real, S: StorageBackend<T>, const D: usize>(
    grid: &AmrGrid<R, D>,
    state: &mut State<T, S>,
    time_interp: Option<(&State<T, S>, T)>,
    handle: FieldHandle<T>,
    level: u8,
)
    requires
        grid.sound(),
        level < grid.levels(),
        field_fits(grid, old(state), handle.pos()),
        time_interp matches Some((old_state, _)) ==> field_fits(grid, old_state, handle.pos())
            && old_state.fields()[handle.pos()].halo == old(state).fields()[handle.pos()].halo,
        ring_reaches(grid, level as int, old(state).fields()[handle.pos()].halo as int),
    ensures
        final(state).fields() == old(state).fields(),
        final(state).values() == with_field(
            old(state).values(),
            handle.pos(),
            level_filled(
                grid,
                old(state).fields()[handle.pos()].halo as int,
                field_slabs(old(state).values(), handle.pos()),
                interp_view(time_interp, handle.pos()),
                level as int,
            ),
        ),
{
    let ghost f = handle.pos();
    let ghost all = state.values();
    let ghost v = field_slabs(all, f);
    let ghost g = state.fields()[f].halo as int;
    let ghost iv = interp_view(time_interp, f);
    let ghost st = grid.starts();
    let ghost lv = level as int;
    let width = state.layout().ghost(handle.index());
    proof {
        assert(with_field(all, f, v) =~~= all);
    }
    if width == 0 {
        proof {
            lemma_no_ghosts(grid, v, iv, lv);
        }
        return;
    }
    let (start, end) = grid.level_range(level);
    proof {
        assert(st[lv] <= st[lv + 1]);
        assert(st[lv + 1] <= st[st.len() - 1]);
        assert(st[0] <= st[lv]);
        let w0 = blocks_filled(grid, g, v, iv, lv, st[lv] as int);
        assert forall|b: int| 0 <= b < v.len() implies #[trigger] w0[b] == v[b] by {
            lemma_level_slice(grid, lv, b);
            assert(w0[b] =~= v[b]);
        }
        assert(w0 =~= v);
    }
    let mut b: u32 = start;
    while b < end
        invariant
            start <= b <= end,
            start == st[lv],
            end == st[lv + 1],
            end <= grid.patch_list().len(),
            st == grid.starts(),
            lv == level,
            grid.sound(),
            level < grid.levels(),
            time_interp matches Some((old_state, _)) ==> field_fits(grid, old_state, f)
                && old_state.fields()[f].halo == width,
            f == handle.pos(),
            g == width,
            g > 0,
            ring_reaches(grid, lv, g),
            iv == interp_view(time_interp, f),
            all == old(state).values(),
            v == field_slabs(all, f),
            slabs_fit(grid, g, v),
            state.fields() == old(state).fields(),
            0 <= f < state.fields().len(),
            state.fields()[f].halo == width,
            forall|c: int| 0 <= c < all.len() ==> f < (#[trigger] all[c]).fields.len(),
            state.values() == with_field(all, f, blocks_filled(grid, g, v, iv, lv, b as int)),
        decreases end - b,
    {
        let ghost cur = blocks_filled(grid, g, v, iv, lv, b as int);
        proof {
            lemma_level_slice(grid, lv, b as int);
            lemma_blocks_filled(grid, g, v, iv, lv, b as int);
            lemma_level_advances(grid, g, v, iv, lv, b as int);
            assert(field_slabs(state.values(), f) =~= cur);
            assert forall|c: int| 0 <= c < state.values().len() implies f < (
            #[trigger] state.values()[c]).fields.len() by {
                assert(f < all[c].fields.len());
            }
        }
        fill_patch(grid, state, time_interp, handle, level, BlockId(b));
        proof {
            let next = blocks_filled(grid, g, v, iv, lv, b + 1);
            assert(with_field(with_field(all, f, cur), f, next) =~~= with_field(all, f, next));
        }
        b += 1;
    }
    proof {
        let full = level_filled(grid, g, v, iv, lv);
        let w = blocks_filled(grid, g, v, iv, lv, end as int);
        assert forall|c: int| 0 <= c < v.len() implies #[trigger] w[c] == full[c] by {
            lemma_level_slice(grid, lv, c);
            assert(w[c] =~= full[c]);
        }
        assert(w =~= full);
    }
}

/// The field after the ghosts of the first `n` levels were filled, coarsest
/// first.
pub open spec fn levels_filled<R: Real, T: Real, const D: usize>(
    grid: &AmrGrid<R, D>,
    g: int,
    v: Seq<Seq<T>>,
    n: nat,
) -> Seq<Seq<T>>
    decreases n,
{
    if n == 0 {
        v
    } else {
        level_filled(grid, g, levels_filled(grid, g, v, (n - 1) as nat), None, n - 1)
    }
}

/// Fill every ghost cell of every patch: same-level exchange, physical mirror,
/// coarse-to-fine prolongation. The global-step path, where every level is at
/// the same time.
pub fn fill_ghosts_mirror<R: Real, T: Real, S: StorageBackend<T>, const D: usize>(
    grid: &AmrGrid<R, D>,
    state: &mut State<T, S>,
    handle: FieldHandle<T>,
)
    requires
        grid.sound(),
        field_fits(grid, old(state), handle.pos()),
        forall|level: int|
            0 <= level < grid.levels() ==> #[trigger] ring_reaches(
                grid,
                level,
                old(state).fields()[handle.pos()].halo as int,
            ),
    ensures
        final(state).fields() == old(state).fields(),
        final(state).values() == with_field(
            old(state).values(),
            handle.pos(),
            levels_filled(
                grid,
                old(state).fields()[handle.pos()].halo as int,
                field_slabs(old(state).values(), handle.pos()),
                grid.levels() as nat,
            ),
        ),
{
    let ghost f = handle.pos();
    let ghost all = state.values();
    let ghost v = field_slabs(all, f);
    let ghost g = state.fields()[f].halo as int;
    let levels = grid.num_levels();
    proof {
        assert(with_field(all, f, v) =~~= all);
    }
    let mut level: usize = 0;
    while level < levels
        invariant
            level <= levels,
            levels == grid.levels(),
            levels <= 256,
            grid.sound(),
            f == handle.pos(),
            g >= 0,
            all == old(state).values(),
            v == field_slabs(all, f),
            v.len() == grid.patch_list().len(),
            slabs_fit(grid, g, levels_filled(grid, g, v, level as nat)),
            state.fields() == old(state).fields(),
            0 <= f < state.fields().len(),
            state.fields()[f].halo == g,
            forall|c: int| 0 <= c < all.len() ==> f < (#[trigger] all[c]).fields.len(),
            forall|l: int| 0 <= l < grid.levels() ==> #[trigger] ring_reaches(grid, l, g),
            state.values() == with_field(all, f, levels_filled(grid, g, v, level as nat)),
        decreases levels - level,
    {
        let ghost cur = levels_filled(grid, g, v, level as nat);
        let ghost next = levels_filled(grid, g, v, (level + 1) as nat);
        proof {
            assert(ring_reaches(grid, level as int, g));
            assert(field_slabs(state.values(), f) =~= cur);
            assert forall|c: int| 0 <= c < state.values().len() implies f < (
            #[trigger] state.values()[c]).fields.len() by {
                assert(f < all[c].fields.len());
            }
            assert forall|p: int| 0 <= p < next.len() implies (#[trigger] next[p]).len() == volume(
                ghosted(grid.extent_of(p), g),
            ) by {
                assert(cur[p].len() == volume(ghosted(grid.extent_of(p), g)));
            }
        }
        fill_level(grid, state, None, handle, level as u8);
        proof {
            assert(with_field(with_field(all, f, cur), f, next) =~~= with_field(all, f, next));
        }
        level += 1;
    }
}

/// Filling ghosts changes no interior cell of any patch.
pub proof fn ghost_fill_keeps_interiors<R: Real, T: Real, const D: usize>(
    grid: &AmrGrid<R, D>,
    g: int,
    v: Seq<Seq<T>>,
    interp: Option<(Seq<Seq<T>>, T)>,
    level: int,
)
    requires
        slabs_fit(grid, g, v),
        g >= 0,
    ensures
        slabs_fit(grid, g, level_filled(grid, g, v, interp, level)),
        same_interiors(grid, g, v, level_filled(grid, g, v, interp, level)),
{
    let n = v.len() as int;
    assert(blocks_filled(grid, g, v, interp, level, n) =~= level_filled(grid, g, v, interp, level));
    lemma_blocks_filled(grid, g, v, interp, level, n);
}

/// Every ghost value is computed from interior cells of donor patches: two
/// fields with the same interiors get the same ghosts.
pub proof fn ghosts_depend_on_interiors<R: Real, T: Real, const D: usize>(
    grid: &AmrGrid<R, D>,
    g: int,
    v: Seq<Seq<T>>,
    w: Seq<Seq<T>>,
    interp: Option<(Seq<Seq<T>>, T)>,
    level: int,
    b: int,
    k: int,
)
    requires
        grid.sound(),
        g >= 0,
        slabs_fit(grid, g, v),
        slabs_fit(grid, g, w),
        same_interiors(grid, g, v, w),
        ring_reaches(grid, level, g),
        0 <= b < v.len(),
        grid.level_of(b) == level,
        0 <= k < v[b].len(),
    ensures
        level_filled(grid, g, v, interp, level)[b][k] == level_filled(grid, g, w, interp, level)[b][k],
{
    grid.lemma_patch(b);
    let ext = grid.extent_of(b);
    let bx = grid.patch_list()[b].bx;
    let cells = grid.cells_at(level);
    assert(v[b].len() == volume(ghosted(ext, g)));
    assert(w[b].len() == volume(ghosted(ext, g)));
    let i = slab_index(k, ext, g);
    lemma_slab_index(k, ext, g);
    if in_ext(i, ext) {
        assert(v[b][slab_at(i, ext, g)] == w[b][slab_at(i, ext, g)]);
    } else {
        let x = plus(i, ints(bx.lo));
        assert forall|e: int| 0 <= e < D implies -cells[e] <= #[trigger] x[e] < 2 * cells[e] by {
            assert(-g <= i[e] < ext[e] + g);
            assert(0 <= bx.lo[e] <= bx.hi[e] <= cells[e]);
            assert(bx.width(e) == bx.hi[e] - bx.lo[e]);
            assert(g <= grid.cells_at(level)[e]);
        }
        lemma_base_ghost_owner(grid, level, x);
        lemma_ghost_interiors(grid, g, v, w, interp, level, x);
    }
}

/// Ghosts may be filled level by level in any order: two levels commute.
pub proof fn fill_order_is_immaterial<R: Real, T: Real, const D: usize>(
    grid: &AmrGrid<R, D>,
    g: int,
    v: Seq<Seq<T>>,
    l: int,
    m: int,
)
    requires
        grid.sound(),
        g >= 0,
        slabs_fit(grid, g, v),
        ring_reaches(grid, l, g),
        ring_reaches(grid, m, g),
        l != m,
    ensures
        level_filled(grid, g, level_filled(grid, g, v, None, l), None, m) == level_filled(
            grid,
            g,
            level_filled(grid, g, v, None, m),
            None,
            l,
        ),
{
    let vl = level_filled(grid, g, v, None, l);
    let vm = level_filled(grid, g, v, None, m);
    ghost_fill_keeps_interiors(grid, g, v, None, l);
    ghost_fill_keeps_interiors(grid, g, v, None, m);
    let a = level_filled(grid, g, vl, None, m);
    let b = level_filled(grid, g, vm, None, l);
    assert forall|q: int| 0 <= q < v.len() implies #[trigger] a[q] == b[q] by {
        assert(v[q].len() == volume(ghosted(grid.extent_of(q), g)));
        assert forall|k: int| 0 <= k < v[q].len() implies #[trigger] a[q][k] == b[q][k] by {
            if grid.level_of(q) == l {
                ghosts_depend_on_interiors(grid, g, v, vm, None, l, q, k);
            } else if grid.level_of(q) == m {
                ghosts_depend_on_interiors(grid, g, v, vl, None, m, q, k);
            }
        }
        assert(a[q] =~= b[q]);
    }
    assert(a =~= b);
}

/// A ghost that lies outside the domain mirrors to a cell that is no farther
/// from the patch.
pub proof fn mirrored_ghosts_stay_near<R: Real, const D: usize>(
    grid: &AmrGrid<R, D>,
    p: int,
    g: int,
    x: Seq<int>,
)
    requires
        grid.sound(),
        0 <= p < grid.patch_list().len(),
        ring_reaches(grid, grid.level_of(p), g),
        near(grid.patch_list()[p].bx, g, x),
    ensures
        near(grid.patch_list()[p].bx, g, ghost_target(grid, grid.level_of(p), x)),
        in_ext(ghost_target(grid, grid.level_of(p), x), grid.cells_at(grid.level_of(p))),
{
    grid.lemma_patch(p);
    let bx = grid.patch_list()[p].bx;
    let level = grid.level_of(p);
    let cells = grid.cells_at(level);
    let t = ghost_target(grid, level, x);
    assert forall|d: int| 0 <= d < D implies bx.lo[d] - g <= #[trigger] t[d] < bx.hi[d] + g && 0
        <= t[d] < cells[d] by {
        assert(bx.lo[d] - g <= x[d] < bx.hi[d] + g);
        assert(0 <= bx.lo[d] <= bx.hi[d] <= cells[d]);
        assert(bx.lo[d] < bx.hi[d]);
        assert(g <= cells[d]) by {
            assert(g <= grid.cells_at(level)[d]);
        }
    }
}

/// The cell lies in the box grown by `g`.
pub open spec fn near<const D: usize>(bx: CellBox<D>, g: int, x: Seq<int>) -> bool {
    &&& x.len() == D
    &&& forall|d: int| 0 <= d < D ==> bx.lo[d] - g <= #[trigger] x[d] < bx.hi[d] + g
}

/// Along one axis, corners that count stay within one coarse cell of the
/// coarsened box.
proof fn lemma_corner_coordinate(t: int, r: int, g: int, lo: int, hi: int, n: int, o: int)
    requires
        r >= 2,
        2 * g <= r + 1,
        0 <= lo < hi <= n * r,
        lo % r == 0,
        hi % r == 0,
        lo - g <= t < hi + g,
        0 <= t < n * r,
        o == 0 || o == 1,
        o == 1 ==> !on_center(t, r),
    ensures
        ({
            let c = reflected(coarse_below(t, r) + o, 0, n);
            &&& 0 <= c < n
            &&& lo / r - 1 <= c
            &&& c < (hi + r - 1) / r + 1
        }),
{
    let m = lo / r;
    let h = hi / r;
    let q = t / r;
    let rem = t % r;
    vstd::arithmetic::div_mod::lemma_fundamental_div_mod(lo, r);
    vstd::arithmetic::div_mod::lemma_fundamental_div_mod(hi, r);
    vstd::arithmetic::div_mod::lemma_fundamental_div_mod(t, r);
    vstd::arithmetic::div_mod::lemma_mod_bound(t, r);
    assert(0 <= m < h <= n && 0 <= q < n) by (nonlinear_arith)
        requires
            lo == r * m,
            hi == r * h,
            t == r * q + rem,
            0 <= rem < r,
            0 <= lo < hi <= n * r,
            0 <= t < n * r,
            r >= 2,
    ;
    assert((hi + r - 1) / r == h) by {
        vstd::arithmetic::mul::lemma_mul_is_commutative(r, h);
        vstd::arithmetic::div_mod::lemma_fundamental_div_mod_converse(hi + r - 1, r, h, r - 1);
    }
    // Below the box by at most half a coarse cell.
    assert(q >= m || (q == m - 1 && rem >= r - g)) by (nonlinear_arith)
        requires
            lo == r * m,
            t == r * q + rem,
            0 <= rem < r,
            lo - g <= t,
            2 * g <= r + 1,
            r >= 2,
    ;
    // Above it by at most half a coarse cell.
    assert(q <= h - 1 || (q == h && rem <= g - 1)) by (nonlinear_arith)
        requires
            hi == r * h,
            t == r * q + rem,
            0 <= rem < r,
            t < hi + g,
            2 * g <= r + 1,
            r >= 2,
    ;
}

/// Proper nesting supplies every donor of prolongation: around a refined patch,
/// out to half a coarse cell, each interpolation corner that counts is an
/// interior cell of some patch one level down.
pub proof fn prolongation_donors_exist<R: Real, const D: usize>(
    grid: &AmrGrid<R, D>,
    p: int,
    g: int,
    t: Seq<int>,
    o: Seq<int>,
)
    requires
        grid.sound(),
        0 <= p < grid.patch_list().len(),
        grid.level_of(p) > 0,
        near(grid.patch_list()[p].bx, g, t),
        in_ext(t, grid.cells_at(grid.level_of(p))),
        2 * g <= grid.ratio_list()[grid.level_of(p) - 1] + 1,
        o.len() == D,
        forall|d: int| 0 <= d < D ==> (#[trigger] o[d] == 0 || o[d] == 1),
        !corner_vanishes(t, grid.ratio_list()[grid.level_of(p) - 1] as int, o),
    ensures
        ({
            let level = grid.level_of(p);
            let r = grid.ratio_list()[level - 1] as int;
            owner_at(grid, level - 1, donor(t, r, o, grid.cells_at(level - 1))) is Some
        }),
{
    grid.lemma_patch(p);
    grid.lemma_nested(p);
    let level = grid.level_of(p);
    let r = grid.ratio_list()[level - 1] as int;
    let coarse = grid.cells_at(level - 1);
    let bx = grid.patch_list()[p].bx;
    let c = donor(t, r, o, coarse);
    assert(volume(level_cells(grid.base_grid().domain(), grid.ratio_list(), (level - 1) as nat))
        <= usize::MAX);
    assert forall|d: int| 0 <= d < D implies 0 <= #[trigger] c[d] < coarse[d] && bx.lo[d] as int / r
        - 1 <= c[d] && c[d] < (bx.hi[d] + r - 1) / r + 1 by {
        lemma_cells_refine(grid, level, d);
        assert(bx.lo[d] - g <= t[d] < bx.hi[d] + g);
        assert(0 <= t[d] < grid.cells_at(level)[d]);
        assert(bx.lo[d] as int % r == 0 && bx.hi[d] as int % r == 0);
        assert(o[d] == 0 || o[d] == 1);
        lemma_corner_coordinate(
            t[d],
            r,
            g,
            bx.lo[d] as int,
            bx.hi[d] as int,
            coarse[d],
            o[d],
        );
    }
    assert forall|d: int| 0 <= d < D implies i64::MIN <= #[trigger] c[d] <= i64::MAX by {
        assert(0 <= c[d] < coarse[d]);
        assert(level_cells(grid.base_grid().domain(), grid.ratio_list(), (level - 1) as nat)[d]
            + 0x1_0000_0000 <= i64::MAX);
    }
    lemma_cell_of::<D>(c);
    let cell = cell_of::<D>(c);
    assert(in_margin(bx, r, coarse, cell)) by {
        assert forall|d: int| 0 <= d < D implies {
            &&& 0 <= #[trigger] cell[d] < coarse[d]
            &&& bx.lo[d] as int / r - 1 <= cell[d]
            &&& cell[d] < (bx.hi[d] + r - 1) / r + 1
        } by {
            assert(ints(cell)[d] == c[d]);
        }
    }
    assert(some_box_has(grid.level_boxes(level - 1), cell));
    let k = choose|k: int|
        0 <= k < grid.level_boxes(level - 1).len() && (#[trigger] grid.level_boxes(level
            - 1)[k]).has(cell);
    grid.lemma_level_box(level - 1, k);
    let q = grid.starts()[level - 1] + k;
    lemma_has_is_in_box(grid.patch_list()[q].bx, cell);
    assert(patch_holds(grid, q, level - 1, c));
}

} // verus!
