//! Ghost filling on the uniform grid: halo exchange across block faces,
//! wrapping in periodic dimensions, and boundary rules at physical faces.
//!
//! Works dimension by dimension: sweep `d` writes only `d`-ghost strips and
//! reads only `d`-interior strips, spanning the *full* ghost-inclusive extent
//! in the other dimensions. After all sweeps, edge and corner ghosts are
//! consistent for any block count and dimension, including a periodic dimension
//! spanned by a single block, which wraps onto itself.

use vstd::prelude::*;

use crate::engine::state::{allocated_on, full_block, BlockValues, FieldHandle, FieldSpec, State};
use crate::engine::storage::{Real, Scalar, StorageBackend};
use crate::geometry::boundary::{FaceBc, FaceRule, FaceTable, MirrorFaces, NormalLine};
use crate::geometry::cartesian::CartesianGrid;
use crate::geometry::grid::{
    ghosted, in_slab, lemma_extent_fits, lemma_slab_at, lemma_slab_index, lemma_spread, linearize,
    slab_at, slab_fits, slab_index, spread, BlockId, Grid,
};
use crate::geometry::index::{
    in_box, in_ext, isizes, lemma_lin_bounds, lemma_lin_delin, lemma_rank, lemma_volume_positive,
    lin, minus, next_index, rank, usizes, volume,
};
use crate::geometry::sweep::lemma_replaced_allocated;

verus! {

/// The slabs of one field, block by block.
pub open spec fn field_slabs<T>(v: Seq<BlockValues<T>>, f: int) -> Seq<Seq<T>> {
    Seq::new(v.len(), |b: int| v[b].fields[f])
}

/// The contents with every slab of one field replaced.
pub open spec fn with_field<T>(
    v: Seq<BlockValues<T>>,
    f: int,
    slabs: Seq<Seq<T>>,
) -> Seq<BlockValues<T>> {
    Seq::new(
        v.len(),
        |b: int| BlockValues { fields: v[b].fields.update(f, slabs[b]), rate: v[b].rate },
    )
}

/// Which side of a block a coordinate lies on, off the interior.
pub open spec fn side(c: int) -> int {
    if c < 0 {
        -1
    } else {
        1
    }
}

/// Ghost layer of an off-interior coordinate, 0 = innermost.
pub open spec fn layer(c: int, n: int) -> int {
    if c < 0 {
        -1 - c
    } else {
        c - n
    }
}

/// Coordinate of the `j`-th interior cell inward from the face on side `dir`.
pub open spec fn inward(dir: int, j: int, n: int) -> int {
    if dir < 0 {
        j
    } else {
        n - 1 - j
    }
}

/// One entry after the sweep of dimension `d`: interior along `d` it is kept;
/// a ghost is the neighbor's interior cell across the face, or the boundary
/// rule of the block's own interior cells where there is no neighbor.
pub open spec fn swept_entry<R: Real, T: Scalar, B: FaceRule<T>, const D: usize>(
    grid: &CartesianGrid<R, D>,
    rule: &B,
    g: int,
    v: Seq<Seq<T>>,
    d: int,
    b: int,
    idx: Seq<int>,
) -> T {
    let n = grid.tile();
    if 0 <= idx[d] < n[d] {
        v[b][slab_at(idx, n, g)]
    } else {
        let dir = side(idx[d]);
        match grid.neighbor(b, d, dir) {
            Some(nb) => v[nb][slab_at(idx.update(d, idx[d] - dir * n[d]), n, g)],
            None => rule.value(
                d,
                dir,
                layer(idx[d], n[d]),
                Seq::new(
                    n[d] as nat,
                    |j: int| v[b][slab_at(idx.update(d, inward(dir, j, n[d])), n, g)],
                ),
            ),
        }
    }
}

/// The field after the sweep of dimension `d`.
pub open spec fn swept<R: Real, T: Scalar, B: FaceRule<T>, const D: usize>(
    grid: &CartesianGrid<R, D>,
    rule: &B,
    g: int,
    v: Seq<Seq<T>>,
    d: int,
) -> Seq<Seq<T>> {
    Seq::new(
        v.len(),
        |b: int|
            Seq::new(
                v[b].len(),
                |k: int| swept_entry(grid, rule, g, v, d, b, slab_index(k, grid.tile(), g)),
            ),
    )
}

/// The field after the first `d` sweeps.
pub open spec fn filled<R: Real, T: Scalar, B: FaceRule<T>, const D: usize>(
    grid: &CartesianGrid<R, D>,
    rule: &B,
    g: int,
    v: Seq<Seq<T>>,
    d: nat,
) -> Seq<Seq<T>>
    decreases d,
{
    if d == 0 {
        v
    } else {
        swept(grid, rule, g, filled(grid, rule, g, v, (d - 1) as nat), d - 1)
    }
}

/// One slab per block, each as long as the grid says.
pub open spec fn slabs_ok<R: Real, T, const D: usize>(
    grid: &CartesianGrid<R, D>,
    g: int,
    v: Seq<Seq<T>>,
) -> bool {
    &&& v.len() == grid.blocks()
    &&& forall|b: int|
        0 <= b < v.len() ==> (#[trigger] v[b]).len() == volume(ghosted(grid.tile(), g))
}

/// A ghost ring of width `g` can be filled from the blocks' own interiors.
pub open spec fn ring_fits<R: Real, const D: usize>(grid: &CartesianGrid<R, D>, g: int) -> bool {
    &&& slab_fits(grid.tile(), g)
    &&& forall|d: int|
        0 <= d < D ==> g <= (#[trigger] grid.tile()[d]) && grid.tile()[d] < 0x3fff_ffff_ffff_ffff
}

/// The interior cells of one slab along the normal of dimension `d`.
struct SlabLine<'a, T: Scalar, const D: usize> {
    slab: &'a [T],
    extent: [usize; D],
    halo: u32,
    idx: [isize; D],
    d: usize,
    dir: isize,
}

impl<'a, T: Scalar, const D: usize> SlabLine<'a, T, D> {
    spec fn source(&self, j: int) -> Seq<int> {
        isizes(self.idx).update(
            self.d as int,
            inward(self.dir as int, j, self.extent[self.d as int] as int),
        )
    }

    #[verifier::type_invariant]
    spec fn inv(&self) -> bool {
        let ext = usizes(self.extent);
        &&& self.d < D
        &&& self.dir == 1 || self.dir == -1
        &&& in_slab(isizes(self.idx), ext, self.halo as int)
        &&& slab_fits(ext, self.halo as int)
        &&& self.slab@.len() == volume(ghosted(ext, self.halo as int))
        &&& self.extent[self.d as int] <= isize::MAX
    }
}

impl<'a, T: Scalar, const D: usize> NormalLine<T> for SlabLine<'a, T, D> {
    closed spec fn cells(&self) -> Seq<T> {
        Seq::new(
            self.extent[self.d as int] as nat,
            |j: int| self.slab@[slab_at(self.source(j), usizes(self.extent), self.halo as int)],
        )
    }

    fn interior(&self, j: i64) -> (r: T) {
        proof {
            use_type_invariant(self);
        }
        let mut idx = self.idx;
        let d = self.d;
        let at: isize = if self.dir < 0 {
            j as isize
        } else {
            self.extent[d] as isize - 1 - j as isize
        };
        idx[d] = at;
        proof {
            let s = self.source(j as int);
            let ext = usizes(self.extent);
            assert(isizes(idx) =~= s);
            assert(in_slab(s, ext, self.halo as int)) by {
                assert forall|e: int| 0 <= e < ext.len() implies -(self.halo as int)
                    <= #[trigger] s[e] < ext[e] + self.halo as int by {
                    assert(-(self.halo as int) <= isizes(self.idx)[e] < ext[e] + self.halo as int);
                }
            }
        }
        self.slab[linearize(idx, self.extent, self.halo)]
    }
}

/// The strip of `d`-ghosts on one side, in index order: part of it written.
spec fn strip_entry<R: Real, T: Scalar, B: FaceRule<T>, const D: usize>(
    grid: &CartesianGrid<R, D>,
    rule: &B,
    g: int,
    v: Seq<Seq<T>>,
    d: int,
    b: int,
    lo: Seq<int>,
    hi: Seq<int>,
    r: int,
    c: int,
    k: int,
) -> T {
    let idx = slab_index(k, grid.tile(), g);
    if c == b && in_box(idx, lo, hi) && rank(idx, lo, hi) < r {
        swept_entry(grid, rule, g, v, d, b, idx)
    } else {
        v[c][k]
    }
}

/// Coordinates of the ghost strip of dimension `d` on side `dir`.
spec fn in_strip(idx: Seq<int>, n: Seq<int>, g: int, d: int, dir: int) -> bool {
    &&& in_slab(idx, n, g)
    &&& if dir < 0 {
        idx[d] < 0
    } else {
        idx[d] >= n[d]
    }
}

/// The field after one strip of one block was written.
spec fn strip_filled<R: Real, T: Scalar, B: FaceRule<T>, const D: usize>(
    grid: &CartesianGrid<R, D>,
    rule: &B,
    g: int,
    v: Seq<Seq<T>>,
    d: int,
    dir: int,
    b: int,
) -> Seq<Seq<T>> {
    Seq::new(
        v.len(),
        |c: int|
            Seq::new(
                v[c].len(),
                |k: int|
                    {
                        let idx = slab_index(k, grid.tile(), g);
                        if c == b && in_strip(idx, grid.tile(), g, d, dir) {
                            swept_entry(grid, rule, g, v, d, b, idx)
                        } else {
                            v[c][k]
                        }
                    },
            ),
    )
}

/// The neighbor across a face is a block of the grid.
pub proof fn lemma_neighbor_in_range<R: Real, const D: usize>(
    grid: &CartesianGrid<R, D>,
    b: int,
    d: int,
    dir: int,
)
    requires
        grid.valid(),
        0 <= b < grid.blocks(),
        0 <= d < D,
        dir == 1 || dir == -1,
    ensures
        grid.neighbor(b, d, dir) matches Some(nb) ==> 0 <= nb < grid.blocks(),
{
    let t = grid.tiling();
    lemma_volume_positive(t);
    lemma_lin_delin(b, t);
    let c = grid.coords_of(b);
    let n = t[d];
    assert(0 <= c[d] < n);
    let s = c[d] + dir;
    vstd::arithmetic::div_mod::lemma_mod_bound(s, n);
    let w = if 0 <= s < n {
        s
    } else {
        s % n
    };
    let m = c.update(d, w);
    assert(in_ext(m, t)) by {
        assert forall|e: int| 0 <= e < D implies 0 <= #[trigger] m[e] < t[e] by {
            assert(0 <= c[e] < t[e]);
        }
    }
    lemma_lin_bounds(m, t);
}

/// A sweep reads only entries that are interior along its dimension.
proof fn lemma_swept_reads<R: Real, T: Scalar, B: FaceRule<T>, const D: usize>(
    grid: &CartesianGrid<R, D>,
    rule: &B,
    g: int,
    v: Seq<Seq<T>>,
    w: Seq<Seq<T>>,
    d: int,
    b: int,
    idx: Seq<int>,
)
    requires
        grid.valid(),
        0 <= d < D,
        0 <= b < grid.blocks(),
        in_slab(idx, grid.tile(), g),
        !(0 <= idx[d] < grid.tile()[d]),
        0 <= g <= grid.tile()[d],
        forall|c: int, i: Seq<int>|
            #![trigger v[c][slab_at(i, grid.tile(), g)]]
            #![trigger w[c][slab_at(i, grid.tile(), g)]]
            0 <= c < grid.blocks() && in_slab(i, grid.tile(), g) && 0 <= i[d] < grid.tile()[d]
                ==> v[c][slab_at(i, grid.tile(), g)] == w[c][slab_at(i, grid.tile(), g)],
    ensures
        swept_entry(grid, rule, g, v, d, b, idx) == swept_entry(grid, rule, g, w, d, b, idx),
{
    let n = grid.tile();
    let dir = side(idx[d]);
    lemma_neighbor_in_range(grid, b, d, dir);
    let across = idx.update(d, idx[d] - dir * n[d]);
    assert(-g <= idx[d] < n[d] + g);
    assert(in_slab(across, n, g)) by {
        assert forall|e: int| 0 <= e < n.len() implies -g <= #[trigger] across[e] < n[e] + g by {
            assert(-g <= idx[e] < n[e] + g);
        }
    }
    let p = Seq::new(
        n[d] as nat,
        |j: int| v[b][slab_at(idx.update(d, inward(dir, j, n[d])), n, g)],
    );
    let q = Seq::new(
        n[d] as nat,
        |j: int| w[b][slab_at(idx.update(d, inward(dir, j, n[d])), n, g)],
    );
    assert forall|j: int| 0 <= j < n[d] implies #[trigger] p[j] == q[j] by {
        let i = idx.update(d, inward(dir, j, n[d]));
        assert(in_slab(i, n, g)) by {
            assert forall|e: int| 0 <= e < n.len() implies -g <= #[trigger] i[e] < n[e] + g by {
                assert(-g <= idx[e] < n[e] + g);
            }
        }
        assert(v[b][slab_at(i, n, g)] == w[b][slab_at(i, n, g)]);
    }
    assert(p =~= q);
}

/// The field's slabs match the grid on every block.
pub open spec fn field_ok<R: Real, T: Scalar, S: StorageBackend<T>, const D: usize>(
    grid: &CartesianGrid<R, D>,
    state: &State<T, S>,
    f: int,
) -> bool {
    &&& 0 <= f < state.fields().len()
    &&& state.values().len() == grid.blocks()
    &&& forall|b: int|
        0 <= b < grid.blocks() ==> f < (#[trigger] state.values()[b]).fields.len()
            && state.values()[b].fields[f].len() == volume(
            ghosted(grid.tile(), state.fields()[f].halo as int),
        )
}

fn fill_strip<R: Real, T: Scalar, S: StorageBackend<T>, B: FaceRule<T>, const D: usize>(
    grid: &CartesianGrid<R, D>,
    state: &mut State<T, S>,
    handle: FieldHandle<T>,
    rule: &B,
    d: usize,
    dir: isize,
    block: BlockId,
)
    requires
        grid.valid(),
        field_ok(grid, old(state), handle.pos()),
        ring_fits(grid, old(state).fields()[handle.pos()].halo as int),
        old(state).fields()[handle.pos()].halo > 0,
        d < D,
        dir == 1 || dir == -1,
        block.id() < grid.blocks(),
        rule.applies(d as int, grid.tile()[d as int]),
    ensures
        final(state).fields() == old(state).fields(),
        final(state).values() == with_field(
            old(state).values(),
            handle.pos(),
            strip_filled(
                grid,
                rule,
                old(state).fields()[handle.pos()].halo as int,
                field_slabs(old(state).values(), handle.pos()),
                d as int,
                dir as int,
                block.id(),
            ),
        ),
{
    let ghost f = handle.pos();
    let ghost all = state.values();
    let ghost v = field_slabs(all, f);
    let ghost n = grid.tile();
    let width = state.layout().ghost(handle.index());
    let ghost w = width as int;
    let extent = grid.block_cells();
    let g: isize = width as isize;
    let nb = grid.face_neighbor(block, d, dir);
    let ghost b = block.id();
    proof {
        lemma_extent_fits(n, w);
        assert(n[d as int] + 2 * w <= isize::MAX);
    }
    let mut lo = [0isize; D];
    let mut hi = [0isize; D];
    let mut e: usize = 0;
    while e < D
        invariant
            e <= D,
            n == usizes(extent),
            w == width,
            g == width,
            d < D,
            forall|k: int| 0 <= k < D ==> (#[trigger] n[k]) + 2 * w <= isize::MAX,
            forall|k: int|
                0 <= k < e ==> #[trigger] lo[k] == (if k == d && dir >= 0 {
                    n[k]
                } else {
                    -w
                }),
            forall|k: int|
                0 <= k < e ==> #[trigger] hi[k] == (if k == d && dir < 0 {
                    0
                } else {
                    n[k] + w
                }),
        decreases D - e,
    {
        assert(n[e as int] + 2 * w <= isize::MAX);
        assert(n[e as int] == extent[e as int]);
        lo[e] = if e == d && dir >= 0 {
            extent[e] as isize
        } else {
            -g
        };
        hi[e] = if e == d && dir < 0 {
            0
        } else {
            extent[e] as isize + g
        };
        e += 1;
    }
    let ghost l = isizes(lo);
    let ghost h = isizes(hi);
    let mut idx = lo;
    let mut more = true;
    let ghost mut r: int = 0;
    proof {
        assert forall|k: int| 0 <= k < D implies (#[trigger] l[k]) < h[k] by {
            assert(0 < n[k]);
        }
        assert(in_box(isizes(idx), l, h));
        lemma_rank(isizes(idx), l, h);
        crate::geometry::index::lemma_lin_zero(minus(l, l), minus(h, l));
        assert(with_field(all, f, field_slabs(all, f)) =~~= all);
        assert forall|c: int, k: int|
            0 <= c < all.len() && 0 <= k < volume(ghosted(n, w)) implies (
        #[trigger] state.values()[c].fields[f][k]) == strip_entry(
            grid,
            rule,
            w,
            v,
            d as int,
            b,
            l,
            h,
            0,
            c,
            k,
        ) by {
            let j = slab_index(k, n, w);
            lemma_slab_index(k, n, w);
            if in_box(j, l, h) {
                lemma_rank(j, l, h);
            }
        }
    }
    while more
        invariant
            D > 0,
            d < D,
            dir == 1 || dir == -1,
            g == width,
            w == width,
            w > 0,
            b == block.id(),
            f == handle.pos(),
            grid.valid(),
            b < grid.blocks(),
            n == grid.tile(),
            n == usizes(extent),
            ring_fits(grid, w),
            rule.applies(d as int, n[d as int]),
            forall|k: int| 0 <= k < D ==> (#[trigger] n[k]) + 2 * w <= isize::MAX,
            l == isizes(lo),
            h == isizes(hi),
            forall|k: int|
                0 <= k < D ==> #[trigger] l[k] == (if k == d && dir >= 0 {
                    n[k]
                } else {
                    -w
                }),
            forall|k: int|
                0 <= k < D ==> #[trigger] h[k] == (if k == d && dir < 0 {
                    0
                } else {
                    n[k] + w
                }),
            all == old(state).values(),
            v == field_slabs(all, f),
            all.len() == grid.blocks(),
            0 <= f < state.fields().len(),
            state.fields() == old(state).fields(),
            state.fields()[f].halo == width,
            forall|c: int|
                0 <= c < all.len() ==> f < (#[trigger] all[c]).fields.len()
                    && all[c].fields[f].len() == volume(ghosted(n, w)),
            nb is None <==> grid.neighbor(b, d as int, dir as int) is None,
            nb matches Some(x) ==> grid.neighbor(b, d as int, dir as int) == Some(x.id()) && x.id()
                < grid.blocks(),
            state.values() == with_field(all, f, field_slabs(state.values(), f)),
            forall|c: int|
                0 <= c < all.len() ==> (#[trigger] state.values()[c].fields[f]).len() == volume(
                    ghosted(n, w),
                ),
            forall|c: int, k: int|
                0 <= c < all.len() && 0 <= k < volume(ghosted(n, w)) ==> (
                #[trigger] state.values()[c].fields[f][k]) == strip_entry(
                    grid,
                    rule,
                    w,
                    v,
                    d as int,
                    b,
                    l,
                    h,
                    r,
                    c,
                    k,
                ),
            0 <= r <= volume(minus(h, l)),
            more ==> in_box(isizes(idx), l, h) && rank(isizes(idx), l, h) == r,
            !more ==> r == volume(minus(h, l)),
        decreases volume(minus(h, l)) - r,
    {
        let ghost i = isizes(idx);
        let ghost before = state.values();
        proof {
            lemma_rank(i, l, h);
            assert(l[d as int] <= i[d as int] < h[d as int]);
            assert(in_slab(i, n, w)) by {
                assert forall|k: int| 0 <= k < n.len() implies -w <= #[trigger] i[k] < n[k] + w by {
                    assert(l[k] <= i[k] < h[k]);
                    assert(0 < n[k]);
                }
            }
            assert(side(i[d as int]) == dir);
            assert(n[d as int] + 2 * w <= isize::MAX);
            assert(w <= n[d as int]);
            assert(n[d as int] == extent[d as int]);
            lemma_slab_at(i, n, w);
        }
        let value = match nb {
            Some(other) => {
                let mut sidx = idx;
                sidx[d] = if dir < 0 {
                    extent[d] as isize + idx[d]
                } else {
                    idx[d] - extent[d] as isize
                };
                let ghost src = isizes(sidx);
                proof {
                    let x = n[d as int];
                    assert(dir * x == (if dir < 0 {
                        -x
                    } else {
                        x
                    })) by (nonlinear_arith)
                        requires
                            dir == 1 || dir == -1,
                    ;
                    assert(src =~= i.update(d as int, i[d as int] - dir * n[d as int]));
                    assert(in_slab(src, n, w)) by {
                        assert forall|k: int| 0 <= k < n.len() implies -w <= #[trigger] src[k]
                            < n[k] + w by {
                            assert(-w <= i[k] < n[k] + w);
                        }
                    }
                    lemma_slab_at(src, n, w);
                    assert(!in_box(src, l, h)) by {
                        if in_box(src, l, h) {
                            assert(l[d as int] <= src[d as int] < h[d as int]);
                        }
                    }
                }
                let at = linearize(sidx, extent, width);
                assert(state.values()[other.id()].fields[f][at as int] == v[other.id()][at as int]);
                state.slab(other, handle)[at]
            },
            None => {
                let slab = state.slab(block, handle);
                let k: i64 = if dir < 0 {
                    (-1 - idx[d]) as i64
                } else {
                    (idx[d] - extent[d] as isize) as i64
                };
                let line = SlabLine { slab, extent, halo: width, idx, d, dir };
                proof {
                    let want = Seq::new(
                        n[d as int] as nat,
                        |j: int|
                            v[b][slab_at(
                                i.update(d as int, inward(dir as int, j, n[d as int])),
                                n,
                                w,
                            )],
                    );
                    assert forall|j: int| 0 <= j < n[d as int] implies #[trigger] line.cells()[j]
                        == want[j] by {
                        let src = line.source(j);
                        assert(src =~= i.update(d as int, inward(dir as int, j, n[d as int])));
                        assert(in_slab(src, n, w)) by {
                            assert forall|k: int| 0 <= k < n.len() implies -w <= #[trigger] src[k]
                                < n[k] + w by {
                                assert(-w <= i[k] < n[k] + w);
                            }
                        }
                        lemma_slab_at(src, n, w);
                        assert(!in_box(src, l, h)) by {
                            if in_box(src, l, h) {
                                assert(l[d as int] <= src[d as int] < h[d as int]);
                            }
                        }
                        assert(state.values()[b].fields[f][slab_at(src, n, w)] == v[b][slab_at(
                            src,
                            n,
                            w,
                        )]);
                    }
                    assert(line.cells() =~= want);
                }
                rule.ghost(d, dir, k, &line)
            },
        };
        assert(value == swept_entry(grid, rule, w, v, d as int, b, i));
        let at = linearize(idx, extent, width);
        let slab = state.slab_mut(block, handle);
        slab[at] = value;
        proof {
            let now = state.values();
            let vol = volume(ghosted(n, w));
            assert(now =~~= with_field(all, f, field_slabs(now, f)));
            assert forall|c: int, k: int| 0 <= c < all.len() && 0 <= k < vol implies (
            #[trigger] now[c].fields[f][k]) == strip_entry(
                grid,
                rule,
                w,
                v,
                d as int,
                b,
                l,
                h,
                r + 1,
                c,
                k,
            ) by {
                let j = slab_index(k, n, w);
                lemma_slab_index(k, n, w);
                assert(before[c].fields[f][k] == strip_entry(
                    grid,
                    rule,
                    w,
                    v,
                    d as int,
                    b,
                    l,
                    h,
                    r,
                    c,
                    k,
                ));
                if c == b && k == at {
                    assert(j == i);
                } else if c == b {
                    assert(j != i);
                    if in_box(j, l, h) && rank(j, l, h) == r {
                        lemma_rank(j, l, h);
                        assert(false);
                    }
                }
            }
            r = r + 1;
        }
        more = next_index(&mut idx, &lo, &hi);
    }
    proof {
        let want = strip_filled(grid, rule, w, v, d as int, dir as int, b);
        assert forall|c: int| 0 <= c < all.len() implies #[trigger] field_slabs(state.values(), f)[c]
            == want[c] by {
            let now = state.values()[c].fields[f];
            assert forall|k: int| 0 <= k < volume(ghosted(n, w)) implies #[trigger] now[k]
                == want[c][k] by {
                let j = slab_index(k, n, w);
                lemma_slab_index(k, n, w);
                assert(state.values()[c].fields[f][k] == strip_entry(
                    grid,
                    rule,
                    w,
                    v,
                    d as int,
                    b,
                    l,
                    h,
                    r,
                    c,
                    k,
                ));
                if in_strip(j, n, w, d as int, dir as int) {
                    assert(in_box(j, l, h)) by {
                        assert forall|q: int| 0 <= q < l.len() implies l[q] <= #[trigger] j[q]
                            < h[q] by {
                            assert(-w <= j[q] < n[q] + w);
                        }
                    }
                    lemma_rank(j, l, h);
                } else if in_box(j, l, h) {
                    assert(l[d as int] <= j[d as int] < h[d as int]);
                }
            }
            assert(now =~= want[c]);
        }
        assert(field_slabs(state.values(), f) =~= want);
    }
}

/// The blocks before `b` have been swept along `d`, and in block `b` the low
/// strip too if `half`.
spec fn sweep_progress<R: Real, T: Scalar, B: FaceRule<T>, const D: usize>(
    grid: &CartesianGrid<R, D>,
    rule: &B,
    g: int,
    v: Seq<Seq<T>>,
    d: int,
    b: int,
    half: bool,
) -> Seq<Seq<T>> {
    let done = swept(grid, rule, g, v, d);
    Seq::new(
        v.len(),
        |c: int|
            Seq::new(
                v[c].len(),
                |k: int|
                    if c < b || (c == b && half && slab_index(k, grid.tile(), g)[d] < 0) {
                        done[c][k]
                    } else {
                        v[c][k]
                    },
            ),
    )
}

/// Writing the low strip, then the high strip, of block `b` advances the sweep.
proof fn lemma_sweep_advances<R: Real, T: Scalar, B: FaceRule<T>, const D: usize>(
    grid: &CartesianGrid<R, D>,
    rule: &B,
    g: int,
    v: Seq<Seq<T>>,
    d: int,
    b: int,
)
    requires
        grid.valid(),
        slabs_ok(grid, g, v),
        ring_fits(grid, g),
        g >= 0,
        0 <= d < D,
        0 <= b < grid.blocks(),
    ensures
        strip_filled(grid, rule, g, sweep_progress(grid, rule, g, v, d, b, false), d, -1, b)
            == sweep_progress(grid, rule, g, v, d, b, true),
        strip_filled(grid, rule, g, sweep_progress(grid, rule, g, v, d, b, true), d, 1, b)
            == sweep_progress(grid, rule, g, v, d, b + 1, false),
{
    let n = grid.tile();
    let done = swept(grid, rule, g, v, d);
    assert(g <= n[d]);
    assert forall|half: bool, c: int, i: Seq<int>|
        0 <= c < grid.blocks() && in_slab(i, n, g) && 0 <= i[d] < n[d] implies
        #[trigger] sweep_progress(grid, rule, g, v, d, b, half)[c][slab_at(i, n, g)]
        == v[c][slab_at(i, n, g)] by {
        lemma_slab_at(i, n, g);
        assert(v[c].len() == volume(ghosted(n, g)));
    }
    let p0 = sweep_progress(grid, rule, g, v, d, b, false);
    let p1 = sweep_progress(grid, rule, g, v, d, b, true);
    let p2 = sweep_progress(grid, rule, g, v, d, b + 1, false);
    let q1 = strip_filled(grid, rule, g, p0, d, -1, b);
    let q2 = strip_filled(grid, rule, g, p1, d, 1, b);
    assert forall|c: int| 0 <= c < v.len() implies #[trigger] q1[c] == p1[c] by {
        assert(v[c].len() == volume(ghosted(n, g)));
        assert forall|k: int| 0 <= k < v[c].len() implies #[trigger] q1[c][k] == p1[c][k] by {
            let i = slab_index(k, n, g);
            lemma_slab_index(k, n, g);
            if c == b && i[d] < 0 {
                lemma_swept_reads(grid, rule, g, p0, v, d, b, i);
            }
        }
        assert(q1[c] =~= p1[c]);
    }
    assert(q1 =~= p1);
    assert forall|c: int| 0 <= c < v.len() implies #[trigger] q2[c] == p2[c] by {
        assert(v[c].len() == volume(ghosted(n, g)));
        assert forall|k: int| 0 <= k < v[c].len() implies #[trigger] q2[c][k] == p2[c][k] by {
            let i = slab_index(k, n, g);
            lemma_slab_index(k, n, g);
            if c == b && i[d] >= n[d] {
                lemma_swept_reads(grid, rule, g, p1, v, d, b, i);
            }
        }
        assert(q2[c] =~= p2[c]);
    }
    assert(q2 =~= p2);
}

proof fn lemma_filled_ok<R: Real, T: Scalar, B: FaceRule<T>, const D: usize>(
    grid: &CartesianGrid<R, D>,
    rule: &B,
    g: int,
    v: Seq<Seq<T>>,
    d: nat,
)
    requires
        slabs_ok(grid, g, v),
    ensures
        slabs_ok(grid, g, filled(grid, rule, g, v, d)),
    decreases d,
{
    if d > 0 {
        lemma_filled_ok(grid, rule, g, v, (d - 1) as nat);
    }
}

/// Without ghosts there is nothing to fill.
proof fn lemma_filled_without_ghosts<R: Real, T: Scalar, B: FaceRule<T>, const D: usize>(
    grid: &CartesianGrid<R, D>,
    rule: &B,
    v: Seq<Seq<T>>,
    d: nat,
)
    requires
        grid.valid(),
        slabs_ok(grid, 0, v),
        d <= D,
    ensures
        filled(grid, rule, 0, v, d) == v,
    decreases d,
{
    if d > 0 {
        lemma_filled_without_ghosts(grid, rule, v, (d - 1) as nat);
        let n = grid.tile();
        let w = swept(grid, rule, 0, v, d - 1);
        assert forall|b: int| 0 <= b < v.len() implies #[trigger] w[b] == v[b] by {
            assert(v[b].len() == volume(ghosted(n, 0)));
            assert forall|k: int| 0 <= k < v[b].len() implies #[trigger] w[b][k] == v[b][k] by {
                lemma_slab_index(k, n, 0);
                let i = slab_index(k, n, 0);
                assert(0 <= i[d - 1] < n[d - 1]);
            }
            assert(w[b] =~= v[b]);
        }
        assert(w =~= v);
    }
}

/// Fill one field's ghost cells under a boundary rule: halo exchange across
/// block faces (wrapping in periodic dimensions), the rule behind the physical
/// faces.
pub fn fill_ghosts_with<R: Real, T: Scalar, S: StorageBackend<T>, B: FaceRule<T>, const D: usize>(
    grid: &CartesianGrid<R, D>,
    state: &mut State<T, S>,
    handle: FieldHandle<T>,
    rule: &B,
)
    requires
        grid.valid(),
        field_ok(grid, old(state), handle.pos()),
        ring_fits(grid, old(state).fields()[handle.pos()].halo as int),
        forall|d: int| 0 <= d < D ==> rule.applies(d, #[trigger] grid.tile()[d]),
    ensures
        final(state).fields() == old(state).fields(),
        final(state).values() == with_field(
            old(state).values(),
            handle.pos(),
            filled(
                grid,
                rule,
                old(state).fields()[handle.pos()].halo as int,
                field_slabs(old(state).values(), handle.pos()),
                D as nat,
            ),
        ),
{
    let ghost f = handle.pos();
    let ghost all = state.values();
    let ghost v = field_slabs(all, f);
    let ghost g = state.fields()[f].halo as int;
    assert(with_field(all, f, v) =~~= all);
    if state.layout().ghost(handle.index()) == 0 {
        proof {
            lemma_filled_without_ghosts(grid, rule, v, D as nat);
        }
        return;
    }
    proof {
        grid.lemma_blocks();
    }
    let blocks = grid.num_blocks();
    let mut d: usize = 0;
    while d < D
        invariant
            d <= D,
            grid.valid(),
            blocks == grid.blocks(),
            blocks <= u32::MAX,
            f == handle.pos(),
            all == old(state).values(),
            v == field_slabs(all, f),
            slabs_ok(grid, g, v),
            g > 0,
            state.fields() == old(state).fields(),
            0 <= f < state.fields().len(),
            g == state.fields()[f].halo,
            ring_fits(grid, g),
            field_ok(grid, state, f),
            forall|e: int| 0 <= e < D ==> rule.applies(e, #[trigger] grid.tile()[e]),
            all.len() == grid.blocks(),
            forall|b: int| 0 <= b < all.len() ==> f < (#[trigger] all[b]).fields.len(),
            state.values() == with_field(all, f, filled(grid, rule, g, v, d as nat)),
        decreases D - d,
    {
        let ghost s = filled(grid, rule, g, v, d as nat);
        proof {
            lemma_filled_ok(grid, rule, g, v, d as nat);
            assert(sweep_progress(grid, rule, g, s, d as int, 0, false) =~~= s);
        }
        let mut b: usize = 0;
        while b < blocks
            invariant
                b <= blocks,
                d < D,
                grid.valid(),
                blocks == grid.blocks(),
                blocks <= u32::MAX,
                f == handle.pos(),
                slabs_ok(grid, g, s),
                g > 0,
                state.fields() == old(state).fields(),
                0 <= f < state.fields().len(),
                g == state.fields()[f].halo,
                ring_fits(grid, g),
                rule.applies(d as int, grid.tile()[d as int]),
                all.len() == grid.blocks(),
                forall|c: int| 0 <= c < all.len() ==> f < (#[trigger] all[c]).fields.len(),
                state.values() == with_field(
                    all,
                    f,
                    sweep_progress(grid, rule, g, s, d as int, b as int, false),
                ),
            decreases blocks - b,
        {
            let block = BlockId(b as u32);
            let ghost p0 = sweep_progress(grid, rule, g, s, d as int, b as int, false);
            let ghost p1 = sweep_progress(grid, rule, g, s, d as int, b as int, true);
            proof {
                lemma_sweep_advances(grid, rule, g, s, d as int, b as int);
                assert(field_slabs(with_field(all, f, p0), f) =~= p0);
                assert(field_slabs(with_field(all, f, p1), f) =~= p1);
                assert forall|x: Seq<Seq<T>>, y: Seq<Seq<T>>|
                    #![trigger with_field(with_field(all, f, x), f, y)]
                    with_field(with_field(all, f, x), f, y) =~~= with_field(all, f, y) by {}
                assert(field_ok(grid, state, f)) by {
                    assert forall|c: int| 0 <= c < grid.blocks() implies f < (
                    #[trigger] state.values()[c]).fields.len() && state.values()[c].fields[f].len()
                        == volume(ghosted(grid.tile(), g)) by {
                        assert(f < all[c].fields.len());
                        assert(s[c].len() == volume(ghosted(grid.tile(), g)));
                    }
                }
            }
            fill_strip(grid, state, handle, rule, d, -1, block);
            proof {
                assert(field_ok(grid, state, f)) by {
                    assert forall|c: int| 0 <= c < grid.blocks() implies f < (
                    #[trigger] state.values()[c]).fields.len() && state.values()[c].fields[f].len()
                        == volume(ghosted(grid.tile(), g)) by {
                        assert(f < all[c].fields.len());
                        assert(s[c].len() == volume(ghosted(grid.tile(), g)));
                    }
                }
            }
            fill_strip(grid, state, handle, rule, d, 1, block);
            b += 1;
        }
        proof {
            assert(sweep_progress(grid, rule, g, s, d as int, blocks as int, false) =~~= swept(
                grid,
                rule,
                g,
                s,
                d as int,
            ));
            lemma_filled_ok(grid, rule, g, v, (d + 1) as nat);
            let t = filled(grid, rule, g, v, (d + 1) as nat);
            assert forall|c: int| 0 <= c < grid.blocks() implies f < (
            #[trigger] state.values()[c]).fields.len() && state.values()[c].fields[f].len()
                == volume(ghosted(grid.tile(), g)) by {
                assert(f < all[c].fields.len());
                assert(t[c].len() == volume(ghosted(grid.tile(), g)));
            }
        }
        d += 1;
    }
}

/// Fill one field's ghost cells: halo exchange across interior block faces —
/// wrapping across the domain in periodic dimensions — and mirror (no-flux) at
/// the remaining physical boundaries.
pub fn fill_ghosts_mirror<R: Real, T: Scalar, S: StorageBackend<T>, const D: usize>(
    grid: &CartesianGrid<R, D>,
    state: &mut State<T, S>,
    handle: FieldHandle<T>,
)
    requires
        grid.valid(),
        field_ok(grid, old(state), handle.pos()),
        ring_fits(grid, old(state).fields()[handle.pos()].halo as int),
    ensures
        final(state).fields() == old(state).fields(),
        final(state).values() == with_field(
            old(state).values(),
            handle.pos(),
            filled(
                grid,
                &MirrorFaces,
                old(state).fields()[handle.pos()].halo as int,
                field_slabs(old(state).values(), handle.pos()),
                D as nat,
            ),
        ),
{
    fill_ghosts_with(grid, state, handle, &MirrorFaces);
}

/// Fill one field's ghost cells with a boundary condition per face: `bc` is
/// asked once for each (dimension, side), side -1 or +1, in order.
pub fn fill_ghosts_bc<
    T: Real,
    S: StorageBackend<T>,
    F: Fn(usize, isize) -> FaceBc<T>,
    const D: usize,
>(grid: &CartesianGrid<T, D>, state: &mut State<T, S>, handle: FieldHandle<T>, bc: F)
    requires
        grid.valid(),
        field_ok(grid, old(state), handle.pos()),
        ring_fits(grid, old(state).fields()[handle.pos()].halo as int),
        forall|d: usize, dir: isize| d < D ==> #[trigger] call_requires(bc, (d, dir)),
        forall|d: usize, dir: isize, x: FaceBc<T>|
            d < D && #[trigger] call_ensures(bc, (d, dir), x) && x is Extrapolate ==> grid.tile()[d as int]
                >= 2,
    ensures
        final(state).fields() == old(state).fields(),
        exists|table: FaceTable<T, D>|
            #![trigger filled(
                grid,
                &table,
                old(state).fields()[handle.pos()].halo as int,
                field_slabs(old(state).values(), handle.pos()),
                D as nat,
            )]
            asked(grid, bc, table) && final(state).values() == with_field(
                old(state).values(),
                handle.pos(),
                filled(
                    grid,
                    &table,
                    old(state).fields()[handle.pos()].halo as int,
                    field_slabs(old(state).values(), handle.pos()),
                    D as nat,
                ),
            ),
{
    let mut low = [FaceBc::<T>::Mirror; D];
    let mut high = [FaceBc::<T>::Mirror; D];
    let mut spacing = [T::zero(); D];
    let h = grid.finest_spacing();
    let mut d: usize = 0;
    while d < D
        invariant
            d <= D,
            grid.valid(),
            forall|e: usize, dir: isize| e < D ==> #[trigger] call_requires(bc, (e, dir)),
            forall|e: int| 0 <= e < D ==> #[trigger] h[e] == grid.step(e),
            forall|e: int|
                0 <= e < d ==> call_ensures(bc, (e as usize, -1isize), #[trigger] low[e]),
            forall|e: int|
                0 <= e < d ==> call_ensures(bc, (e as usize, 1isize), #[trigger] high[e]),
            forall|e: int| 0 <= e < d ==> #[trigger] spacing[e] == grid.step(e),
        decreases D - d,
    {
        low[d] = bc(d, -1);
        high[d] = bc(d, 1);
        spacing[d] = h[d];
        d += 1;
    }
    let table = FaceTable { low, high, spacing };
    proof {
        assert forall|e: int| 0 <= e < D implies FaceRule::<T>::applies(
            &table,
            e,
            #[trigger] grid.tile()[e],
        ) by {
            assert(call_ensures(bc, (e as usize, -1isize), low[e]));
            assert(call_ensures(bc, (e as usize, 1isize), high[e]));
        }
    }
    fill_ghosts_with(grid, state, handle, &table);
    assert(asked(grid, bc, table));
}

/// The table holds the answers of `bc` for every face, and the grid's spacing.
pub open spec fn asked<T: Real, F: Fn(usize, isize) -> FaceBc<T>, const D: usize>(
    grid: &CartesianGrid<T, D>,
    bc: F,
    table: FaceTable<T, D>,
) -> bool {
    &&& forall|d: int|
        0 <= d < D ==> call_ensures(bc, (d as usize, -1isize), #[trigger] table.low[d])
    &&& forall|d: int|
        0 <= d < D ==> call_ensures(bc, (d as usize, 1isize), #[trigger] table.high[d])
    &&& forall|d: int| 0 <= d < D ==> #[trigger] table.spacing[d] == grid.step(d)
}

/// Fill one field's ghost cells, continuing it linearly behind every physical
/// face.
pub fn fill_ghosts_extrapolate<T: Real, S: StorageBackend<T>, const D: usize>(
    grid: &CartesianGrid<T, D>,
    state: &mut State<T, S>,
    handle: FieldHandle<T>,
)
    requires
        grid.valid(),
        field_ok(grid, old(state), handle.pos()),
        ring_fits(grid, old(state).fields()[handle.pos()].halo as int),
        forall|d: int| 0 <= d < D ==> #[trigger] grid.tile()[d] >= 2,
    ensures
        final(state).fields() == old(state).fields(),
        final(state).values() == field_filled(
            grid,
            &extrapolation(grid),
            old(state).fields(),
            old(state).values(),
            handle.pos(),
        ),
{
    let table = FaceTable {
        low: [FaceBc::<T>::Extrapolate; D],
        high: [FaceBc::<T>::Extrapolate; D],
        spacing: grid.finest_spacing(),
    };
    proof {
        lemma_spread(table.low, |d: int| FaceBc::<T>::Extrapolate);
        lemma_spread(table.spacing, |d: int| grid.step(d));
        assert(table == extrapolation(grid));
    }
    fill_ghosts_with(grid, state, handle, &table);
}

/// Extrapolation on every face.
pub open spec fn extrapolation<T: Real, const D: usize>(grid: &CartesianGrid<T, D>) -> FaceTable<
    T,
    D,
> {
    FaceTable {
        low: spread::<FaceBc<T>, D>(|d: int| FaceBc::Extrapolate),
        high: spread::<FaceBc<T>, D>(|d: int| FaceBc::Extrapolate),
        spacing: spread::<T, D>(|d: int| grid.step(d)),
    }
}

/// The contents with the ghosts of one field filled.
pub open spec fn field_filled<R: Real, T: Scalar, B: FaceRule<T>, const D: usize>(
    grid: &CartesianGrid<R, D>,
    rule: &B,
    fields: Seq<FieldSpec>,
    v: Seq<BlockValues<T>>,
    f: int,
) -> Seq<BlockValues<T>> {
    with_field(
        v,
        f,
        filled(grid, rule, fields[f].halo as int, field_slabs(v, f), D as nat),
    )
}

/// A ghost fill keeps the state allocated.
pub proof fn lemma_field_filled<R: Real, T: Scalar, B: FaceRule<T>, const D: usize>(
    grid: &CartesianGrid<R, D>,
    rule: &B,
    fields: Seq<FieldSpec>,
    v: Seq<BlockValues<T>>,
    f: int,
)
    requires
        allocated_on::<T, R, CartesianGrid<R, D>, D>(fields, grid, v),
        0 <= f < fields.len(),
    ensures
        allocated_on::<T, R, CartesianGrid<R, D>, D>(
            fields,
            grid,
            field_filled(grid, rule, fields, v, f),
        ),
{
    let g = fields[f].halo as int;
    let slabs = field_slabs(v, f);
    assert forall|b: int| 0 <= b < slabs.len() implies (#[trigger] slabs[b]).len() == volume(
        ghosted(grid.tile(), g),
    ) by {
        assert(full_block(fields, grid.extent_of(b), v[b]));
    }
    lemma_filled_ok(grid, rule, g, slabs, D as nat);
    let after = filled(grid, rule, g, slabs, D as nat);
    assert forall|b: int| 0 <= b < v.len() implies (#[trigger] after[b]).len()
        == v[b].fields[f].len() by {
        assert(slabs[b].len() == v[b].fields[f].len());
    }
    lemma_replaced_allocated::<T, R, CartesianGrid<R, D>, D>(fields, grid, v, f, after);
}

/// A field of an allocated state can be filled.
pub proof fn lemma_field_ok<R: Real, T: Scalar, S: StorageBackend<T>, const D: usize>(
    grid: &CartesianGrid<R, D>,
    state: &State<T, S>,
    f: int,
)
    requires
        allocated_on::<T, R, CartesianGrid<R, D>, D>(state.fields(), grid, state.values()),
        0 <= f < state.fields().len(),
    ensures
        field_ok(grid, state, f),
{
    assert forall|b: int| 0 <= b < grid.blocks() implies f < (
    #[trigger] state.values()[b]).fields.len() && state.values()[b].fields[f].len() == volume(
        ghosted(grid.tile(), state.fields()[f].halo as int),
    ) by {
        assert(full_block(state.fields(), grid.extent_of(b), state.values()[b]));
        assert(state.values()[b].fields[f].len() == volume(
            ghosted(grid.extent_of(b), state.fields()[f].halo as int),
        ));
    }
}

/// A ghost fill never touches the interior.
pub proof fn filling_keeps_the_interior<R: Real, T: Scalar, B: FaceRule<T>, const D: usize>(
    grid: &CartesianGrid<R, D>,
    rule: &B,
    g: int,
    v: Seq<Seq<T>>,
    d: nat,
    b: int,
    idx: Seq<int>,
)
    requires
        grid.valid(),
        slabs_ok(grid, g, v),
        g >= 0,
        d <= D,
        0 <= b < grid.blocks(),
        in_ext(idx, grid.tile()),
    ensures
        filled(grid, rule, g, v, d)[b][slab_at(idx, grid.tile(), g)] == v[b][slab_at(
            idx,
            grid.tile(),
            g,
        )],
    decreases d,
{
    if d > 0 {
        let n = grid.tile();
        filling_keeps_the_interior(grid, rule, g, v, (d - 1) as nat, b, idx);
        lemma_filled_ok(grid, rule, g, v, (d - 1) as nat);
        crate::geometry::grid::lemma_interior_in_slab(idx, n, g);
        lemma_slab_at(idx, n, g);
        let w = filled(grid, rule, g, v, (d - 1) as nat);
        assert(w[b].len() == volume(ghosted(n, g)));
        assert(0 <= idx[d - 1] < n[d - 1]);
    }
}

/// The global cell along one dimension whose value a no-flux or periodic ghost
/// carries: the cell itself inside the domain, its periodic image, or its
/// mirror image.
pub open spec fn resolved(x: int, cells: int, periodic: bool) -> int {
    if 0 <= x < cells {
        x
    } else if periodic {
        x % cells
    } else {
        crate::geometry::boundary::reflected(x, 0, cells)
    }
}

/// Global cell coordinates, resolved along every dimension, of a block-relative
/// index.
pub open spec fn resolved_cell<R: Real, const D: usize>(
    grid: &CartesianGrid<R, D>,
    b: int,
    idx: Seq<int>,
) -> Seq<int> {
    Seq::new(
        D as nat,
        |d: int|
            resolved(
                grid.coords_of(b)[d] * grid.tile()[d] + idx[d],
                grid.domain()[d],
                grid.wraps(d),
            ),
    )
}

/// The block that owns a global cell.
pub open spec fn owner<R: Real, const D: usize>(grid: &CartesianGrid<R, D>, cell: Seq<int>) -> int {
    lin(Seq::new(D as nat, |d: int| cell[d] / grid.tile()[d]), grid.tiling())
}

/// A global cell's index within the block that owns it.
pub open spec fn local<R: Real, const D: usize>(
    grid: &CartesianGrid<R, D>,
    cell: Seq<int>,
) -> Seq<int> {
    Seq::new(D as nat, |d: int| cell[d] % grid.tile()[d])
}

/// The value of a global cell in a field given block by block.
pub open spec fn cell_value<R: Real, T, const D: usize>(
    grid: &CartesianGrid<R, D>,
    g: int,
    v: Seq<Seq<T>>,
    cell: Seq<int>,
) -> T {
    v[owner(grid, cell)][slab_at(local(grid, cell), grid.tile(), g)]
}

proof fn lemma_home(c: int, x: int, n: int)
    requires
        n > 0,
        0 <= x < n,
    ensures
        (c * n + x) / n == c,
        (c * n + x) % n == x,
{
    vstd::arithmetic::div_mod::lemma_fundamental_div_mod_converse(c * n + x, n, c, x);
}

/// Stepping across one face of a block, or mirroring at the end of the domain,
/// keeps the resolved cell.
proof fn lemma_step_resolves(c: int, t: int, x: int, n: int, periodic: bool)
    requires
        0 <= c < t,
        n > 0,
        -n <= x < 2 * n,
        !(0 <= x < n),
    ensures
        ({
            let dir = side(x);
            let s = c + dir;
            let cells = t * n;
            &&& 0 <= s < t ==> resolved(s * n + (x - dir * n), cells, periodic) == resolved(
                c * n + x,
                cells,
                periodic,
            )
            &&& !(0 <= s < t) && periodic ==> resolved(
                (s % t) * n + (x - dir * n),
                cells,
                periodic,
            ) == resolved(c * n + x, cells, periodic)
            &&& !(0 <= s < t) && !periodic ==> resolved(
                c * n + inward(dir, layer(x, n), n),
                cells,
                periodic,
            ) == resolved(c * n + x, cells, periodic)
        }),
{
    let dir = side(x);
    let s = c + dir;
    let cells = t * n;
    assert((c + 1) * n + (x - n) == c * n + x) by (nonlinear_arith);
    assert((c - 1) * n + (x + n) == c * n + x) by (nonlinear_arith);
    assert(cells >= n) by (nonlinear_arith)
        requires
            cells == t * n,
            t >= 1,
            n > 0,
    ;
    assert(dir * n == (if x < 0 {
        -n
    } else {
        n
    })) by (nonlinear_arith)
        requires
            dir == (if x < 0 {
                -1int
            } else {
                1int
            }),
    ;
    if !(0 <= s < t) {
        if x < 0 {
            assert(c == 0);
            assert(0 * n == 0);
            vstd::arithmetic::div_mod::lemma_fundamental_div_mod_converse(-1, t, -1, t - 1);
            assert((t - 1) * n == cells - n) by (nonlinear_arith)
                requires
                    cells == t * n,
            ;
            vstd::arithmetic::div_mod::lemma_fundamental_div_mod_converse(x, cells, -1, cells + x);
        } else {
            assert(c == t - 1);
            assert((t - 1) * n == cells - n) by (nonlinear_arith)
                requires
                    cells == t * n,
            ;
            vstd::arithmetic::div_mod::lemma_mod_self_0(t);
            assert(0 * n == 0);
            vstd::arithmetic::div_mod::lemma_fundamental_div_mod_converse(
                c * n + x,
                cells,
                1,
                x - n,
            );
        }
    }
}

proof fn lemma_mirror_sweeps<R: Real, T: Scalar, const D: usize>(
    grid: &CartesianGrid<R, D>,
    g: int,
    v: Seq<Seq<T>>,
    d: nat,
    b: int,
    idx: Seq<int>,
)
    requires
        grid.valid(),
        slabs_ok(grid, g, v),
        g >= 0,
        d <= D,
        forall|e: int| 0 <= e < D ==> g <= #[trigger] grid.tile()[e],
        0 <= b < grid.blocks(),
        in_slab(idx, grid.tile(), g),
        forall|e: int| d <= e < D ==> 0 <= #[trigger] idx[e] < grid.tile()[e],
    ensures
        filled(grid, &MirrorFaces, g, v, d)[b][slab_at(idx, grid.tile(), g)] == cell_value(
            grid,
            g,
            v,
            resolved_cell(grid, b, idx),
        ),
    decreases d,
{
    let n = grid.tile();
    let t = grid.tiling();
    let c = grid.coords_of(b);
    lemma_volume_positive(t);
    lemma_lin_delin(b, t);
    lemma_slab_at(idx, n, g);
    if d == 0 {
        let cell = resolved_cell(grid, b, idx);
        assert forall|e: int| 0 <= e < D implies #[trigger] cell[e] == c[e] * n[e] + idx[e]
            && cell[e] / n[e] == c[e] && cell[e] % n[e] == idx[e] by {
            assert(0 <= idx[e] < n[e]);
            assert(0 <= c[e] < t[e]);
            lemma_home(c[e], idx[e], n[e]);
            assert(grid.domain()[e] == t[e] * n[e]);
            let a = c[e];
            let m = t[e];
            let q = n[e];
            assert(0 <= a * q && (a + 1) * q <= m * q && (a + 1) * q == a * q + q)
                by (nonlinear_arith)
                requires
                    0 <= a < m,
                    q > 0,
            ;
        }
        assert(Seq::new(D as nat, |e: int| cell[e] / n[e]) =~= c);
        assert(local(grid, cell) =~= idx);
    } else {
        let e = d - 1;
        let w = filled(grid, &MirrorFaces, g, v, e as nat);
        lemma_filled_ok(grid, &MirrorFaces, g, v, e as nat);
        assert(w[b].len() == volume(ghosted(n, g)));
        assert(g <= n[e]);
        assert(-g <= idx[e] < n[e] + g);
        assert(0 <= c[e] < t[e]);
        if 0 <= idx[e] < n[e] {
            lemma_mirror_sweeps(grid, g, v, e as nat, b, idx);
        } else {
            let dir = side(idx[e]);
            assert(grid.domain()[e] == t[e] * n[e]);
            lemma_step_resolves(c[e], t[e], idx[e], n[e], grid.wraps(e));
            lemma_neighbor_in_range(grid, b, e, dir);
            let q = n[e];
            assert(dir * q == (if dir < 0 {
                -q
            } else {
                q
            })) by (nonlinear_arith)
                requires
                    dir == 1 || dir == -1,
            ;
            match grid.neighbor(b, e, dir) {
                Some(nb) => {
                    let src = idx.update(e, idx[e] - dir * n[e]);
                    assert(in_slab(src, n, g)) by {
                        assert forall|k: int| 0 <= k < n.len() implies -g <= #[trigger] src[k]
                            < n[k] + g by {
                            assert(-g <= idx[k] < n[k] + g);
                        }
                    }
                    lemma_mirror_sweeps(grid, g, v, e as nat, nb, src);
                    let s = c[e] + dir;
                    let m = c.update(
                        e,
                        if 0 <= s < t[e] {
                            s
                        } else {
                            s % t[e]
                        },
                    );
                    vstd::arithmetic::div_mod::lemma_mod_bound(s, t[e]);
                    assert(in_ext(m, t)) by {
                        assert forall|k: int| 0 <= k < D implies 0 <= #[trigger] m[k] < t[k] by {
                            assert(0 <= c[k] < t[k]);
                        }
                    }
                    crate::geometry::index::lemma_delin_lin(m, t);
                    assert(grid.coords_of(nb) == m);
                    assert(resolved_cell(grid, nb, src) =~= resolved_cell(grid, b, idx));
                },
                None => {
                    let k0 = layer(idx[e], n[e]);
                    let src = idx.update(e, inward(dir, k0, n[e]));
                    assert(in_slab(src, n, g)) by {
                        assert forall|k: int| 0 <= k < n.len() implies -g <= #[trigger] src[k]
                            < n[k] + g by {
                            assert(-g <= idx[k] < n[k] + g);
                        }
                    }
                    lemma_mirror_sweeps(grid, g, v, e as nat, b, src);
                    assert(resolved_cell(grid, b, src) =~= resolved_cell(grid, b, idx));
                },
            }
        }
    }
}

/// Every entry of a mirror-filled field — interior, face, edge and corner
/// ghosts alike — carries the value of one interior cell: the entry's own
/// global cell, wrapped in periodic dimensions and mirrored at the physical
/// boundaries, dimension by dimension.
pub proof fn mirror_fill_is_a_global_lookup<R: Real, T: Scalar, const D: usize>(
    grid: &CartesianGrid<R, D>,
    g: int,
    v: Seq<Seq<T>>,
    b: int,
    idx: Seq<int>,
)
    requires
        grid.valid(),
        slabs_ok(grid, g, v),
        g >= 0,
        forall|e: int| 0 <= e < D ==> g <= #[trigger] grid.tile()[e],
        0 <= b < grid.blocks(),
        in_slab(idx, grid.tile(), g),
    ensures
        filled(grid, &MirrorFaces, g, v, D as nat)[b][slab_at(idx, grid.tile(), g)] == cell_value(
            grid,
            g,
            v,
            resolved_cell(grid, b, idx),
        ),
{
    lemma_mirror_sweeps(grid, g, v, D as nat, b, idx);
}

/// A face ghost, off the interior along one dimension only, is the neighbor's interior
/// cell across the face, or where there is no neighbor the boundary rule of the face,
/// from the block's own interior cells inward from it. All of them are those before the
/// fill.
pub proof fn face_ghosts_obey_their_face<R: Real, T: Scalar, B: FaceRule<T>, const D: usize>(
    grid: &CartesianGrid<R, D>,
    rule: &B,
    g: int,
    v: Seq<Seq<T>>,
    n: nat,
    b: int,
    d: int,
    idx: Seq<int>,
)
    requires
        grid.valid(),
        slabs_ok(grid, g, v),
        g >= 0,
        0 <= d < n <= D,
        g <= grid.tile()[d],
        0 <= b < grid.blocks(),
        in_slab(idx, grid.tile(), g),
        !(0 <= idx[d] < grid.tile()[d]),
        forall|e: int| 0 <= e < D && e != d ==> 0 <= #[trigger] idx[e] < grid.tile()[e],
    ensures
        ({
            let t = grid.tile();
            let dir = side(idx[d]);
            filled(grid, rule, g, v, n)[b][slab_at(idx, t, g)] == match grid.neighbor(b, d, dir) {
                Some(nb) => v[nb][slab_at(idx.update(d, idx[d] - dir * t[d]), t, g)],
                None => rule.value(
                    d,
                    dir,
                    layer(idx[d], t[d]),
                    Seq::new(
                        t[d] as nat,
                        |j: int| v[b][slab_at(idx.update(d, inward(dir, j, t[d])), t, g)],
                    ),
                ),
            }
        }),
    decreases n,
{
    let t = grid.tile();
    let m = (n - 1) as nat;
    let w = filled(grid, rule, g, v, m);
    lemma_filled_ok(grid, rule, g, v, m);
    lemma_slab_at(idx, t, g);
    assert(w[b].len() == volume(ghosted(t, g)));
    assert(filled(grid, rule, g, v, n)[b][slab_at(idx, t, g)] == swept_entry(
        grid,
        rule,
        g,
        w,
        m as int,
        b,
        idx,
    ));
    if m == d {
        let dir = side(idx[d]);
        lemma_neighbor_in_range(grid, b, d, dir);
        let across = idx.update(d, idx[d] - dir * t[d]);
        assert(in_ext(across, t)) by {
            assert forall|e: int| 0 <= e < t.len() implies 0 <= #[trigger] across[e] < t[e] by {
                if e != d {
                    assert(0 <= idx[e] < t[e]);
                } else {
                    assert(-g <= idx[d] < t[d] + g);
                    assert(dir * t[d] == t[d] || dir * t[d] == -t[d]) by (nonlinear_arith)
                        requires
                            dir == 1 || dir == -1,
                    ;
                    if idx[d] < 0 {
                        assert(dir == -1);
                        assert((-1) * t[d] == -t[d]);
                    } else {
                        assert(dir == 1);
                        assert(1 * t[d] == t[d]);
                    }
                }
            }
        }
        if let Some(nb) = grid.neighbor(b, d, dir) {
            filling_keeps_the_interior(grid, rule, g, v, m, nb, across);
        } else {
            let line = Seq::new(
                t[d] as nat,
                |j: int| v[b][slab_at(idx.update(d, inward(dir, j, t[d])), t, g)],
            );
            let now = Seq::new(
                t[d] as nat,
                |j: int| w[b][slab_at(idx.update(d, inward(dir, j, t[d])), t, g)],
            );
            assert forall|j: int| 0 <= j < t[d] implies #[trigger] now[j] == line[j] by {
                let at = idx.update(d, inward(dir, j, t[d]));
                assert(in_ext(at, t)) by {
                    assert forall|e: int| 0 <= e < t.len() implies 0 <= #[trigger] at[e] < t[e] by {
                        if e != d {
                            assert(0 <= idx[e] < t[e]);
                        }
                    }
                }
                filling_keeps_the_interior(grid, rule, g, v, m, b, at);
            }
            assert(now =~= line);
        }
    } else {
        face_ghosts_obey_their_face(grid, rule, g, v, m, b, d, idx);
        assert(0 <= idx[m as int] < t[m as int]);
    }
}

} // verus!
