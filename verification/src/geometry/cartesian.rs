//! Uniform block-structured Cartesian grid, generic over dimension.
//!
//! The global domain of `cells[d]` interior cells per dimension is tiled by
//! equal blocks of `block_cells[d]` cells. Every field slab for a block is
//! stored dense, dimension-0-fastest, with a ghost ring of the field's
//! declared width.

use vstd::prelude::*;

use crate::engine::exact::{exact, order_exact};
use crate::engine::storage::Real;
use crate::geometry::error::GridError;
use crate::geometry::grid::{BlockId, Grid};
use crate::geometry::index::{
    delin, in_ext, isizes, lemma_delin_lin, lemma_lin_bounds, lemma_lin_delin,
    lemma_lin_prefix_bounds, lemma_lin_step, lemma_take_zero, lemma_volume_positive,
    lemma_volume_prefix, lin, positive, usizes, volume,
};

verus! {

/// Uniform Cartesian grid of `cells` interior cells tiled by congruent blocks.
#[derive(Debug)]
pub struct CartesianGrid<R: Real, const D: usize> {
    cells: [usize; D],
    block_cells: [usize; D],
    blocks_per_dim: [usize; D],
    origin: [R; D],
    spacing: [R; D],
    periodic: [bool; D],
}

impl<R: Real, const D: usize> Clone for CartesianGrid<R, D> {
    fn clone(&self) -> (r: Self)
        ensures
            r == *self,
    {
        CartesianGrid {
            cells: self.cells,
            block_cells: self.block_cells,
            blocks_per_dim: self.blocks_per_dim,
            origin: self.origin,
            spacing: self.spacing,
            periodic: self.periodic,
        }
    }
}

/// What is wrong with dimension `d` of a requested grid, if anything.
pub open spec fn dimension_error<R: Real, const D: usize>(
    cells: [usize; D],
    block_cells: [usize; D],
    spacing: [R; D],
    d: int,
) -> Option<GridError<R>> {
    if cells[d] == 0 || block_cells[d] == 0 {
        Some(GridError::EmptyDimension(d as usize))
    } else if cells[d] % block_cells[d] != 0 {
        Some(
            GridError::IndivisibleDimension {
                dimension: d as usize,
                cells: cells[d],
                block_cells: block_cells[d],
            },
        )
    } else if spacing[d].le_spec(R::zero_spec()) || !spacing[d].is_finite_spec() {
        Some(GridError::InvalidSpacing { dimension: d as usize, spacing: spacing[d] })
    } else {
        None
    }
}

/// Sign of a direction.
pub open spec fn sign(dir: int) -> int {
    if dir > 0 {
        1
    } else if dir < 0 {
        -1
    } else {
        0
    }
}

impl<R: Real, const D: usize> CartesianGrid<R, D> {
    /// Interior cells per dimension over the whole domain.
    pub closed spec fn domain(&self) -> Seq<int> {
        usizes(self.cells)
    }

    /// Interior cells per dimension of one block.
    pub closed spec fn tile(&self) -> Seq<int> {
        usizes(self.block_cells)
    }

    /// Number of blocks per dimension.
    pub closed spec fn tiling(&self) -> Seq<int> {
        usizes(self.blocks_per_dim)
    }

    /// Dimension `d` wraps around.
    pub closed spec fn wraps(&self, d: int) -> bool {
        self.periodic[d]
    }

    /// Coordinate `d` of the domain's lower corner.
    pub closed spec fn corner(&self, d: int) -> R {
        self.origin[d]
    }

    /// Cell spacing along `d`.
    pub closed spec fn step(&self, d: int) -> R {
        self.spacing[d]
    }

    /// The domain is tiled exactly by nonempty blocks.
    pub open spec fn tiled(&self) -> bool {
        &&& self.domain().len() == D
        &&& self.tile().len() == D
        &&& self.tiling().len() == D
        &&& positive(self.tile())
        &&& positive(self.tiling())
        &&& forall|d: int|
            0 <= d < D ==> #[trigger] self.domain()[d] == self.tiling()[d] * self.tile()[d]
        &&& forall|d: int| 0 <= d < D ==> #[trigger] self.domain()[d] <= usize::MAX
    }

    /// Multi-index of a block, dimension 0 fastest.
    pub open spec fn coords_of(&self, b: int) -> Seq<int> {
        delin(b, self.tiling())
    }

    /// Neighbor of block `b` across the face `(dim, dir)`: nothing at a
    /// non-periodic domain boundary, the wrapped block in a periodic dimension.
    pub open spec fn neighbor(&self, b: int, dim: int, dir: int) -> Option<int> {
        let c = self.coords_of(b);
        let n = self.tiling()[dim];
        let s = c[dim] + sign(dir);
        if 0 <= s < n {
            Some(lin(c.update(dim, s), self.tiling()))
        } else if self.wraps(dim) {
            Some(lin(c.update(dim, s % n), self.tiling()))
        } else {
            None
        }
    }

    /// A domain of `cells` interior cells tiled by `block_cells`-sized blocks.
    ///
    /// Fails with the first dimension that is empty, is not divisible, or has
    /// a spacing that is not a positive finite number.
    pub fn new(
        cells: [usize; D],
        block_cells: [usize; D],
        origin: [R; D],
        spacing: [R; D],
    ) -> (r: Result<Self, GridError<R>>)
        ensures
            r is Ok <==> forall|d: int|
                0 <= d < D ==> #[trigger] dimension_error(cells, block_cells, spacing, d) is None,
            r matches Ok(grid) ==> grid.tiled() && grid.domain() == usizes(cells) && grid.tile()
                == usizes(block_cells) && (forall|d: int|
                0 <= d < D ==> #[trigger] grid.corner(d) == origin[d]) && (forall|d: int|
                0 <= d < D ==> #[trigger] grid.step(d) == spacing[d]) && (forall|d: int|
                0 <= d < D ==> !#[trigger] grid.wraps(d)),
            r matches Err(err) ==> exists|d: int|
                0 <= d < D && #[trigger] dimension_error(cells, block_cells, spacing, d) == Some(
                    err,
                ) && forall|e: int|
                    0 <= e < d ==> #[trigger] dimension_error(cells, block_cells, spacing, e) is None,
    {
        let mut blocks_per_dim = [0usize; D];
        let mut d: usize = 0;
        while d < D
            invariant
                d <= D,
                forall|e: int|
                    0 <= e < d ==> #[trigger] dimension_error(cells, block_cells, spacing, e) is None,
                forall|e: int|
                    0 <= e < d ==> (#[trigger] blocks_per_dim[e]) > 0 && blocks_per_dim[e]
                        * block_cells[e] == cells[e],
            decreases D - d,
        {
            let ghost err = dimension_error(cells, block_cells, spacing, d as int);
            if !(cells[d] > 0 && block_cells[d] > 0) {
                assert(err is Some);
                return Err(GridError::EmptyDimension(d));
            }
            if cells[d] % block_cells[d] != 0 {
                assert(err is Some);
                return Err(
                    GridError::IndivisibleDimension {
                        dimension: d,
                        cells: cells[d],
                        block_cells: block_cells[d],
                    },
                );
            }
            if spacing[d].le(R::zero()) || !spacing[d].is_finite() {
                assert(err is Some);
                return Err(GridError::InvalidSpacing { dimension: d, spacing: spacing[d] });
            }
            blocks_per_dim[d] = cells[d] / block_cells[d];
            proof {
                let c = cells[d as int] as int;
                let b = block_cells[d as int] as int;
                vstd::arithmetic::div_mod::lemma_fundamental_div_mod(c, b);
                let q = c / b;
                assert(q * b == c && q > 0) by (nonlinear_arith)
                    requires
                        c == b * q + 0,
                        c > 0,
                        b > 0,
                ;
            }
            d += 1;
        }
        let grid = CartesianGrid {
            cells,
            block_cells,
            blocks_per_dim,
            origin,
            spacing,
            periodic: [false; D],
        };
        proof {
            assert forall|e: int| 0 <= e < D implies 0 < #[trigger] grid.tile()[e] by {
                assert(dimension_error(cells, block_cells, spacing, e) is None);
            }
            assert forall|e: int| 0 <= e < D implies 0 < #[trigger] grid.tiling()[e] by {
                assert(blocks_per_dim[e] > 0);
            }
            assert forall|e: int| 0 <= e < D implies #[trigger] grid.domain()[e]
                == grid.tiling()[e] * grid.tile()[e] by {
                assert(blocks_per_dim[e] > 0);
            }
        }
        Ok(grid)
    }

    /// Mark dimensions as periodic: the domain wraps, so the last block's high
    /// face neighbors the first block's low face.
    ///
    /// Periodicity is topology, not physics: [`Self::face_neighbor`] wraps in
    /// periodic dimensions, so every ghost fill built on it exchanges halos
    /// across the wrap and applies its physical boundary rule only on the
    /// remaining faces.
    pub fn with_periodic(self, periodic: [bool; D]) -> (r: Self)
        ensures
            r.domain() == self.domain(),
            r.tile() == self.tile(),
            r.tiling() == self.tiling(),
            forall|d: int| 0 <= d < D ==> #[trigger] r.corner(d) == self.corner(d),
            forall|d: int| 0 <= d < D ==> #[trigger] r.step(d) == self.step(d),
            forall|d: int| 0 <= d < D ==> #[trigger] r.wraps(d) == periodic[d],
    {
        CartesianGrid {
            cells: self.cells,
            block_cells: self.block_cells,
            blocks_per_dim: self.blocks_per_dim,
            origin: self.origin,
            spacing: self.spacing,
            periodic,
        }
    }

    /// Which dimensions are periodic.
    pub fn periodic(&self) -> (r: [bool; D])
        ensures
            forall|d: int| 0 <= d < D ==> #[trigger] r[d] == self.wraps(d),
    {
        self.periodic
    }

    /// Whole domain as one block.
    pub fn single_block(cells: [usize; D], origin: [R; D], spacing: [R; D]) -> (r: Result<
        Self,
        GridError<R>,
    >)
        ensures
            r is Ok <==> forall|d: int|
                0 <= d < D ==> #[trigger] dimension_error(cells, cells, spacing, d) is None,
            r matches Ok(grid) ==> grid.tiled() && grid.domain() == usizes(cells) && grid.tile()
                == usizes(cells) && (forall|d: int|
                0 <= d < D ==> #[trigger] grid.corner(d) == origin[d]) && (forall|d: int|
                0 <= d < D ==> #[trigger] grid.step(d) == spacing[d]) && (forall|d: int|
                0 <= d < D ==> !#[trigger] grid.wraps(d)),
            r matches Err(err) ==> exists|d: int|
                0 <= d < D && #[trigger] dimension_error(cells, cells, spacing, d) == Some(err)
                    && forall|e: int|
                    0 <= e < d ==> #[trigger] dimension_error(cells, cells, spacing, e) is None,
    {
        Self::new(cells, cells, origin, spacing)
    }

    /// Interior cells per dimension over the whole domain.
    pub fn cells(&self) -> (r: [usize; D])
        ensures
            usizes(r) == self.domain(),
    {
        self.cells
    }

    /// Physical coordinate of the domain's lower corner.
    pub fn origin(&self) -> (r: [R; D])
        ensures
            forall|d: int| 0 <= d < D ==> #[trigger] r[d] == self.corner(d),
    {
        self.origin
    }

    /// Interior cells per dimension of one block.
    pub fn block_cells(&self) -> (r: [usize; D])
        ensures
            usizes(r) == self.tile(),
    {
        self.block_cells
    }

    /// Number of blocks per dimension.
    pub fn blocks_per_dim(&self) -> (r: [usize; D])
        ensures
            usizes(r) == self.tiling(),
    {
        self.blocks_per_dim
    }

    /// Multi-index of a block, dimension 0 fastest.
    pub fn block_coords(&self, block: BlockId) -> (r: [usize; D])
        requires
            self.tiled(),
            block.id() < volume(self.tiling()),
        ensures
            usizes(r) == self.coords_of(block.id()),
            in_ext(self.coords_of(block.id()), self.tiling()),
    {
        let ghost t = self.tiling();
        let ghost c = self.coords_of(block.id());
        let mut rem: usize = block.index();
        let mut out = [0usize; D];
        let mut d: usize = 0;
        proof {
            lemma_lin_delin(block.id(), t);
            assert(t.skip(0) =~= t);
            assert(c.skip(0) =~= c);
        }
        while d < D
            invariant
                d <= D,
                t == self.tiling(),
                positive(t),
                c.len() == D,
                t.len() == D,
                delin(rem as int, t.skip(d as int)) == c.skip(d as int),
                forall|e: int| 0 <= e < d ==> #[trigger] out[e] == c[e],
            decreases D - d,
        {
            assert(t[d as int] > 0);
            let ghost rem0 = rem as int;
            out[d] = rem % self.blocks_per_dim[d];
            rem = rem / self.blocks_per_dim[d];
            proof {
                let n = t[d as int];
                assert(t.skip(d as int)[0] == n);
                assert(t.skip(d as int).drop_first() =~= t.skip(d + 1));
                assert(c.skip(d as int)[0] == c[d as int]);
                assert(c.skip(d as int).drop_first() =~= c.skip(d + 1));
                let tail = delin(rem0 / n, t.skip(d + 1));
                assert(delin(rem0, t.skip(d as int)) == seq![rem0 % n] + tail);
                assert((seq![rem0 % n] + tail).drop_first() =~= tail);
            }
            d += 1;
        }
        assert(usizes(out) =~= c);
        out
    }

    /// Neighbor block across face `(dim, +1/-1)`: `None` at a non-periodic
    /// domain boundary, the wrapped block in a periodic dimension (which is
    /// `block` itself when one block spans it).
    pub fn face_neighbor(&self, block: BlockId, dim: usize, dir: isize) -> (r: Option<BlockId>)
        requires
            self.valid(),
            block.id() < self.blocks(),
            dim < D,
        ensures
            r is None <==> self.neighbor(block.id(), dim as int, dir as int) is None,
            r matches Some(nb) ==> self.neighbor(block.id(), dim as int, dir as int) == Some(
                nb.id(),
            ) && nb.id() < self.blocks(),
    {
        let ghost t = self.tiling();
        let ghost c = self.coords_of(block.id());
        proof {
            lemma_volume_positive(self.tiling());
        }
        let coords = self.block_coords(block);
        let here: usize = coords[dim];
        let n: usize = self.blocks_per_dim[dim];
        assert(0 <= c[dim as int] < t[dim as int]);
        let next: usize = if dir > 0 {
            if here + 1 < n {
                here + 1
            } else if self.periodic[dim] {
                assert((c[dim as int] + 1) % t[dim as int] == 0) by {
                    vstd::arithmetic::div_mod::lemma_mod_self_0(t[dim as int]);
                }
                0
            } else {
                return None;
            }
        } else if dir < 0 {
            if here > 0 {
                here - 1
            } else if self.periodic[dim] {
                assert((-1int) % t[dim as int] == t[dim as int] - 1) by {
                    vstd::arithmetic::div_mod::lemma_fundamental_div_mod_converse(
                        -1,
                        t[dim as int],
                        -1,
                        t[dim as int] - 1,
                    );
                }
                n - 1
            } else {
                return None;
            }
        } else {
            here
        };
        let ghost target = c.update(dim as int, next as int);
        proof {
            assert(in_ext(target, t)) by {
                assert forall|e: int| 0 <= e < D implies 0 <= #[trigger] target[e] < t[e] by {
                    assert(0 <= c[e] < t[e]);
                }
            }
            lemma_lin_bounds(target, t);
            lemma_take_zero(target, t);
        }
        let mut id: usize = 0;
        let mut stride: usize = 1;
        let mut d: usize = 0;
        while d < D
            invariant
                d <= D,
                dim < D,
                t == self.tiling(),
                positive(t),
                volume(t) <= u32::MAX,
                volume(t) <= usize::MAX,
                t.len() == D,
                usizes(coords) == c,
                target == c.update(dim as int, next as int),
                in_ext(target, t),
                id == lin(target.take(d as int), t.take(d as int)),
                stride == volume(t.take(d as int)),
            decreases D - d,
        {
            let at: usize = if d == dim {
                next
            } else {
                coords[d]
            };
            proof {
                lemma_lin_step(target, t, d as int);
                lemma_volume_prefix(t, d as int);
                lemma_volume_prefix(t, d + 1);
                lemma_lin_prefix_bounds(target, t, d + 1);
                assert(0 <= target[d as int] < t[d as int]);
                assert(usizes(coords)[d as int] == coords[d as int]);
                assert(at == target[d as int]);
                let s = stride as int;
                let x = t[d as int];
                let y = at as int;
                assert(0 <= s * y <= s * x) by (nonlinear_arith)
                    requires
                        s >= 1,
                        0 <= y < x,
                ;
                assert(at * stride == stride * at) by (nonlinear_arith);
            }
            id = id + at * stride;
            stride = stride * self.blocks_per_dim[d];
            d += 1;
        }
        proof {
            assert(target.take(d as int) =~= target);
            assert(t.take(d as int) =~= t);
        }
        Some(BlockId(id as u32))
    }
}

impl<R: Real, const D: usize> Grid<R, D> for CartesianGrid<R, D> {
    open spec fn valid(&self) -> bool {
        self.tiled() && volume(self.tiling()) <= u32::MAX && volume(self.tiling()) <= usize::MAX
    }

    open spec fn blocks(&self) -> nat {
        volume(self.tiling()) as nat
    }

    open spec fn extent_of(&self, b: int) -> Seq<int> {
        self.tile()
    }

    open spec fn level_of(&self, b: int) -> int {
        0
    }

    open spec fn spacing_of(&self, b: int, d: int) -> R {
        self.step(d)
    }

    open spec fn finest_of(&self, d: int) -> R {
        self.step(d)
    }

    open spec fn center_of(&self, b: int, idx: Seq<int>, d: int) -> R {
        R::from_u64_spec((self.coords_of(b)[d] * self.tile()[d]) as u64).add_spec(
            R::from_i64_spec(idx[d] as i64),
        ).add_spec(R::half_spec()).mul_add_spec(self.step(d), self.corner(d))
    }

    open spec fn center_fits(&self, b: int, idx: Seq<int>) -> bool {
        true
    }

    proof fn lemma_blocks(&self) {
        lemma_volume_positive(self.tiling());
    }

    fn num_blocks(&self) -> (r: usize) {
        let ghost t = self.tiling();
        let mut total: usize = 1;
        let mut d: usize = 0;
        proof {
            lemma_take_zero(t, t);
        }
        while d < D
            invariant
                d <= D,
                t == self.tiling(),
                t.len() == D,
                positive(t),
                volume(t) <= usize::MAX,
                total == volume(t.take(d as int)),
            decreases D - d,
        {
            proof {
                lemma_lin_step(t, t, d as int);
                lemma_volume_prefix(t, d + 1);
            }
            total = total * self.blocks_per_dim[d];
            d += 1;
        }
        assert(t.take(d as int) =~= t);
        total
    }

    fn block_extent(&self, block: BlockId) -> (r: [usize; D]) {
        self.block_cells
    }

    fn level(&self, block: BlockId) -> (r: u8) {
        0
    }

    fn spacing(&self, block: BlockId) -> (r: [R; D]) {
        self.spacing
    }

    fn finest_spacing(&self) -> (r: [R; D]) {
        self.spacing
    }

    fn cell_center(&self, block: BlockId, idx: [isize; D]) -> (r: [R; D]) {
        proof {
            lemma_volume_positive(self.tiling());
        }
        let coords = self.block_coords(block);
        let ghost c = self.coords_of(block.id());
        let mut out = [R::zero(); D];
        let mut d: usize = 0;
        while d < D
            invariant
                d <= D,
                self.valid(),
                block.id() < self.blocks(),
                c == self.coords_of(block.id()),
                usizes(coords) == c,
                in_ext(c, self.tiling()),
                forall|e: int|
                    0 <= e < d ==> #[trigger] out[e] == self.center_of(
                        block.id(),
                        isizes(idx),
                        e,
                    ),
            decreases D - d,
        {
            proof {
                assert(0 <= c[d as int] < self.tiling()[d as int]);
                assert(usizes(coords)[d as int] == coords[d as int]);
                let a = coords[d as int] as int;
                let n = self.tiling()[d as int];
                let b = self.tile()[d as int];
                assert(b > 0);
                assert(self.domain()[d as int] == n * b);
                assert(0 <= a * b <= n * b) by (nonlinear_arith)
                    requires
                        0 <= a < n,
                        b > 0,
                ;
            }
            let global: usize = coords[d] * self.block_cells[d];
            let at = R::from_u64(global as u64).add(R::from_i64(idx[d] as i64)).add(R::half());
            out[d] = at.mul_add(self.spacing[d], self.origin[d]);
            d += 1;
        }
        out
    }
}

/// Face neighbors are mutual: stepping across a face and back returns to the
/// block one started from.
pub proof fn face_neighbors_are_mutual<R: Real, const D: usize>(
    grid: CartesianGrid<R, D>,
    b: int,
    dim: int,
    dir: int,
)
    requires
        grid.tiled(),
        0 <= b < volume(grid.tiling()),
        0 <= dim < D,
        grid.neighbor(b, dim, dir) is Some,
    ensures
        grid.neighbor(grid.neighbor(b, dim, dir)->0, dim, -dir) == Some(b),
{
    let t = grid.tiling();
    let c = grid.coords_of(b);
    lemma_lin_delin(b, t);
    let n = t[dim];
    let s = c[dim] + sign(dir);
    assert(0 <= c[dim] < n);
    let w = if 0 <= s < n {
        s
    } else {
        s % n
    };
    vstd::arithmetic::div_mod::lemma_mod_self_0(n);
    vstd::arithmetic::div_mod::lemma_fundamental_div_mod_converse(-1, n, -1, n - 1);
    assert(0 <= w < n);
    let m = c.update(dim, w);
    assert(in_ext(m, t)) by {
        assert forall|e: int| 0 <= e < D implies 0 <= #[trigger] m[e] < t[e] by {
            assert(0 <= c[e] < t[e]);
        }
    }
    lemma_delin_lin(m, t);
    let back = w - sign(dir);
    assert(m.update(dim, c[dim]) =~= c);
}

/// The neighbor across a face is the block one place on along its dimension and in the
/// same place along every other; past the end of a periodic dimension it is the block at
/// the other end, and past that of any other there is none.
pub proof fn face_neighbors_are_one_place_on<R: Real, const D: usize>(
    grid: CartesianGrid<R, D>,
    b: int,
    dim: int,
    dir: int,
)
    requires
        grid.tiled(),
        0 <= b < volume(grid.tiling()),
        0 <= dim < D,
        dir == 1 || dir == -1,
    ensures
        ({
            let c = grid.coords_of(b);
            let n = grid.tiling()[dim];
            let place = c[dim] + dir;
            match grid.neighbor(b, dim, dir) {
                Some(nb) => {
                    let e = grid.coords_of(nb);
                    &&& 0 <= nb < volume(grid.tiling())
                    &&& forall|d: int| 0 <= d < D && d != dim ==> #[trigger] e[d] == c[d]
                    &&& e[dim] == (if place < 0 {
                        n - 1
                    } else if place >= n {
                        0
                    } else {
                        place
                    })
                },
                None => !(0 <= place < n) && !grid.wraps(dim),
            }
        }),
{
    let t = grid.tiling();
    let c = grid.coords_of(b);
    lemma_lin_delin(b, t);
    let n = t[dim];
    assert(0 <= c[dim] < n);
    let place = c[dim] + dir;
    let w = if 0 <= place < n {
        place
    } else {
        place % n
    };
    assert(w == (if place < 0 {
        n - 1
    } else if place >= n {
        0
    } else {
        place
    })) by {
        if place < 0 {
            vstd::arithmetic::div_mod::lemma_fundamental_div_mod_converse(place, n, -1, n - 1);
        } else if place >= n {
            vstd::arithmetic::div_mod::lemma_fundamental_div_mod_converse(place, n, 1, 0);
        }
    }
    let m = c.update(dim, w);
    assert(in_ext(m, t)) by {
        assert forall|e: int| 0 <= e < t.len() implies 0 <= #[trigger] m[e] < t[e] by {
            assert(0 <= c[e] < t[e]);
        }
    }
    lemma_delin_lin(m, t);
    lemma_lin_bounds(m, t);
}

/// A dimension is accepted exactly where it is filled by some whole number of blocks, at
/// least one, and its cells have a positive, finite width.
pub proof fn accepted_dimensions_are_whole_blocks<R: Real, const D: usize>(
    v: spec_fn(R) -> real,
    cells: [usize; D],
    block_cells: [usize; D],
    spacing: [R; D],
    d: int,
)
    requires
        exact(v),
        order_exact(v),
        0 <= d < D,
    ensures
        dimension_error(cells, block_cells, spacing, d) is None <==> {
            &&& cells[d] > 0
            &&& exists|n: int| #[trigger] (n * block_cells[d]) == cells[d]
            &&& v(spacing[d]) > 0 as real
            &&& spacing[d].is_finite_spec()
        },
{
    let (a, b) = (cells[d] as int, block_cells[d] as int);
    if b > 0 {
        if a % b == 0 {
            vstd::arithmetic::div_mod::lemma_fundamental_div_mod(a, b);
            vstd::arithmetic::mul::lemma_mul_is_commutative(b, a / b);
            assert((a / b) * block_cells[d] == a);
        }
        if exists|n: int| #[trigger] (n * block_cells[d]) == cells[d] {
            let n = choose|n: int| #[trigger] (n * block_cells[d]) == cells[d];
            vstd::arithmetic::div_mod::lemma_fundamental_div_mod_converse(a, b, n, 0);
        }
    }
}

} // verus!
