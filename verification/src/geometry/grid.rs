//! The [`Grid`] trait: topology, blocks, and block views.
//!
//! A grid is a collection of blocks, each a uniform box of cells. Block
//! identity is a flat [`BlockId`]; refinement level and geometry are queried
//! per block, so a uniform grid and an adaptive one present the same surface.
//! Grids own no field data: they translate (block, index) into slab offsets
//! and coordinates.

use vstd::prelude::*;

use crate::engine::storage::{Real, Scalar};
use crate::geometry::view::{CartesianView, CartesianViewMut};
use crate::geometry::index::{
    delin, in_ext, isizes, lemma_delin_len, lemma_delin_lin, lemma_lin_bounds, lemma_lin_delin,
    lemma_lin_injective, lemma_lin_prefix_bounds, lemma_lin_step, lemma_take_zero,
    lemma_volume_positive, lemma_volume_prefix, lin, plus, positive, usizes, volume,
};

verus! {

/// Flat identifier of a block, stable for the lifetime of a grid.
#[derive(Debug, Clone, Copy, PartialEq, Eq, Hash, Structural)]
pub struct BlockId(pub u32);

impl BlockId {
    /// The block id as an integer.
    pub open spec fn id(self) -> int {
        self.0 as int
    }

    /// The block id as a `usize` index.
    pub fn index(self) -> (r: usize)
        ensures
            r == self.id(),
    {
        self.0 as usize
    }
}

/// Extents of a block's slab: the interior plus a ghost ring of width `g` on
/// every face.
pub open spec fn ghosted(ext: Seq<int>, g: int) -> Seq<int> {
    Seq::new(ext.len(), |d: int| ext[d] + 2 * g)
}

/// Interior-relative coordinates, shifted so the first ghost cell is zero.
pub open spec fn shifted(idx: Seq<int>, g: int) -> Seq<int> {
    Seq::new(idx.len(), |d: int| idx[d] + g)
}

/// Interior-relative coordinates that lie in the slab, ghosts included.
pub open spec fn in_slab(idx: Seq<int>, ext: Seq<int>, g: int) -> bool {
    &&& idx.len() == ext.len()
    &&& forall|d: int| 0 <= d < ext.len() ==> -g <= #[trigger] idx[d] < ext[d] + g
}

/// Slab offset of interior-relative coordinates.
pub open spec fn slab_at(idx: Seq<int>, ext: Seq<int>, g: int) -> int {
    lin(shifted(idx, g), ghosted(ext, g))
}

/// Interior-relative coordinates of a slab offset.
pub open spec fn slab_index(offset: int, ext: Seq<int>, g: int) -> Seq<int> {
    shifted(delin(offset, ghosted(ext, g)), -g)
}

/// A slab of these extents can be addressed with machine-word indices.
pub open spec fn slab_fits(ext: Seq<int>, g: int) -> bool {
    volume(ghosted(ext, g)) <= isize::MAX
}

/// Ghost-independent id of the cell at a slab offset: its rank among the
/// interior cells, or `None` for a ghost entry.
pub open spec fn interior_key(ext: Seq<int>, g: int, offset: int) -> Option<int> {
    let idx = slab_index(offset, ext, g);
    if in_ext(idx, ext) {
        Some(lin(idx, ext))
    } else {
        None
    }
}

pub proof fn lemma_slab_at(idx: Seq<int>, ext: Seq<int>, g: int)
    requires
        in_slab(idx, ext, g),
    ensures
        in_ext(shifted(idx, g), ghosted(ext, g)),
        0 <= slab_at(idx, ext, g) < volume(ghosted(ext, g)),
        slab_index(slab_at(idx, ext, g), ext, g) == idx,
{
    let c = shifted(idx, g);
    let e = ghosted(ext, g);
    assert forall|d: int| 0 <= d < e.len() implies 0 <= #[trigger] c[d] < e[d] by {
        assert(-g <= idx[d] < ext[d] + g);
    }
    lemma_lin_bounds(c, e);
    lemma_delin_lin(c, e);
    assert(shifted(c, -g) =~= idx);
}

pub proof fn lemma_ghosted_positive(ext: Seq<int>, g: int)
    requires
        positive(ext),
        g >= 0,
    ensures
        positive(ghosted(ext, g)),
        volume(ghosted(ext, g)) >= 1,
{
    assert forall|d: int| 0 <= d < ext.len() implies 0 < #[trigger] ghosted(ext, g)[d] by {
        assert(ext[d] > 0);
    }
    lemma_volume_positive(ghosted(ext, g));
}

pub proof fn lemma_slab_index(offset: int, ext: Seq<int>, g: int)
    requires
        positive(ext),
        g >= 0,
        0 <= offset < volume(ghosted(ext, g)),
    ensures
        in_slab(slab_index(offset, ext, g), ext, g),
        slab_at(slab_index(offset, ext, g), ext, g) == offset,
{
    let e = ghosted(ext, g);
    lemma_ghosted_positive(ext, g);
    lemma_lin_delin(offset, e);
    let c = delin(offset, e);
    let idx = slab_index(offset, ext, g);
    assert(shifted(idx, g) =~= c);
    assert forall|d: int| 0 <= d < ext.len() implies -g <= #[trigger] idx[d] < ext[d] + g by {
        assert(0 <= c[d] < e[d]);
    }
}

/// Every extent of a slab that fits is itself a machine-word length.
pub proof fn lemma_extent_fits(ext: Seq<int>, g: int)
    requires
        positive(ext),
        g >= 0,
        slab_fits(ext, g),
    ensures
        forall|d: int| 0 <= d < ext.len() ==> (#[trigger] ext[d]) + 2 * g <= isize::MAX,
        volume(ext) <= volume(ghosted(ext, g)),
{
    let e = ghosted(ext, g);
    lemma_ghosted_positive(ext, g);
    assert forall|d: int| 0 <= d < ext.len() implies (#[trigger] ext[d]) + 2 * g <= isize::MAX by {
        lemma_volume_prefix(e, d);
        lemma_volume_prefix(e, d + 1);
        lemma_lin_step(e, e, d);
        let v = volume(e.take(d));
        let x = e[d];
        assert(e[d] > 0);
        assert(x <= v * x) by (nonlinear_arith)
            requires
                v >= 1,
                x >= 1,
        ;
    }
    lemma_volume_monotone(ext, e);
}

/// Larger extents hold more cells.
pub proof fn lemma_volume_monotone(a: Seq<int>, b: Seq<int>)
    requires
        a.len() == b.len(),
        positive(a),
        forall|d: int| 0 <= d < a.len() ==> (#[trigger] a[d]) <= b[d],
    ensures
        volume(a) <= volume(b),
    decreases a.len(),
{
    if a.len() > 0 {
        let ra = a.drop_first();
        let rb = b.drop_first();
        assert forall|d: int| 0 <= d < ra.len() implies 0 < #[trigger] ra[d] by {
            assert(a[d + 1] > 0);
        }
        assert forall|d: int| 0 <= d < ra.len() implies (#[trigger] ra[d]) <= rb[d] by {
            assert(a[d + 1] <= b[d + 1]);
        }
        lemma_volume_monotone(ra, rb);
        lemma_volume_positive(ra);
        assert(a[0] > 0);
        assert(a[0] <= b[0]);
        let x = a[0];
        let y = b[0];
        let u = volume(ra);
        let w = volume(rb);
        assert(x * u <= y * w) by (nonlinear_arith)
            requires
                0 < x <= y,
                1 <= u <= w,
        ;
    }
}

/// Interior coordinates lie in the slab.
pub proof fn lemma_interior_in_slab(idx: Seq<int>, ext: Seq<int>, g: int)
    requires
        in_ext(idx, ext),
        g >= 0,
    ensures
        in_slab(idx, ext, g),
{
    assert forall|d: int| 0 <= d < ext.len() implies -g <= #[trigger] idx[d] < ext[d] + g by {
        assert(0 <= idx[d] < ext[d]);
    }
}

/// The id of an interior cell does not depend on the ghost width of the slab
/// it is read from: it is the cell's rank in the interior.
pub proof fn cell_ids_ignore_ghost_width(idx: Seq<int>, ext: Seq<int>, g: int)
    requires
        in_ext(idx, ext),
        g >= 0,
    ensures
        interior_key(ext, g, slab_at(idx, ext, g)) == Some(lin(idx, ext)),
        0 <= lin(idx, ext) < volume(ext),
{
    lemma_interior_in_slab(idx, ext, g);
    lemma_slab_at(idx, ext, g);
    lemma_lin_bounds(idx, ext);
}

/// Two slab entries with the same id are the same entry.
pub proof fn cell_ids_are_unique(ext: Seq<int>, g: int, a: int, b: int)
    requires
        positive(ext),
        g >= 0,
        0 <= a < volume(ghosted(ext, g)),
        0 <= b < volume(ghosted(ext, g)),
        interior_key(ext, g, a) is Some,
        interior_key(ext, g, a) == interior_key(ext, g, b),
    ensures
        a == b,
{
    lemma_slab_index(a, ext, g);
    lemma_slab_index(b, ext, g);
    lemma_lin_injective(slab_index(a, ext, g), slab_index(b, ext, g), ext);
}

/// Offset of interior-relative indices in a ghost-inclusive slab, dimension 0
/// fastest.
pub fn linearize<const D: usize>(idx: [isize; D], interior: [usize; D], ghost: u32) -> (r: usize)
    requires
        in_slab(isizes(idx), usizes(interior), ghost as int),
        slab_fits(usizes(interior), ghost as int),
    ensures
        r == slab_at(isizes(idx), usizes(interior), ghost as int),
        r < volume(ghosted(usizes(interior), ghost as int)),
{
    let ghost c = shifted(isizes(idx), ghost as int);
    let ghost e = ghosted(usizes(interior), ghost as int);
    let mut offset: usize = 0;
    let mut stride: usize = 1;
    let mut d: usize = 0;
    proof {
        lemma_slab_at(isizes(idx), usizes(interior), ghost as int);
        assert forall|k: int| 0 <= k < e.len() implies 0 < #[trigger] e[k] by {
            assert(0 <= c[k] < e[k]);
        }
        lemma_take_zero(c, e);
    }
    while d < D
        invariant
            d <= D,
            c == shifted(isizes(idx), ghost as int),
            e == ghosted(usizes(interior), ghost as int),
            in_ext(c, e),
            positive(e),
            volume(e) <= isize::MAX,
            offset == lin(c.take(d as int), e.take(d as int)),
            stride == volume(e.take(d as int)),
        decreases D - d,
    {
        proof {
            lemma_lin_step(c, e, d as int);
            lemma_volume_prefix(e, d as int);
            lemma_volume_prefix(e, d + 1);
            lemma_lin_prefix_bounds(c, e, d + 1);
            assert(0 <= c[d as int] < e[d as int]);
            let s = stride as int;
            let x = e[d as int];
            let y = c[d as int];
            assert(x <= s * x && 0 <= s * y <= s * x) by (nonlinear_arith)
                requires
                    s >= 1,
                    0 <= y < x,
            ;
        }
        let size: usize = interior[d] + 2 * (ghost as usize);
        let at: usize = (idx[d] + ghost as isize) as usize;
        assert(at == c[d as int] && size == e[d as int]);
        assert(at * stride == stride * at) by (nonlinear_arith);
        offset = offset + at * stride;
        stride = stride * size;
        d += 1;
    }
    proof {
        assert(c.take(d as int) =~= c);
        assert(e.take(d as int) =~= e);
    }
    offset
}

/// Ghost-independent cell id of a slab offset, or `None` for a ghost entry.
pub fn box_cell_key<const D: usize>(interior: [usize; D], ghost: u32, offset: usize) -> (r: Option<
    u64,
>)
    requires
        positive(usizes(interior)),
        slab_fits(usizes(interior), ghost as int),
        offset < volume(ghosted(usizes(interior), ghost as int)),
    ensures
        r is None <==> interior_key(usizes(interior), ghost as int, offset as int) is None,
        r matches Some(key) ==> interior_key(usizes(interior), ghost as int, offset as int) == Some(
            key as int,
        ),
{
    let ghost ext = usizes(interior);
    let ghost e = ghosted(ext, ghost as int);
    let ghost c = delin(offset as int, e);
    let ghost idx = slab_index(offset as int, ext, ghost as int);
    let g: usize = ghost as usize;
    let mut rem: usize = offset;
    let mut key: usize = 0;
    let mut stride: usize = 1;
    let mut d: usize = 0;
    proof {
        lemma_slab_index(offset as int, ext, g as int);
        lemma_extent_fits(ext, g as int);
        lemma_ghosted_positive(ext, g as int);
        lemma_delin_len(offset as int, e);
        lemma_take_zero(idx, ext);
        assert(e.skip(0) =~= e);
        assert(c.skip(0) =~= c);
    }
    while d < D
        invariant
            d <= D,
            g == ghost,
            ext == usizes(interior),
            e == ghosted(ext, g as int),
            c.len() == D,
            idx == shifted(c, -(g as int)),
            idx == slab_index(offset as int, ext, ghost as int),
            positive(ext),
            positive(e),
            volume(ext) <= isize::MAX,
            forall|k: int| 0 <= k < D ==> (#[trigger] ext[k]) + 2 * g <= isize::MAX,
            delin(rem as int, e.skip(d as int)) == c.skip(d as int),
            forall|k: int| 0 <= k < d ==> 0 <= #[trigger] idx[k] < ext[k],
            key == lin(idx.take(d as int), ext.take(d as int)),
            stride == volume(ext.take(d as int)),
        decreases D - d,
    {
        assert(ext[d as int] + 2 * g <= isize::MAX);
        let size: usize = interior[d] + 2 * g;
        let at: usize = rem % size;
        let ghost rem0 = rem;
        rem = rem / size;
        proof {
            assert(e.skip(d as int)[0] == e[d as int]);
            assert(e.skip(d as int).drop_first() =~= e.skip(d + 1));
            assert(c.skip(d as int)[0] == c[d as int]);
            assert(c.skip(d as int).drop_first() =~= c.skip(d + 1));
            let tail = delin(rem0 as int / e[d as int], e.skip(d + 1));
            assert(delin(rem0 as int, e.skip(d as int)) == seq![rem0 as int % e[d as int]] + tail);
            assert((seq![rem0 as int % e[d as int]] + tail).drop_first() =~= tail);
            assert(at == c[d as int]);
            assert(idx[d as int] == at - g);
        }
        if at < g || at >= interior[d] + g {
            proof {
                if in_ext(idx, ext) {
                    assert(0 <= idx[d as int] < ext[d as int]);
                }
            }
            return None;
        }
        proof {
            lemma_lin_step(idx, ext, d as int);
            lemma_volume_prefix(ext, d as int);
            lemma_volume_prefix(ext, d + 1);
            assert(0 <= idx[d as int] < ext[d as int]);
            let it = idx.take(d + 1);
            let et = ext.take(d + 1);
            assert forall|k: int| 0 <= k < et.len() implies 0 <= #[trigger] it[k] < et[k] by {
                assert(0 <= idx[k] < ext[k]);
            }
            lemma_lin_bounds(it, et);
            let s = stride as int;
            let x = ext[d as int];
            let y = idx[d as int];
            assert(x <= s * x && 0 <= s * y <= s * x) by (nonlinear_arith)
                requires
                    s >= 1,
                    0 <= y < x,
            ;
            assert((at - g) * stride == stride * (at - g)) by (nonlinear_arith);
        }
        key = key + (at - g) * stride;
        stride = stride * interior[d];
        d += 1;
    }
    proof {
        assert(idx.take(d as int) =~= idx);
        assert(ext.take(d as int) =~= ext);
    }
    Some(key as u64)
}

/// Spatial topology and block-structured layout.
pub trait Grid<R: Real, const D: usize>: Send + Sync {
    /// The grid's own invariant, with a block count that fits a [`BlockId`].
    spec fn valid(&self) -> bool;

    /// Number of blocks.
    spec fn blocks(&self) -> nat;

    /// Interior cells per dimension of a block.
    spec fn extent_of(&self, b: int) -> Seq<int>;

    /// Refinement level of a block.
    spec fn level_of(&self, b: int) -> int;

    /// Cell spacing of a block along `d`.
    spec fn spacing_of(&self, b: int, d: int) -> R;

    /// Cell spacing along `d` at the deepest level the grid may hold.
    spec fn finest_of(&self, d: int) -> R;

    /// Coordinate along `d` of the center of a cell.
    spec fn center_of(&self, b: int, idx: Seq<int>, d: int) -> R;

    /// The center of a cell can be computed in machine integers.
    spec fn center_fits(&self, b: int, idx: Seq<int>) -> bool;

    /// Blocks are nonempty boxes and are counted by 32-bit ids.
    proof fn lemma_blocks(&self)
        requires
            self.valid(),
        ensures
            self.blocks() <= u32::MAX,
            self.blocks() <= usize::MAX,
            forall|b: int|
                0 <= b < self.blocks() ==> (#[trigger] self.extent_of(b)).len() == D && positive(
                    self.extent_of(b),
                ),
    ;

    /// Number of blocks tiling the domain.
    fn num_blocks(&self) -> (r: usize)
        requires
            self.valid(),
        ensures
            r == self.blocks(),
    ;

    /// Interior cells per dimension of one block.
    fn block_extent(&self, block: BlockId) -> (r: [usize; D])
        requires
            self.valid(),
            block.id() < self.blocks(),
        ensures
            usizes(r) == self.extent_of(block.id()),
    ;

    /// Number of scalar entries in one block's slab, ghosts included: the
    /// allocation contract between grid and storage.
    fn block_len(&self, block: BlockId, ghost: u32) -> (r: usize)
        requires
            self.valid(),
            block.id() < self.blocks(),
            slab_fits(self.extent_of(block.id()), ghost as int),
        ensures
            r == volume(ghosted(self.extent_of(block.id()), ghost as int)),
    {
        let extent = self.block_extent(block);
        proof {
            self.lemma_blocks();
            assert(positive(self.extent_of(block.id())));
        }
        box_len(extent, ghost)
    }

    /// Refinement level of a block (always 0 on a uniform grid).
    fn level(&self, block: BlockId) -> (r: u8)
        requires
            self.valid(),
            block.id() < self.blocks(),
        ensures
            r == self.level_of(block.id()),
    ;

    /// Cell spacing on this block.
    fn spacing(&self, block: BlockId) -> (r: [R; D])
        requires
            self.valid(),
            block.id() < self.blocks(),
        ensures
            forall|d: int| 0 <= d < D ==> #[trigger] r[d] == self.spacing_of(block.id(), d),
    ;

    /// Cell spacing at the deepest level the grid may hold.
    fn finest_spacing(&self) -> (r: [R; D])
        requires
            self.valid(),
        ensures
            forall|d: int| 0 <= d < D ==> #[trigger] r[d] == self.finest_of(d),
    ;

    /// Physical coordinates of a cell center.
    fn cell_center(&self, block: BlockId, idx: [isize; D]) -> (r: [R; D])
        requires
            self.valid(),
            block.id() < self.blocks(),
            self.center_fits(block.id(), isizes(idx)),
        ensures
            forall|d: int|
                0 <= d < D ==> #[trigger] r[d] == self.center_of(block.id(), isizes(idx), d),
    ;

    /// Ghost-independent id of the cell at a slab offset, `None` for a ghost
    /// entry.
    fn cell_key(&self, block: BlockId, ghost: u32, offset: usize) -> (r: Option<u64>)
        requires
            self.valid(),
            block.id() < self.blocks(),
            slab_fits(self.extent_of(block.id()), ghost as int),
            offset < volume(ghosted(self.extent_of(block.id()), ghost as int)),
        ensures
            r is None <==> interior_key(
                self.extent_of(block.id()),
                ghost as int,
                offset as int,
            ) is None,
            r matches Some(key) ==> interior_key(
                self.extent_of(block.id()),
                ghost as int,
                offset as int,
            ) == Some(key as int),
    {
        let extent = self.block_extent(block);
        proof {
            self.lemma_blocks();
            assert(positive(self.extent_of(block.id())));
        }
        box_cell_key(extent, ghost, offset)
    }

    /// Wrap one block's raw slab in a typed read view.
    fn view<'a, T: Scalar>(
        &'a self,
        block: BlockId,
        ghost: u32,
        data: &'a [T],
    ) -> (r: CartesianView<'a, T, D>)
        requires
            self.valid(),
            block.id() < self.blocks(),
            slab_fits(self.extent_of(block.id()), ghost as int),
            data@.len() == volume(ghosted(self.extent_of(block.id()), ghost as int)),
        ensures
            r.valid(),
            r.data() == data@,
            r.ext() == self.extent_of(block.id()),
            r.width() == ghost,
    {
        let extent = self.block_extent(block);
        proof {
            self.lemma_blocks();
        }
        CartesianView::from_raw(data, extent, ghost)
    }

    /// Wrap one block's raw slab in a typed mutable view.
    fn view_mut<'a, T: Scalar>(
        &'a self,
        block: BlockId,
        ghost: u32,
        data: &'a mut [T],
    ) -> (r: CartesianViewMut<'a, T, D>)
        requires
            self.valid(),
            block.id() < self.blocks(),
            slab_fits(self.extent_of(block.id()), ghost as int),
            old(data)@.len() == volume(ghosted(self.extent_of(block.id()), ghost as int)),
        ensures
            r.valid(),
            r.data@ == old(data)@,
            final(r.data)@ == final(data)@,
            r.ext() == self.extent_of(block.id()),
            r.width() == ghost,
    {
        let extent = self.block_extent(block);
        CartesianViewMut::from_raw_mut(data, extent, ghost)
    }
}

/// Entries in the slab of a box with a ghost ring.
pub fn box_len<const D: usize>(interior: [usize; D], ghost: u32) -> (r: usize)
    requires
        positive(usizes(interior)),
        slab_fits(usizes(interior), ghost as int),
    ensures
        r == volume(ghosted(usizes(interior), ghost as int)),
{
    let ghost ext = usizes(interior);
    let ghost e = ghosted(ext, ghost as int);
    let mut total: usize = 1;
    let mut d: usize = 0;
    proof {
        lemma_extent_fits(ext, ghost as int);
        lemma_ghosted_positive(ext, ghost as int);
        lemma_take_zero(e, e);
    }
    while d < D
        invariant
            d <= D,
            ext == usizes(interior),
            e == ghosted(ext, ghost as int),
            positive(e),
            volume(e) <= isize::MAX,
            forall|k: int| 0 <= k < D ==> (#[trigger] ext[k]) + 2 * ghost <= isize::MAX,
            total == volume(e.take(d as int)),
        decreases D - d,
    {
        proof {
            lemma_lin_step(e, e, d as int);
            lemma_volume_prefix(e, d + 1);
            assert(ext[d as int] + 2 * ghost <= isize::MAX);
        }
        total = total * (interior[d] + 2 * (ghost as usize));
        d += 1;
    }
    assert(e.take(d as int) =~= e);
    total
}

/// The array has these entries.
pub open spec fn has_entries<R, const D: usize>(a: [R; D], f: spec_fn(int) -> R) -> bool {
    forall|d: int| 0 <= d < D ==> #[trigger] a[d] == f(d)
}

/// The array with these entries.
pub open spec fn spread<R, const D: usize>(f: spec_fn(int) -> R) -> [R; D] {
    choose|a: [R; D]| has_entries(a, f)
}

/// An array is determined by its entries.
pub proof fn lemma_spread<R, const D: usize>(a: [R; D], f: spec_fn(int) -> R)
    requires
        has_entries(a, f),
    ensures
        spread::<R, D>(f) == a,
{
    let b = spread::<R, D>(f);
    assert(has_entries(b, f));
    assert forall|d: int| 0 <= d < D implies #[trigger] a[d] == b[d] by {
        assert(b[d] == f(d));
    }
    assert(a =~= b);
}

/// Spacings of the finest cells of a grid.
pub open spec fn finest_array<R: Real, G: Grid<R, D>, const D: usize>(grid: &G) -> [R; D] {
    spread::<R, D>(|d: int| grid.finest_of(d))
}

} // verus!
