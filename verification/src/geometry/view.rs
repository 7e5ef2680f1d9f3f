//! Typed views of one block's slab, and index visitors.
//!
//! Storage hands out a raw slab for one block; a view knows the block's
//! interior extent and ghost width. Indices are relative to the interior
//! origin; ghosts sit at `-1..-ghost` and `n..n+ghost-1`.

use vstd::prelude::*;

use crate::engine::storage::Scalar;
use crate::geometry::grid::{ghosted, in_slab, lemma_extent_fits, linearize, slab_at, slab_fits};
use crate::geometry::index::{
    box_cells, in_box, isizes, lemma_rank, minus, next_index, origin, positive, rank, usizes,
    volume,
};

verus! {

/// Read view of one block's slab.
#[derive(Debug, Clone, Copy)]
pub struct CartesianView<'a, T: Scalar, const D: usize> {
    data: &'a [T],
    extent: [usize; D],
    halo: u32,
}

impl<'a, T: Scalar, const D: usize> CartesianView<'a, T, D> {
    /// The viewed slab.
    pub closed spec fn data(&self) -> Seq<T> {
        self.data@
    }

    /// Interior extents of the viewed block.
    pub closed spec fn ext(&self) -> Seq<int> {
        usizes(self.extent)
    }

    /// Ghost-ring width of the viewed field.
    pub closed spec fn width(&self) -> int {
        self.halo as int
    }

    /// The slab is as long as its extents say, and addressable.
    pub open spec fn valid(&self) -> bool {
        &&& self.ext().len() == D
        &&& 0 <= self.width() <= u32::MAX
        &&& self.data().len() == volume(ghosted(self.ext(), self.width()))
        &&& slab_fits(self.ext(), self.width())
    }

    /// Value at interior-relative coordinates.
    pub open spec fn at(&self, idx: Seq<int>) -> T {
        self.data()[slab_at(idx, self.ext(), self.width())]
    }

    /// Coordinates that lie in the slab are machine-word indices.
    pub proof fn lemma_reach(&self, idx: Seq<int>)
        requires
            self.valid(),
            positive(self.ext()),
            in_slab(idx, self.ext(), self.width()),
        ensures
            forall|d: int| 0 <= d < D ==> isize::MIN <= #[trigger] idx[d] <= isize::MAX,
    {
        lemma_extent_fits(self.ext(), self.width());
        assert forall|d: int| 0 <= d < D implies isize::MIN <= #[trigger] idx[d] <= isize::MAX by {
            assert(self.ext()[d] + 2 * self.width() <= isize::MAX);
            assert(self.ext()[d] > 0);
        }
    }

    /// Wrap a ghost-inclusive slab of a uniform box.
    pub fn from_raw(data: &'a [T], interior: [usize; D], ghost: u32) -> (r: Self)
        ensures
            r.data() == data@,
            r.ext() == usizes(interior),
            r.width() == ghost,
    {
        CartesianView { data, extent: interior, halo: ghost }
    }

    /// Value at `idx` (ghost cells addressable with negative indices).
    pub fn get(&self, idx: [isize; D]) -> (r: T)
        requires
            self.valid(),
            in_slab(isizes(idx), self.ext(), self.width()),
        ensures
            r == self.at(isizes(idx)),
    {
        self.data[linearize(idx, self.extent, self.halo)]
    }

    /// Interior extent of the block.
    pub fn interior(&self) -> (r: [usize; D])
        ensures
            usizes(r) == self.ext(),
    {
        self.extent
    }

    /// Ghost-ring width of the viewed field.
    pub fn ghost(&self) -> (r: u32)
        ensures
            r == self.width(),
    {
        self.halo
    }
}

/// Mutable view of one block's slab.
#[derive(Debug)]
pub struct CartesianViewMut<'a, T: Scalar, const D: usize> {
    pub data: &'a mut [T],
    pub extent: [usize; D],
    pub halo: u32,
}

impl<'a, T: Scalar, const D: usize> CartesianViewMut<'a, T, D> {
    /// Interior extents of the viewed block.
    pub open spec fn ext(&self) -> Seq<int> {
        usizes(self.extent)
    }

    /// Ghost-ring width of the viewed field.
    pub open spec fn width(&self) -> int {
        self.halo as int
    }

    /// The slab is as long as its extents say, and addressable.
    pub open spec fn valid(&self) -> bool {
        &&& self.data@.len() == volume(ghosted(self.ext(), self.width()))
        &&& slab_fits(self.ext(), self.width())
    }

    /// Value at interior-relative coordinates.
    pub open spec fn at(&self, idx: Seq<int>) -> T {
        self.data@[slab_at(idx, self.ext(), self.width())]
    }

    /// Mutable counterpart of [`CartesianView::from_raw`].
    pub fn from_raw_mut(data: &'a mut [T], interior: [usize; D], ghost: u32) -> (r: Self)
        ensures
            r.data@ == old(data)@,
            final(r.data)@ == final(data)@,
            r.extent == interior,
            r.halo == ghost,
    {
        CartesianViewMut { data, extent: interior, halo: ghost }
    }

    /// Value at `idx` (ghost cells addressable with negative indices).
    pub fn get(&self, idx: [isize; D]) -> (r: T)
        requires
            self.valid(),
            in_slab(isizes(idx), self.ext(), self.width()),
        ensures
            r == self.at(isizes(idx)),
    {
        self.data[linearize(idx, self.extent, self.halo)]
    }

    /// Write `value` at `idx`.
    pub fn set(&mut self, idx: [isize; D], value: T)
        requires
            old(self).valid(),
            in_slab(isizes(idx), old(self).ext(), old(self).width()),
        ensures
            final(self).data@ == old(self).data@.update(
                slab_at(isizes(idx), old(self).ext(), old(self).width()),
                value,
            ),
            final(self).extent == old(self).extent,
            final(self).halo == old(self).halo,
            final(final(self).data)@ == final(old(self).data)@,
    {
        let at = linearize(idx, self.extent, self.halo);
        self.data[at] = value;
    }

    /// Interior extent of the block.
    pub fn interior(&self) -> (r: [usize; D])
        ensures
            usizes(r) == self.ext(),
    {
        self.extent
    }

    /// Ghost-ring width of the viewed field.
    pub fn ghost(&self) -> (r: u32)
        ensures
            r == self.width(),
    {
        self.halo
    }
}

/// Receives the indices of a traversal, one by one.
pub trait Visitor<const D: usize> {
    /// The indices received so far.
    open spec fn trace(&self) -> Seq<Seq<int>> {
        arbitrary()
    }

    /// Receive the next index.
    fn visit(&mut self, idx: [isize; D])
        ensures
            final(self).trace() == old(self).trace().push(isizes(idx)),
    ;
}

/// A vector collects the indices it is shown.
impl<const D: usize> Visitor<D> for Vec<[isize; D]> {
    open spec fn trace(&self) -> Seq<Seq<int>> {
        Seq::new(self@.len(), |i: int| isizes(self@[i]))
    }

    fn visit(&mut self, idx: [isize; D]) {
        self.push(idx);
        assert(self.trace() =~= old(self).trace().push(isizes(idx)));
    }
}

/// Visit every interior index of a block extent, dimension 0 fastest.
pub fn for_each_interior<V: Visitor<D>, const D: usize>(interior: [usize; D], f: &mut V)
    requires
        forall|d: int| 0 <= d < D ==> #[trigger] interior[d] <= isize::MAX,
    ensures
        final(f).trace() == old(f).trace() + box_cells(origin(D as nat), usizes(interior)),
{
    let lo = [0isize; D];
    let mut hi = [0isize; D];
    let mut d: usize = 0;
    while d < D
        invariant
            d <= D,
            forall|e: int| 0 <= e < D ==> #[trigger] interior[e] <= isize::MAX,
            forall|e: int| 0 <= e < d ==> #[trigger] hi[e] == interior[e],
        decreases D - d,
    {
        hi[d] = interior[d] as isize;
        d += 1;
    }
    for_each_box(lo, hi, f);
    proof {
        assert(isizes(lo) =~= origin(D as nat));
        assert(isizes(hi) =~= usizes(interior));
    }
}

/// Visit every index in the half-open box `lo..hi` (signed, so ghost ranges
/// are expressible), dimension 0 fastest.
pub fn for_each_box<V: Visitor<D>, const D: usize>(lo: [isize; D], hi: [isize; D], f: &mut V)
    ensures
        final(f).trace() == old(f).trace() + box_cells(isizes(lo), isizes(hi)),
{
    let ghost l = isizes(lo);
    let ghost h = isizes(hi);
    let ghost cells = box_cells(l, h);
    let ghost start = f.trace();
    let mut d: usize = 0;
    while d < D
        invariant
            d <= D,
            l == isizes(lo),
            h == isizes(hi),
            cells == box_cells(l, h),
            start == f.trace(),
            start == old(f).trace(),
            forall|e: int| 0 <= e < d ==> (#[trigger] l[e]) < h[e],
        decreases D - d,
    {
        if lo[d] >= hi[d] {
            proof {
                assert(l[d as int] >= h[d as int]);
                assert(f.trace() =~= start + cells);
            }
            return;
        }
        d += 1;
    }
    let mut idx = lo;
    let mut more = true;
    proof {
        assert(in_box(isizes(idx), l, h));
        lemma_rank(isizes(idx), l, h);
        crate::geometry::index::lemma_lin_zero(minus(l, l), minus(h, l));
        assert(start =~= start + cells.take(0));
    }
    let ghost mut k: int = 0;
    while more
        invariant
                l == isizes(lo),
            h == isizes(hi),
            cells == box_cells(l, h),
            start == old(f).trace(),
            cells.len() == volume(minus(h, l)),
            0 <= k <= cells.len(),
            f.trace() == start + cells.take(k),
            more ==> in_box(isizes(idx), l, h) && rank(isizes(idx), l, h) == k,
            !more ==> k == cells.len(),
        decreases cells.len() - k,
    {
        proof {
            lemma_rank(isizes(idx), l, h);
        }
        f.visit(idx);
        proof {
            assert((start + cells.take(k)).push(cells[k]) =~= start + cells.take(k + 1));
            k = k + 1;
        }
        more = next_index(&mut idx, &lo, &hi);
    }
    assert(cells.take(k) =~= cells);
}

} // verus!
