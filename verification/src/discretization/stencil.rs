//! The [`Stencil`] abstraction.
//!
//! A stencil is the *executable* form of a discretized operator on one block: it
//! reads a ghost-filled input view and writes the interior cells of an output
//! view. Operators remain purely mathematical tags; different policies swap in
//! different stencils without any operator or model interface changing.
//!
//! Grid geometry is read *at apply time* from the block, never baked in at
//! construction, so one stencil value serves all refinement levels. Stencils hold
//! no buffers and cannot allocate.

use vstd::prelude::*;

use crate::engine::storage::Real;
use crate::geometry::grid::{slab_at, BlockId, Grid};
use crate::geometry::sweep::with_interior;
use crate::geometry::view::{CartesianView, CartesianViewMut};

verus! {

/// What a slab holds at each cell.
pub open spec fn reader<T>(slab: Seq<T>, ext: Seq<int>, g: int) -> spec_fn(Seq<int>) -> T {
    |idx: Seq<int>| slab[slab_at(idx, ext, g)]
}

/// The cell spacing of a block along each axis.
pub open spec fn spacing_fn<T: Real, G: Grid<T, D>, const D: usize>(
    grid: &G,
    b: int,
) -> spec_fn(int) -> T {
    |d: int| grid.spacing_of(b, d)
}

/// The entries of an array.
pub open spec fn entries<T, const D: usize>(a: [T; D]) -> spec_fn(int) -> T {
    |d: int| a[d]
}

/// The executable form of a discretized operator on one block.
pub trait Stencil<T: Real, G: Grid<T, D>, const D: usize>: Send + Sync {
    /// How far the stencil reads beyond a cell.
    open spec fn reach(&self) -> int {
        arbitrary()
    }

    /// The value at an interior cell, a function of the cell spacing and of what
    /// the input holds at each cell.
    open spec fn applied(
        &self,
        spacing: spec_fn(int) -> T,
        input: spec_fn(Seq<int>) -> T,
        idx: Seq<int>,
    ) -> T {
        arbitrary()
    }

    /// Ghost-ring width this stencil reads. Fields it is applied to must be
    /// registered with at least this ghost width.
    fn ghost_width(&self) -> (r: u32)
        ensures
            r == self.reach(),
    ;

    /// Apply on one block: read `input` (interior and ghosts), write the interior
    /// of `output`.
    fn apply(
        &self,
        grid: &G,
        block: BlockId,
        input: CartesianView<'_, T, D>,
        output: &mut CartesianViewMut<'_, T, D>,
    )
        requires
            grid.valid(),
            block.id() < grid.blocks(),
            input.valid(),
            input.ext() == grid.extent_of(block.id()),
            input.width() >= self.reach(),
            old(output).valid(),
            old(output).ext() == grid.extent_of(block.id()),
        ensures
            final(output).data@ == with_interior(
                old(output).data@,
                grid.extent_of(block.id()),
                old(output).width(),
                |idx: Seq<int>, v: T|
                    self.applied(
                        spacing_fn::<T, G, D>(grid, block.id()),
                        reader(input.data(), input.ext(), input.width()),
                        idx,
                    ),
            ),
            final(output).extent == old(output).extent,
            final(output).halo == old(output).halo,
            final(final(output).data)@ == final(old(output).data)@,
    ;
}

} // verus!
