//! Second-order central finite differences on rectilinear grids.
//!
//! The kernel is a free function over the concrete box views, so every grid
//! family whose blocks are uniform boxes shares one implementation; the stencil
//! only reads the block's geometry and delegates.

use vstd::prelude::*;

use crate::discretization::operators::{Discretizes, Laplacian};
use crate::discretization::stencil::{entries, reader, spacing_fn, Stencil};
use crate::engine::storage::Real;
use crate::geometry::amr::grid::AmrGrid;
use crate::geometry::cartesian::CartesianGrid;
use crate::geometry::grid::{in_slab, BlockId, Grid};
use crate::geometry::index::{in_ext, isizes, positive};
use crate::geometry::sweep::{set_interior, with_interior, CellRule};
use crate::geometry::view::{CartesianView, CartesianViewMut};

verus! {

/// Central finite-difference policy (second order) on rectilinear grids.
#[derive(Debug, Clone, Copy, Default)]
pub struct FiniteDifference;

/// Central Laplacian on the cell and its two neighbors along each axis. Holds no
/// geometry: spacing is read from the block at apply time, so the same stencil
/// serves every refinement level.
#[derive(Debug, Clone, Copy, Default)]
pub struct CentralLaplacian;

/// The second difference along axis `d`, divided by the squared spacing.
pub open spec fn second_difference<T: Real>(
    h: T,
    input: spec_fn(Seq<int>) -> T,
    idx: Seq<int>,
    d: int,
) -> T {
    let c = input(idx);
    input(idx.update(d, idx[d] + 1)).sub_spec(c.add_spec(c)).add_spec(
        input(idx.update(d, idx[d] - 1)),
    ).mul_spec(T::one_spec().div_spec(h.mul_spec(h)))
}

/// Sum of the second differences along the first `n` axes.
pub open spec fn laplacian_at<T: Real>(
    spacing: spec_fn(int) -> T,
    input: spec_fn(Seq<int>) -> T,
    idx: Seq<int>,
    n: nat,
) -> T
    decreases n,
{
    if n == 0 {
        T::zero_spec()
    } else {
        laplacian_at(spacing, input, idx, (n - 1) as nat).add_spec(
            second_difference(spacing(n - 1), input, idx, n - 1),
        )
    }
}

struct LaplacianRule<'a, 'b, T: Real, const D: usize> {
    spacing: [T; D],
    inverse: [T; D],
    input: &'a CartesianView<'b, T, D>,
}

impl<'a, 'b, T: Real, const D: usize> LaplacianRule<'a, 'b, T, D> {
    spec fn steps(&self) -> spec_fn(int) -> T {
        entries(self.spacing)
    }

    spec fn cells(&self) -> spec_fn(Seq<int>) -> T {
        reader(self.input.data(), self.input.ext(), self.input.width())
    }
}

impl<'a, 'b, T: Real, const D: usize> CellRule<T, D> for LaplacianRule<'a, 'b, T, D> {
    closed spec fn reaches(&self, idx: Seq<int>) -> bool {
        &&& self.input.valid()
        &&& self.input.width() >= 1
        &&& positive(self.input.ext())
        &&& in_ext(idx, self.input.ext())
        &&& forall|d: int|
            0 <= d < D ==> #[trigger] self.inverse[d] == T::one_spec().div_spec(
                self.spacing[d].mul_spec(self.spacing[d]),
            )
    }

    closed spec fn value(&self, idx: Seq<int>, old: T) -> T {
        laplacian_at(self.steps(), self.cells(), idx, D as nat)
    }

    fn eval(&self, idx: [isize; D], old: T) -> (r: T) {
        let ghost c = isizes(idx);
        let ghost ext = self.input.ext();
        let ghost g = self.input.width();
        proof {
            crate::geometry::grid::lemma_interior_in_slab(c, ext, g);
        }
        let center = self.input.get(idx);
        let mut acc = T::zero();
        let mut d: usize = 0;
        while d < D
            invariant
                d <= D,
                self.reaches(c),
                c == isizes(idx),
                ext == self.input.ext(),
                g == self.input.width(),
                in_slab(c, ext, g),
                center == (self.cells())(c),
                acc == laplacian_at(self.steps(), self.cells(), c, d as nat),
            decreases D - d,
        {
            let ghost up = c.update(d as int, c[d as int] + 1);
            let ghost down = c.update(d as int, c[d as int] - 1);
            proof {
                assert(0 <= c[d as int] < ext[d as int]);
                assert(in_slab(up, ext, g)) by {
                    assert forall|e: int| 0 <= e < ext.len() implies -g <= #[trigger] up[e]
                        < ext[e] + g by {
                        assert(-g <= c[e] < ext[e] + g);
                    }
                }
                assert(in_slab(down, ext, g)) by {
                    assert forall|e: int| 0 <= e < ext.len() implies -g <= #[trigger] down[e]
                        < ext[e] + g by {
                        assert(-g <= c[e] < ext[e] + g);
                    }
                }
                self.input.lemma_reach(up);
                self.input.lemma_reach(down);
                assert(up[d as int] <= isize::MAX);
                assert(down[d as int] >= isize::MIN);
            }
            let mut plus = idx;
            plus[d] = plus[d] + 1;
            let mut minus = idx;
            minus[d] = minus[d] - 1;
            proof {
                assert(isizes(plus) =~= up);
                assert(isizes(minus) =~= down);
            }
            let hi = self.input.get(plus);
            let lo = self.input.get(minus);
            acc = acc.add(hi.sub(center.add(center)).add(lo).mul(self.inverse[d]));
            d += 1;
        }
        acc
    }
}

/// The Laplacian of `input`, written to the interior of `output`, given the
/// block's cell spacing.
pub fn central_laplacian_kernel<T: Real, const D: usize>(
    h: [T; D],
    input: &CartesianView<'_, T, D>,
    output: &mut CartesianViewMut<'_, T, D>,
)
    requires
        input.valid(),
        input.width() >= 1,
        positive(input.ext()),
        old(output).valid(),
        old(output).ext() == input.ext(),
    ensures
        final(output).data@ == with_interior(
            old(output).data@,
            input.ext(),
            old(output).width(),
            |idx: Seq<int>, v: T|
                laplacian_at(
                    entries(h),
                    reader(input.data(), input.ext(), input.width()),
                    idx,
                    D as nat,
                ),
        ),
        final(output).extent == old(output).extent,
        final(output).halo == old(output).halo,
        final(final(output).data)@ == final(old(output).data)@,
{
    let mut inverse = [T::zero(); D];
    let mut d: usize = 0;
    while d < D
        invariant
            d <= D,
            forall|e: int|
                0 <= e < d ==> #[trigger] inverse[e] == T::one_spec().div_spec(
                    h[e].mul_spec(h[e]),
                ),
        decreases D - d,
    {
        inverse[d] = T::one().div(h[d].mul(h[d]));
        d += 1;
    }
    let rule = LaplacianRule { spacing: h, inverse, input };
    let ghost start = output.data@;
    let ghost g = output.width();
    set_interior(output, &rule);
    proof {
        let cells = reader(input.data(), input.ext(), input.width());
        assert(output.data@ =~= with_interior(
            start,
            input.ext(),
            g,
            |idx: Seq<int>, v: T| laplacian_at(entries(h), cells, idx, D as nat),
        ));
    }
}

/// The Laplacian at a cell depends on the spacing of the block's own axes only.
proof fn lemma_laplacian_spacing<T: Real>(
    a: spec_fn(int) -> T,
    b: spec_fn(int) -> T,
    input: spec_fn(Seq<int>) -> T,
    idx: Seq<int>,
    n: nat,
)
    requires
        forall|d: int| 0 <= d < n ==> #[trigger] a(d) == b(d),
    ensures
        laplacian_at(a, input, idx, n) == laplacian_at(b, input, idx, n),
    decreases n,
{
    if n > 0 {
        lemma_laplacian_spacing(a, b, input, idx, (n - 1) as nat);
        assert(a(n - 1) == b(n - 1));
    }
}

impl<T: Real, G: Grid<T, D>, const D: usize> Stencil<T, G, D> for CentralLaplacian {
    open spec fn reach(&self) -> int {
        1
    }

    open spec fn applied(
        &self,
        spacing: spec_fn(int) -> T,
        input: spec_fn(Seq<int>) -> T,
        idx: Seq<int>,
    ) -> T {
        laplacian_at(spacing, input, idx, D as nat)
    }

    fn ghost_width(&self) -> (r: u32) {
        1
    }

    fn apply(
        &self,
        grid: &G,
        block: BlockId,
        input: CartesianView<'_, T, D>,
        output: &mut CartesianViewMut<'_, T, D>,
    ) {
        proof {
            grid.lemma_blocks();
        }
        let ghost b = block.id();
        let ghost start = output.data@;
        let ghost g = output.width();
        let h = grid.spacing(block);
        central_laplacian_kernel(h, &input, output);
        proof {
            let cells = reader(input.data(), input.ext(), input.width());
            assert forall|idx: Seq<int>| #[trigger]
                laplacian_at(entries(h), cells, idx, D as nat) == laplacian_at(
                    spacing_fn::<T, G, D>(grid, b),
                    cells,
                    idx,
                    D as nat,
                ) by {
                lemma_laplacian_spacing(
                    entries(h),
                    spacing_fn::<T, G, D>(grid, b),
                    cells,
                    idx,
                    D as nat,
                );
            }
            assert(output.data@ =~= with_interior(
                start,
                grid.extent_of(b),
                g,
                |idx: Seq<int>, v: T|
                    <CentralLaplacian as Stencil<T, G, D>>::applied(
                        self,
                        spacing_fn::<T, G, D>(grid, b),
                        cells,
                        idx,
                    ),
            ));
        }
    }
}

impl<T: Real, const D: usize> Discretizes<
    T,
    CartesianGrid<T, D>,
    Laplacian,
    D,
> for FiniteDifference {
    type Stencil = CentralLaplacian;

    open spec fn built(&self, op: Laplacian) -> CentralLaplacian {
        CentralLaplacian
    }

    fn build(&self, grid: &CartesianGrid<T, D>, op: Laplacian) -> (r: CentralLaplacian) {
        CentralLaplacian
    }
}

impl<T: Real, const D: usize> Discretizes<T, AmrGrid<T, D>, Laplacian, D> for FiniteDifference {
    type Stencil = CentralLaplacian;

    open spec fn built(&self, op: Laplacian) -> CentralLaplacian {
        CentralLaplacian
    }

    fn build(&self, grid: &AmrGrid<T, D>, op: Laplacian) -> (r: CentralLaplacian) {
        CentralLaplacian
    }
}

} // verus!
