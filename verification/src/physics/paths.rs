//! Pointwise rules of path ensembles: mean-reverting variance, diffusive prices,
//! constants.

use vstd::prelude::*;

use crate::discretization::stencil::reader;
use crate::engine::driver::Driver;
use crate::engine::state::{tailored, BlockValues, FieldSpec};
use crate::engine::storage::Real;
use crate::geometry::grid::{lemma_interior_in_slab, BlockId};
use crate::geometry::index::{in_ext, isizes};
use crate::geometry::sweep::{with_one, CellRule, GridRule};
use crate::geometry::view::CartesianView;

verus! {

/// Drift of a mean-reverting variance, negative excursions counted as zero.
pub open spec fn reversion<T: Real>(speed: T, level: T, nu: T) -> T {
    speed.mul_spec(level.sub_spec(nu.max_spec(T::zero_spec())))
}

/// Volatility at a variance, negative excursions counted as zero.
pub open spec fn volatility<T: Real>(nu: T) -> T {
    nu.max_spec(T::zero_spec()).sqrt_spec()
}

/// The same value everywhere.
pub struct Uniform<T> {
    /// The value.
    pub value: T,
}

impl<T: Real, const D: usize> CellRule<T, D> for Uniform<T> {
    open spec fn reaches(&self, idx: Seq<int>) -> bool {
        true
    }

    open spec fn value(&self, idx: Seq<int>, old: T) -> T {
        self.value
    }

    fn eval(&self, idx: [isize; D], old: T) -> (r: T) {
        self.value
    }
}

impl<T: Real, const D: usize> GridRule<T, D> for Uniform<T> {
    open spec fn reaches(&self, b: int, idx: Seq<int>) -> bool {
        true
    }

    open spec fn value(&self, b: int, idx: Seq<int>, old: T) -> T {
        self.value
    }

    fn eval(&self, block: BlockId, idx: [isize; D], old: T) -> (r: T) {
        self.value
    }
}

/// Negative values become zero.
pub struct Floor;

impl<T: Real, const D: usize> GridRule<T, D> for Floor {
    open spec fn reaches(&self, b: int, idx: Seq<int>) -> bool {
        true
    }

    open spec fn value(&self, b: int, idx: Seq<int>, old: T) -> T {
        old.max_spec(T::zero_spec())
    }

    fn eval(&self, block: BlockId, idx: [isize; D], old: T) -> (r: T) {
        old.max(T::zero())
    }
}

/// Drift of the variance a view shows.
pub struct Reversion<'a, 'b, T: Real, const D: usize> {
    /// Mean-reversion speed.
    pub speed: T,
    /// Long-run variance.
    pub level: T,
    /// The variance.
    pub nu: &'a CartesianView<'b, T, D>,
}

impl<'a, 'b, T: Real, const D: usize> CellRule<T, D> for Reversion<'a, 'b, T, D> {
    open spec fn reaches(&self, idx: Seq<int>) -> bool {
        self.nu.valid() && in_ext(idx, self.nu.ext())
    }

    open spec fn value(&self, idx: Seq<int>, old: T) -> T {
        reversion(
            self.speed,
            self.level,
            reader(self.nu.data(), self.nu.ext(), self.nu.width())(idx),
        )
    }

    fn eval(&self, idx: [isize; D], old: T) -> (r: T) {
        proof {
            lemma_interior_in_slab(isizes(idx), self.nu.ext(), self.nu.width());
        }
        self.speed.mul(self.level.sub(self.nu.get(idx).max(T::zero())))
    }
}

/// Volatility of the variance a view shows.
pub struct Volatility<'a, 'b, T: Real, const D: usize> {
    /// The variance.
    pub nu: &'a CartesianView<'b, T, D>,
}

impl<'a, 'b, T: Real, const D: usize> CellRule<T, D> for Volatility<'a, 'b, T, D> {
    open spec fn reaches(&self, idx: Seq<int>) -> bool {
        self.nu.valid() && in_ext(idx, self.nu.ext())
    }

    open spec fn value(&self, idx: Seq<int>, old: T) -> T {
        volatility(reader(self.nu.data(), self.nu.ext(), self.nu.width())(idx))
    }

    fn eval(&self, idx: [isize; D], old: T) -> (r: T) {
        proof {
            lemma_interior_in_slab(isizes(idx), self.nu.ext(), self.nu.width());
        }
        self.nu.get(idx).max(T::zero()).sqrt()
    }
}

/// A multiple of the volatility of the variance a view shows.
pub struct ScaledVolatility<'a, 'b, T: Real, const D: usize> {
    /// The factor.
    pub scale: T,
    /// The variance.
    pub nu: &'a CartesianView<'b, T, D>,
}

impl<'a, 'b, T: Real, const D: usize> CellRule<T, D> for ScaledVolatility<'a, 'b, T, D> {
    open spec fn reaches(&self, idx: Seq<int>) -> bool {
        self.nu.valid() && in_ext(idx, self.nu.ext())
    }

    open spec fn value(&self, idx: Seq<int>, old: T) -> T {
        self.scale.mul_spec(
            volatility(reader(self.nu.data(), self.nu.ext(), self.nu.width())(idx)),
        )
    }

    fn eval(&self, idx: [isize; D], old: T) -> (r: T) {
        proof {
            lemma_interior_in_slab(isizes(idx), self.nu.ext(), self.nu.width());
        }
        self.scale.mul(self.nu.get(idx).max(T::zero()).sqrt())
    }
}

/// Replacing a slab by one of the same length keeps a buffer tailored.
pub proof fn lemma_tailored_one<T>(
    fields: Seq<FieldSpec>,
    ext: Seq<int>,
    driver: Driver,
    v: BlockValues<T>,
    f: int,
    slab: Seq<T>,
)
    requires
        tailored(fields, ext, driver, v),
        0 <= f < fields.len(),
        slab.len() == v.fields[f].len(),
    ensures
        tailored(fields, ext, driver, with_one(v, f, slab)),
{
    let w = with_one(v, f, slab);
    assert forall|e: int| 0 <= e < fields.len() implies (#[trigger] w.fields[e]).len()
        == v.fields[e].len() by {}
}

} // verus!
