//! Storage backends, allocation, and the two numeric contracts.
//!
//! - [`Scalar`] is the *storage* contract: plain data that can live in a
//!   backend and cross thread boundaries.
//! - [`Real`] is the *arithmetic* contract used by stencils, models and
//!   integrators. Each operation has a twin spec function; a caller's contract
//!   names the exact expression that is evaluated, operation by operation and
//!   in order, without assuming any algebraic law of the number type. The twins
//!   have default bodies, so that a number type written in ordinary Rust can
//!   supply the executable operations only. The defaults fix nothing: such a type
//!   does not meet the contracts as they stand, and what is proved holds of it
//!   with the twins read as its own operations. A verified number type overrides
//!   every twin together with its operation.

use vstd::prelude::*;

use crate::util::frozen::thawed;

verus! {

/// Plain data that can be held by a storage backend.
pub trait Scalar: Copy + Send + Sync + 'static {
    /// The additive identity as a value in contracts.
    open spec fn zero_spec() -> Self {
        arbitrary()
    }

    /// The additive identity, used to zero-initialize storage.
    fn zero() -> (r: Self)
        ensures
            r == Self::zero_spec(),
    ;
}

/// Field arithmetic required by stencils, models and integrators.
pub trait Real: Scalar {
    open spec fn add_spec(self, other: Self) -> Self {
        arbitrary()
    }

    open spec fn sub_spec(self, other: Self) -> Self {
        arbitrary()
    }

    open spec fn mul_spec(self, other: Self) -> Self {
        arbitrary()
    }

    open spec fn div_spec(self, other: Self) -> Self {
        arbitrary()
    }

    open spec fn lt_spec(self, other: Self) -> bool {
        arbitrary()
    }

    open spec fn le_spec(self, other: Self) -> bool {
        arbitrary()
    }

    open spec fn neg_spec(self) -> Self {
        arbitrary()
    }

    open spec fn sqrt_spec(self) -> Self {
        arbitrary()
    }

    open spec fn abs_spec(self) -> Self {
        arbitrary()
    }

    open spec fn ln_spec(self) -> Self {
        arbitrary()
    }

    open spec fn cos_spec(self) -> Self {
        arbitrary()
    }

    open spec fn exp_m1_spec(self) -> Self {
        arbitrary()
    }

    open spec fn max_spec(self, other: Self) -> Self {
        arbitrary()
    }

    open spec fn min_spec(self, other: Self) -> Self {
        arbitrary()
    }

    open spec fn powi_spec(self, n: i32) -> Self {
        arbitrary()
    }

    open spec fn equals_spec(self, other: Self) -> bool {
        arbitrary()
    }

    open spec fn one_spec() -> Self {
        arbitrary()
    }

    open spec fn tau_spec() -> Self {
        arbitrary()
    }

    open spec fn mul_add_spec(self, a: Self, b: Self) -> Self {
        arbitrary()
    }

    open spec fn is_finite_spec(self) -> bool {
        arbitrary()
    }

    open spec fn from_u64_spec(x: u64) -> Self {
        arbitrary()
    }

    open spec fn from_i64_spec(x: i64) -> Self {
        arbitrary()
    }

    open spec fn round_spec(self) -> Self {
        arbitrary()
    }

    open spec fn exp_spec(self) -> Self {
        arbitrary()
    }

    open spec fn sin_spec(self) -> Self {
        arbitrary()
    }

    open spec fn tanh_spec(self) -> Self {
        arbitrary()
    }

    open spec fn hypot_spec(self, other: Self) -> Self {
        arbitrary()
    }

    open spec fn total_lt_spec(self, other: Self) -> bool {
        arbitrary()
    }

    open spec fn to_bits_spec(self) -> u64 {
        arbitrary()
    }

    open spec fn to_u64_spec(self) -> u64 {
        arbitrary()
    }

    open spec fn to_i64_spec(self) -> i64 {
        arbitrary()
    }

    open spec fn infinity_spec() -> Self {
        arbitrary()
    }

    open spec fn largest_spec() -> Self {
        arbitrary()
    }

    open spec fn half_spec() -> Self {
        arbitrary()
    }

    /// Sum.
    fn add(self, other: Self) -> (r: Self)
        ensures
            r == self.add_spec(other),
    ;

    /// Difference.
    fn sub(self, other: Self) -> (r: Self)
        ensures
            r == self.sub_spec(other),
    ;

    /// Product.
    fn mul(self, other: Self) -> (r: Self)
        ensures
            r == self.mul_spec(other),
    ;

    /// Quotient.
    fn div(self, other: Self) -> (r: Self)
        ensures
            r == self.div_spec(other),
    ;

    /// Whether `self < other`.
    fn lt(self, other: Self) -> (r: bool)
        ensures
            r == self.lt_spec(other),
    ;

    /// Whether `self <= other`.
    fn le(self, other: Self) -> (r: bool)
        ensures
            r == self.le_spec(other),
    ;

    /// Negation.
    fn neg(self) -> (r: Self)
        ensures
            r == self.neg_spec(),
    ;

    /// Square root.
    fn sqrt(self) -> (r: Self)
        ensures
            r == self.sqrt_spec(),
    ;

    /// Absolute value.
    fn abs(self) -> (r: Self)
        ensures
            r == self.abs_spec(),
    ;

    /// Natural logarithm.
    fn ln(self) -> (r: Self)
        ensures
            r == self.ln_spec(),
    ;

    /// Cosine.
    fn cos(self) -> (r: Self)
        ensures
            r == self.cos_spec(),
    ;

    /// `exp(self) - 1`, accurate near zero.
    fn exp_m1(self) -> (r: Self)
        ensures
            r == self.exp_m1_spec(),
    ;

    /// Elementwise maximum (undefined operands per the underlying type).
    fn max(self, other: Self) -> (r: Self)
        ensures
            r == self.max_spec(other),
    ;

    /// Elementwise minimum (undefined operands per the underlying type).
    fn min(self, other: Self) -> (r: Self)
        ensures
            r == self.min_spec(other),
    ;

    /// Integer power.
    fn powi(self, n: i32) -> (r: Self)
        ensures
            r == self.powi_spec(n),
    ;

    /// Whether the two numbers compare equal.
    fn equals(self, other: Self) -> (r: bool)
        ensures
            r == self.equals_spec(other),
    ;

    /// The multiplicative identity.
    fn one() -> (r: Self)
        ensures
            r == Self::one_spec(),
    ;

    /// The circle constant, the circumference of the unit circle.
    fn tau() -> (r: Self)
        ensures
            r == Self::tau_spec(),
    ;

    /// `self * a + b`, in one operation.
    fn mul_add(self, a: Self, b: Self) -> (r: Self)
        ensures
            r == self.mul_add_spec(a, b),
    ;

    /// Whether the number is neither infinite nor undefined.
    fn is_finite(self) -> (r: bool)
        ensures
            r == self.is_finite_spec(),
    ;

    /// One half.
    fn half() -> (r: Self)
        ensures
            r == Self::half_spec(),
    ;

    /// Nearest whole number, halfway cases away from zero.
    fn round(self) -> (r: Self)
        ensures
            r == self.round_spec(),
    ;

    /// Exponential.
    fn exp(self) -> (r: Self)
        ensures
            r == self.exp_spec(),
    ;

    /// Sine.
    fn sin(self) -> (r: Self)
        ensures
            r == self.sin_spec(),
    ;

    /// Hyperbolic tangent.
    fn tanh(self) -> (r: Self)
        ensures
            r == self.tanh_spec(),
    ;

    /// Length of the hypotenuse of a right triangle with these legs.
    fn hypot(self, other: Self) -> (r: Self)
        ensures
            r == self.hypot_spec(other),
    ;

    /// Whether `self` comes before `other` in the total order of the number type.
    fn total_lt(self, other: Self) -> (r: bool)
        ensures
            r == self.total_lt_spec(other),
    ;

    /// The representation as a word.
    fn to_bits(self) -> (r: u64)
        ensures
            r == self.to_bits_spec(),
    ;

    /// The integral part, saturating at the bounds of the integer type.
    fn to_u64(self) -> (r: u64)
        ensures
            r == self.to_u64_spec(),
    ;

    /// The integral part as a signed integer, saturating at the bounds of the
    /// integer type.
    fn to_i64(self) -> (r: i64)
        ensures
            r == self.to_i64_spec(),
    ;

    /// A number no smaller than any other.
    fn infinity() -> (r: Self)
        ensures
            r == Self::infinity_spec(),
    ;

    /// The largest finite number.
    fn largest() -> (r: Self)
        ensures
            r == Self::largest_spec(),
    ;

    /// The number nearest to a signed integer.
    fn from_i64(x: i64) -> (r: Self)
        ensures
            r == Self::from_i64_spec(x),
    ;

    /// The number nearest to an unsigned integer.
    fn from_u64(x: u64) -> (r: Self)
        ensures
            r == Self::from_u64_spec(x),
    ;
}

/// A contiguous, typed slab of memory.
///
/// A backend owns its data; everything above it borrows. Backends are
/// `Send + Sync` so blocks can be dispatched across a thread pool;
/// disjointness of concurrent writes is expressed through `&mut` splitting.
pub trait StorageBackend<T: Scalar>: Send + Sync {
    /// The contents of the slab.
    open spec fn data(&self) -> Seq<T> {
        arbitrary()
    }

    /// Number of elements in the slab.
    fn len(&self) -> (r: usize)
        ensures
            r == self.data().len(),
    ;

    /// Whether the slab holds no elements (zero-length slabs mark fields a
    /// buffer does not carry).
    fn is_empty(&self) -> (r: bool)
        ensures
            r == (self.data().len() == 0),
    {
        self.len() == 0
    }

    /// The slab as a contiguous slice.
    fn as_slice(&self) -> (r: &[T])
        ensures
            r@ == self.data(),
    ;

    /// The slab as a contiguous mutable slice.
    fn as_mut_slice(&mut self) -> (r: &mut [T])
        ensures
            r@ == old(self).data(),
            final(r)@.len() == r@.len() ==> final(self).data() == final(r)@,
    ;
}

/// The single point where memory comes from.
pub trait Allocator<T: Scalar>: Send + Sync {
    /// The backend this allocator produces.
    type Storage: StorageBackend<T>;

    /// Allocate zero-initialized storage for `len` elements.
    fn allocate(&self, len: usize) -> (r: Self::Storage)
        ensures
            r.data() == Seq::new(len as nat, |i: int| T::zero_spec()),
    ;
}

/// Heap-backed dense storage.
#[derive(Debug)]
pub struct DenseStorage<T: Scalar> {
    cells: Vec<T>,
}

impl<T: Scalar> Clone for DenseStorage<T> {
    fn clone(&self) -> (r: Self)
        ensures
            r.data() == self.data(),
    {
        DenseStorage { cells: thawed(self.cells.as_slice()) }
    }
}

impl<T: Scalar> StorageBackend<T> for DenseStorage<T> {
    closed spec fn data(&self) -> Seq<T> {
        self.cells@
    }

    fn len(&self) -> (r: usize) {
        self.cells.len()
    }

    fn as_slice(&self) -> (r: &[T]) {
        self.cells.as_slice()
    }

    fn as_mut_slice(&mut self) -> (r: &mut [T]) {
        self.cells.as_mut_slice()
    }
}

/// Allocates [`DenseStorage`] from the global heap.
#[derive(Debug, Clone, Copy, Default)]
pub struct SystemAllocator;

impl<T: Scalar> Allocator<T> for SystemAllocator {
    type Storage = DenseStorage<T>;

    fn allocate(&self, len: usize) -> (r: Self::Storage) {
        let mut cells: Vec<T> = Vec::with_capacity(len);
        let mut i: usize = 0;
        while i < len
            invariant
                i <= len,
                cells@.len() == i,
                forall|j: int| 0 <= j < i ==> cells@[j] == T::zero_spec(),
            decreases len - i,
        {
            cells.push(T::zero());
            i += 1;
        }
        let r = DenseStorage { cells };
        assert(r.data() =~= Seq::new(len as nat, |i: int| T::zero_spec()));
        r
    }
}

} // verus!
