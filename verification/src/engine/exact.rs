//! Arithmetic without rounding.
//!
//! A number type rounds, so what the algorithms compute equals what they stand for
//! only up to rounding. Laws of this kind are stated in *exact arithmetic*: under an
//! interpretation of the number type in the reals that turns every operation into the
//! real one.

use vstd::prelude::*;

use crate::engine::storage::Real;

verus! {

/// The interpretation turns sums, differences, negatives and products into those of
/// the reals.
pub open spec fn ring_exact<T: Real>(v: spec_fn(T) -> real) -> bool {
    &&& forall|a: T, b: T| #[trigger] v(a.add_spec(b)) == v(a) + v(b)
    &&& forall|a: T, b: T| #[trigger] v(a.sub_spec(b)) == v(a) - v(b)
    &&& forall|a: T| #[trigger] v(a.neg_spec()) == -v(a)
    &&& forall|a: T, b: T| #[trigger] v(a.mul_spec(b)) == v(a) * v(b)
    &&& forall|a: T, b: T, c: T| #[trigger] v(a.mul_add_spec(b, c)) == v(a) * v(b) + v(c)
}

/// The interpretation turns quotients into those of the reals, wherever these exist.
pub open spec fn quotient_exact<T: Real>(v: spec_fn(T) -> real) -> bool {
    forall|a: T, b: T| v(b) != 0 as real ==> #[trigger] v(a.div_spec(b)) * v(b) == v(a)
}

/// The interpretation turns the constants into those of the reals.
pub open spec fn constants_exact<T: Real>(v: spec_fn(T) -> real) -> bool {
    &&& v(T::zero_spec()) == 0 as real
    &&& v(T::one_spec()) == 1 as real
    &&& v(T::half_spec()) + v(T::half_spec()) == 1 as real
    &&& forall|n: u64| #[trigger] v(T::from_u64_spec(n)) == n as int as real
    &&& forall|n: i64| #[trigger] v(T::from_i64_spec(n)) == n as int as real
}

/// A power of a real.
pub open spec fn power(x: real, n: nat) -> real
    decreases n,
{
    if n == 0 {
        1 as real
    } else {
        power(x, (n - 1) as nat) * x
    }
}

/// Powers are those of the reals.
pub open spec fn powers_exact<T: Real>(v: spec_fn(T) -> real) -> bool {
    forall|a: T, n: i32| n >= 0 ==> #[trigger] v(a.powi_spec(n)) == power(v(a), n as nat)
}

/// Comparisons, magnitudes and the larger of two numbers are those of the reals.
pub open spec fn order_exact<T: Real>(v: spec_fn(T) -> real) -> bool {
    &&& forall|a: T, b: T| #[trigger] a.lt_spec(b) == (v(a) < v(b))
    &&& forall|a: T, b: T| #[trigger] a.le_spec(b) == (v(a) <= v(b))
    &&& forall|a: T| #[trigger] v(a.abs_spec()) == (if v(a) < 0 as real {
        -v(a)
    } else {
        v(a)
    })
    &&& forall|a: T, b: T| #[trigger] v(a.max_spec(b)) == (if v(a) < v(b) {
        v(b)
    } else {
        v(a)
    })
}

/// Exponentials are functions of the value.
pub open spec fn exponentials_exact<T: Real>(v: spec_fn(T) -> real) -> bool {
    forall|a: T, b: T|
        v(a) == v(b) ==> #[trigger] v(a.exp_spec()) == #[trigger] v(b.exp_spec())
}

/// Exponentials are those of the reals: one at zero, positive, strictly growing, and
/// turning sums into products.
pub open spec fn growth_exact<T: Real>(v: spec_fn(T) -> real) -> bool {
    &&& forall|a: T| v(a) == 0 as real ==> #[trigger] v(a.exp_spec()) == 1 as real
    &&& forall|a: T| #[trigger] v(a.exp_spec()) > 0 as real
    &&& forall|a: T, b: T|
        v(a) < v(b) ==> #[trigger] v(a.exp_spec()) < #[trigger] v(b.exp_spec())
    &&& forall|a: T, b: T, c: T|
        v(c) == v(a) + v(b) ==> #[trigger] v(c.exp_spec()) == #[trigger] v(a.exp_spec())
            * #[trigger] v(b.exp_spec())
}

/// Square roots are those of the reals, wherever these exist.
pub open spec fn roots_exact<T: Real>(v: spec_fn(T) -> real) -> bool {
    forall|a: T|
        v(a) >= 0 as real ==> #[trigger] v(a.sqrt_spec()) >= 0 as real && v(a.sqrt_spec()) * v(
            a.sqrt_spec(),
        ) == v(a)
}

/// Equality of numbers is equality of values.
pub open spec fn equality_exact<T: Real>(v: spec_fn(T) -> real) -> bool {
    forall|a: T, b: T| #[trigger] a.equals_spec(b) == (v(a) == v(b))
}

/// Exponentials less one are those of the reals.
pub open spec fn growth_less_one_exact<T: Real>(v: spec_fn(T) -> real) -> bool {
    forall|a: T| #[trigger] v(a.exp_m1_spec()) == v(a.exp_spec()) - 1 as real
}

/// Logarithms undo exponentials, wherever they exist.
pub open spec fn logarithms_exact<T: Real>(v: spec_fn(T) -> real) -> bool {
    forall|a: T, b: T|
        v(a) > 0 as real && v(b) == #[trigger] v(a.ln_spec()) ==> #[trigger] v(b.exp_spec()) == v(a)
}

/// The smaller of two numbers is that of the reals.
pub open spec fn minima_exact<T: Real>(v: spec_fn(T) -> real) -> bool {
    forall|a: T, b: T| #[trigger] v(a.min_spec(b)) == (if v(b) < v(a) {
        v(b)
    } else {
        v(a)
    })
}

/// Arithmetic is exact under this interpretation.
pub open spec fn exact<T: Real>(v: spec_fn(T) -> real) -> bool {
    ring_exact(v) && quotient_exact(v) && constants_exact(v)
}

/// Quotients of equal numbers by equal numbers are equal.
pub proof fn lemma_same_quotient<T: Real>(v: spec_fn(T) -> real, a: T, b: T, c: T, d: T)
    requires
        exact(v),
        v(a) == v(c),
        v(b) == v(d),
        v(b) != 0 as real,
    ensures
        v(a.div_spec(b)) == v(c.div_spec(d)),
{
    let x = v(a.div_spec(b));
    let y = v(c.div_spec(d));
    lemma_cancels(x, y, v(b));
}

pub proof fn lemma_power_positive(x: real, n: nat)
    requires
        x > 0 as real,
    ensures
        power(x, n) > 0 as real,
    decreases n,
{
    if n > 0 {
        let p = power(x, (n - 1) as nat);
        lemma_power_positive(x, (n - 1) as nat);
        assert(p * x > 0 as real) by (nonlinear_arith)
            requires
                p > 0 as real,
                x > 0 as real,
        ;
    }
}

pub proof fn lemma_distributes(a: real, b: real, c: real)
    ensures
        a * (b + c) == a * b + a * c,
        (b + c) * a == b * a + c * a,
{
    assert(a * (b + c) == a * b + a * c) by (nonlinear_arith);
    assert((b + c) * a == b * a + c * a) by (nonlinear_arith);
}

pub proof fn lemma_associates(a: real, b: real, c: real)
    ensures
        (a * b) * c == a * (b * c),
{
    assert((a * b) * c == a * (b * c)) by (nonlinear_arith);
}

pub proof fn lemma_commutes(a: real, b: real)
    ensures
        a * b == b * a,
{
    assert(a * b == b * a) by (nonlinear_arith);
}

pub proof fn lemma_negates(a: real, b: real)
    ensures
        a * (-b) == -(a * b),
        (-a) * b == -(a * b),
{
    assert(a * (-b) == -(a * b)) by (nonlinear_arith);
    assert((-a) * b == -(a * b)) by (nonlinear_arith);
}

pub proof fn lemma_products(a: real, b: real, c: real, d: real)
    ensures
        (a * b) * (c * d) == (a * c) * (b * d),
{
    lemma_associates(a, b, c * d);
    lemma_associates(b, c, d);
    lemma_commutes(b, c);
    lemma_associates(c, b, d);
    lemma_associates(a, c, b * d);
}

pub proof fn lemma_cancels(x: real, y: real, z: real)
    requires
        x * z == y * z,
        z != 0 as real,
    ensures
        x == y,
{
    let d = x - y;
    lemma_distributes(z, x, -y);
    lemma_negates(y, z);
    assert(d * z == 0 as real);
    assert(d == 0 as real) by (nonlinear_arith)
        requires
            d * z == 0 as real,
            z != 0 as real,
    ;
}

} // verus!
