//! Backward steps of a transport operator keep order and bounds.
use vstd::prelude::*;

use crate::engine::exact::{exact, lemma_distributes, lemma_negates};
use crate::engine::storage::Real;
use crate::integrators::imex::{
    dominant, elimination_solves_the_system, line_value, pivot, reduced, solution, upper,
};

verus! {

/// Row `i` is one of a transport operator on the line: what flows in from a neighbor is
/// not negative, the row sums to zero, and nothing flows in from beyond the ends.
pub open spec fn transports<T: Real>(v: spec_fn(T) -> real, rows: Seq<[T; 3]>, i: int) -> bool {
    &&& v(rows[i][0]) >= 0 as real
    &&& v(rows[i][2]) >= 0 as real
    &&& v(rows[i][0]) + v(rows[i][1]) + v(rows[i][2]) == 0 as real
    &&& i == 0 ==> v(rows[i][0]) == 0 as real
    &&& i + 1 == rows.len() ==> v(rows[i][2]) == 0 as real
}

proof fn lemma_nonnegative(a: real, b: real)
    requires
        a >= 0 as real,
        b >= 0 as real,
    ensures
        a * b >= 0 as real,
{
    assert(a * b >= 0 as real) by (nonlinear_arith)
        requires
            a >= 0 as real,
            b >= 0 as real,
    ;
}

/// In exact arithmetic `I - dt L` is an M-matrix for a transport operator `L` and every
/// step that is not negative: its off-diagonals are not positive, and its rows are
/// strictly diagonally dominant.
pub proof fn transport_is_dominant<T: Real>(
    v: spec_fn(T) -> real,
    rows: Seq<[T; 3]>,
    dt: T,
    i: int,
)
    requires
        exact(v),
        v(dt) >= 0 as real,
        0 <= i < rows.len(),
        transports(v, rows, i),
    ensures
        -(v(dt) * v(rows[i][0])) <= 0 as real,
        -(v(dt) * v(rows[i][2])) <= 0 as real,
        dominant(v, rows, dt, i),
{
    let h = v(dt);
    let (lo, c, up) = (v(rows[i][0]), v(rows[i][1]), v(rows[i][2]));
    lemma_nonnegative(h, lo);
    lemma_nonnegative(h, up);
    lemma_distributes(h, lo, up);
    lemma_negates(h, lo + up);
    assert(c == -(lo + up));
}

/// Pivots are at least one, and eliminated coefficients between minus one and zero.
proof fn lemma_pivots<T: Real>(v: spec_fn(T) -> real, rows: Seq<[T; 3]>, dt: T, k: nat)
    requires
        exact(v),
        v(dt) >= 0 as real,
        k < rows.len(),
        forall|i: int| 0 <= i < rows.len() ==> #[trigger] transports(v, rows, i),
    ensures
        v(pivot(rows, dt, k)) >= 1 as real,
        -(1 as real) <= v(upper(rows, dt, k)) <= 0 as real,
    decreases k,
{
    let h = v(dt);
    let (lo, c, up) = (v(rows[k as int][0]), v(rows[k as int][1]), v(rows[k as int][2]));
    let d = v(pivot(rows, dt, k));
    let q = v(upper(rows, dt, k));
    let m = h * lo;
    let w = h * up;
    assert(transports(v, rows, k as int));
    lemma_nonnegative(h, lo);
    lemma_nonnegative(h, up);
    lemma_distributes(h, lo, up);
    lemma_negates(h, lo + up);
    lemma_negates(h, c);
    lemma_negates(h, lo);
    lemma_negates(h, up);
    assert(c == -(lo + up));
    assert(h * c == -(m + w));
    if k == 0 {
        assert(h * (0 as real) == 0 as real) by (nonlinear_arith);
        assert(d == 1 as real + m + w);
    } else {
        lemma_pivots(v, rows, dt, (k - 1) as nat);
        let u = v(upper(rows, dt, (k - 1) as nat));
        assert(d == (-m) * (-u) + (1 as real + m + w));
        assert((-m) * (-u) + m >= 0 as real) by (nonlinear_arith)
            requires
                m >= 0 as real,
                -(1 as real) <= u <= 0 as real,
        ;
    }
    assert(d >= 1 as real + w);
    assert(q * d == -w);
    assert(-(1 as real) <= q <= 0 as real) by (nonlinear_arith)
        requires
            q * d == -w,
            w >= 0 as real,
            d >= 1 as real + w,
    ;
}

proof fn lemma_reduced_order<T: Real>(
    v: spec_fn(T) -> real,
    rows: Seq<[T; 3]>,
    dt: T,
    a: Seq<T>,
    b: Seq<T>,
    k: nat,
)
    requires
        exact(v),
        v(dt) >= 0 as real,
        k < rows.len(),
        a.len() == rows.len(),
        b.len() == rows.len(),
        forall|i: int| 0 <= i < rows.len() ==> #[trigger] transports(v, rows, i),
        forall|i: int| 0 <= i < rows.len() ==> v(#[trigger] a[i]) <= v(b[i]),
    ensures
        v(reduced(rows, dt, a, k)) <= v(reduced(rows, dt, b, k)),
    decreases k,
{
    let h = v(dt);
    let lo = v(rows[k as int][0]);
    let d = v(pivot(rows, dt, k));
    let x = v(reduced(rows, dt, a, k));
    let y = v(reduced(rows, dt, b, k));
    lemma_pivots(v, rows, dt, k);
    assert(transports(v, rows, k as int));
    assert(v(a[k as int]) <= v(b[k as int]));
    if k > 0 {
        lemma_reduced_order(v, rows, dt, a, b, (k - 1) as nat);
        let p = v(reduced(rows, dt, a, (k - 1) as nat));
        let q = v(reduced(rows, dt, b, (k - 1) as nat));
        let m = (-h) * lo;
        lemma_negates(h, lo);
        lemma_nonnegative(h, lo);
        assert(m * (-p) <= m * (-q)) by (nonlinear_arith)
            requires
                m <= 0 as real,
                p <= q,
        ;
    }
    assert(x * d <= y * d);
    assert(x <= y) by (nonlinear_arith)
        requires
            x * d <= y * d,
            d >= 1 as real,
    ;
}

/// In exact arithmetic the backward solve of a transport operator is monotone: a
/// right-hand side that is nowhere below another has a solution that is nowhere below
/// the other's, for every step that is not negative.
pub proof fn transport_solves_keep_order<T: Real>(
    v: spec_fn(T) -> real,
    rows: Seq<[T; 3]>,
    dt: T,
    a: Seq<T>,
    b: Seq<T>,
    i: int,
)
    requires
        exact(v),
        v(dt) >= 0 as real,
        a.len() == rows.len(),
        b.len() == rows.len(),
        0 <= i < rows.len(),
        forall|i: int| 0 <= i < rows.len() ==> #[trigger] transports(v, rows, i),
        forall|i: int| 0 <= i < rows.len() ==> v(#[trigger] a[i]) <= v(b[i]),
    ensures
        v(solution(rows, dt, a, i)) <= v(solution(rows, dt, b, i)),
    decreases rows.len() - i,
{
    lemma_reduced_order(v, rows, dt, a, b, i as nat);
    if i + 1 < rows.len() {
        transport_solves_keep_order(v, rows, dt, a, b, i + 1);
        lemma_pivots(v, rows, dt, i as nat);
        let u = v(upper(rows, dt, i as nat));
        let x = v(solution(rows, dt, a, i + 1));
        let y = v(solution(rows, dt, b, i + 1));
        assert(u * (-x) <= u * (-y)) by (nonlinear_arith)
            requires
                u <= 0 as real,
                x <= y,
        ;
    }
}

/// The row equation at a cell that no neighbor exceeds.
proof fn lemma_peak(h: real, lo: real, c: real, up: real, x: real, prev: real, next: real, r: real)
    requires
        h >= 0 as real,
        lo >= 0 as real,
        up >= 0 as real,
        lo + c + up == 0 as real,
        lo == 0 as real || prev <= x,
        up == 0 as real || next <= x,
        x - h * (lo * prev + c * x + up * next) == r,
    ensures
        x <= r,
{
    let s = lo * prev + c * x + up * next;
    assert(lo * prev <= lo * x) by (nonlinear_arith)
        requires
            lo >= 0 as real,
            lo == 0 as real || prev <= x,
    ;
    assert(up * next <= up * x) by (nonlinear_arith)
        requires
            up >= 0 as real,
            up == 0 as real || next <= x,
    ;
    assert(lo * x + c * x + up * x == 0 as real) by {
        lemma_distributes(x, lo + c, up);
        lemma_distributes(x, lo, c);
        assert((0 as real) * x == 0 as real) by (nonlinear_arith);
    }
    assert(h * s <= 0 as real) by (nonlinear_arith)
        requires
            h >= 0 as real,
            s <= 0 as real,
    ;
}

/// The cell of a line with the largest value.
proof fn lemma_largest<T: Real>(v: spec_fn(T) -> real, x: Seq<T>, n: int) -> (k: int)
    requires
        0 < n <= x.len(),
    ensures
        0 <= k < n,
        forall|i: int| 0 <= i < n ==> v(#[trigger] x[i]) <= v(x[k]),
    decreases n,
{
    if n == 1 {
        0
    } else {
        let k = lemma_largest(v, x, n - 1);
        if v(x[n - 1]) <= v(x[k]) {
            k
        } else {
            n - 1
        }
    }
}

/// The cell of a line with the smallest value.
proof fn lemma_smallest<T: Real>(v: spec_fn(T) -> real, x: Seq<T>, n: int) -> (k: int)
    requires
        0 < n <= x.len(),
    ensures
        0 <= k < n,
        forall|i: int| 0 <= i < n ==> v(x[k]) <= v(#[trigger] x[i]),
    decreases n,
{
    if n == 1 {
        0
    } else {
        let k = lemma_smallest(v, x, n - 1);
        if v(x[k]) <= v(x[n - 1]) {
            k
        } else {
            n - 1
        }
    }
}

/// In exact arithmetic the backward solve of a transport operator is stable: for every
/// step that is not negative, the solution stays within the bounds of the right-hand
/// side.
pub proof fn transport_solves_keep_bounds<T: Real>(
    v: spec_fn(T) -> real,
    rows: Seq<[T; 3]>,
    dt: T,
    rhs: Seq<T>,
    least: real,
    most: real,
    i: int,
)
    requires
        exact(v),
        v(dt) >= 0 as real,
        rhs.len() == rows.len(),
        0 <= i < rows.len(),
        forall|i: int| 0 <= i < rows.len() ==> #[trigger] transports(v, rows, i),
        forall|i: int| 0 <= i < rows.len() ==> least <= v(#[trigger] rhs[i]) <= most,
    ensures
        least <= v(solution(rows, dt, rhs, i)) <= most,
{
    let x = Seq::new(rhs.len(), |k: int| solution(rows, dt, rhs, k));
    let n = x.len() as int;
    let h = v(dt);
    assert forall|k: nat| k < rhs.len() implies v(#[trigger] pivot(rows, dt, k)) != 0 as real by {
        lemma_pivots(v, rows, dt, k);
    }
    assert(x[i] == solution(rows, dt, rhs, i));
    let k = lemma_largest(v, x, n);
    elimination_solves_the_system(v, rows, dt, rhs, k);
    assert(transports(v, rows, k));
    lemma_peak(
        h,
        v(rows[k][0]),
        v(rows[k][1]),
        v(rows[k][2]),
        v(x[k]),
        line_value(v, x, k - 1),
        line_value(v, x, k + 1),
        v(rhs[k]),
    );
    assert(v(rhs[k]) <= most);
    assert(v(x[i]) <= v(x[k]));
    let j = lemma_smallest(v, x, n);
    elimination_solves_the_system(v, rows, dt, rhs, j);
    assert(transports(v, rows, j));
    let (lo, c, up) = (v(rows[j][0]), v(rows[j][1]), v(rows[j][2]));
    let (p, q, w) = (line_value(v, x, j - 1), v(x[j]), line_value(v, x, j + 1));
    let s = lo * p + c * q + up * w;
    lemma_negates(lo, p);
    lemma_negates(c, q);
    lemma_negates(up, w);
    lemma_negates(h, s);
    assert(lo * (-p) + c * (-q) + up * (-w) == -s);
    lemma_peak(h, lo, c, up, -q, -p, -w, -v(rhs[j]));
    assert(least <= v(rhs[j]));
    assert(v(x[j]) <= v(x[i]));
}

} // verus!
