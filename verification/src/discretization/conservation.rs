//! The central Laplacian neither creates nor destroys.
use vstd::prelude::*;

use crate::discretization::finite_difference::{laplacian_at, second_difference};
use crate::engine::exact::{exact, lemma_distributes};
use crate::engine::storage::Real;
use crate::geometry::index::in_ext;

verus! {

/// Sum of the first `n` values.
spec fn line_total(g: spec_fn(int) -> real, n: int) -> real
    decreases n,
{
    if n <= 0 {
        0 as real
    } else {
        line_total(g, n - 1) + g(n - 1)
    }
}

/// Sum over the cells of a box, axis by axis.
pub open spec fn box_total(f: spec_fn(Seq<int>) -> real, ext: Seq<int>) -> real
    decreases ext.len(), 1int, 0int,
{
    if ext.len() == 0 {
        f(Seq::empty())
    } else {
        layers_total(f, ext, ext[0])
    }
}

/// Sum over the cells of the first `n` layers of a box, normal to its first axis.
pub open spec fn layers_total(f: spec_fn(Seq<int>) -> real, ext: Seq<int>, n: int) -> real
    decreases ext.len(), 0int, n,
{
    if ext.len() == 0 || n <= 0 {
        0 as real
    } else {
        layers_total(f, ext, n - 1) + box_total(
            |c: Seq<int>| f(seq![n - 1] + c),
            ext.drop_first(),
        )
    }
}

/// The sum over each layer of a box, layers numbered along its first axis.
spec fn layer_sums(f: spec_fn(Seq<int>) -> real, rest: Seq<int>) -> spec_fn(int) -> real {
    |i: int| box_total(|c: Seq<int>| f(seq![i] + c), rest)
}

proof fn lemma_layers(f: spec_fn(Seq<int>) -> real, ext: Seq<int>, n: int)
    requires
        ext.len() > 0,
    ensures
        layers_total(f, ext, n) == line_total(layer_sums(f, ext.drop_first()), n),
    decreases n,
{
    if n > 0 {
        lemma_layers(f, ext, n - 1);
    }
}

proof fn lemma_line_same(g: spec_fn(int) -> real, h: spec_fn(int) -> real, n: int)
    requires
        forall|i: int| 0 <= i < n ==> #[trigger] g(i) == h(i),
    ensures
        line_total(g, n) == line_total(h, n),
    decreases n,
{
    if n > 0 {
        lemma_line_same(g, h, n - 1);
    }
}

proof fn lemma_line_sum(
    g: spec_fn(int) -> real,
    h: spec_fn(int) -> real,
    k: spec_fn(int) -> real,
    s: real,
    n: int,
)
    requires
        forall|i: int| 0 <= i < n ==> #[trigger] k(i) == g(i) + s * h(i),
    ensures
        line_total(k, n) == line_total(g, n) + s * line_total(h, n),
    decreases n,
{
    if n > 0 {
        lemma_line_sum(g, h, k, s, n - 1);
        lemma_distributes(s, line_total(h, n - 1), h(n - 1));
    } else {
        assert(s * (0 as real) == 0 as real) by (nonlinear_arith);
    }
}

proof fn lemma_line_shift(g: spec_fn(int) -> real, h: spec_fn(int) -> real, n: int)
    requires
        n >= 0,
        forall|i: int| 0 <= i < n ==> #[trigger] h(i) == g(i - 1),
    ensures
        line_total(h, n) + g(n - 1) == line_total(g, n) + g(-1),
    decreases n,
{
    if n > 0 {
        lemma_line_shift(g, h, n - 1);
        assert(h(n - 1) == g(n - 2));
    }
}

/// A cell of a box, its first axis split off.
proof fn lemma_prepended(i: int, c: Seq<int>, ext: Seq<int>)
    requires
        ext.len() > 0,
        in_ext(c, ext.drop_first()),
        0 <= i < ext[0],
    ensures
        in_ext(seq![i] + c, ext),
{
    let x = seq![i] + c;
    assert forall|d: int| 0 <= d < ext.len() implies 0 <= #[trigger] x[d] < ext[d] by {
        if d > 0 {
            assert(x[d] == c[d - 1]);
            assert(0 <= c[d - 1] < ext.drop_first()[d - 1]);
        }
    }
}

/// `k` is `f` plus a multiple of `g` on the box: so are the sums.
proof fn lemma_box_sum(
    f: spec_fn(Seq<int>) -> real,
    g: spec_fn(Seq<int>) -> real,
    k: spec_fn(Seq<int>) -> real,
    s: real,
    ext: Seq<int>,
)
    requires
        forall|c: Seq<int>| #[trigger] in_ext(c, ext) ==> k(c) == f(c) + s * g(c),
    ensures
        box_total(k, ext) == box_total(f, ext) + s * box_total(g, ext),
    decreases ext.len(),
{
    if ext.len() == 0 {
        assert(in_ext(Seq::<int>::empty(), ext));
    } else {
        let rest = ext.drop_first();
        let fs = layer_sums(f, rest);
        let gs = layer_sums(g, rest);
        let ks = layer_sums(k, rest);
        assert forall|i: int| 0 <= i < ext[0] implies #[trigger] ks(i) == fs(i) + s * gs(i) by {
            let fi = |c: Seq<int>| f(seq![i] + c);
            let gi = |c: Seq<int>| g(seq![i] + c);
            let ki = |c: Seq<int>| k(seq![i] + c);
            assert forall|c: Seq<int>| #[trigger] in_ext(c, rest) implies ki(c) == fi(c) + s * gi(
                c,
            ) by {
                lemma_prepended(i, c, ext);
            }
            lemma_box_sum(fi, gi, ki, s, rest);
        }
        lemma_line_sum(fs, gs, ks, s, ext[0]);
        lemma_layers(f, ext, ext[0]);
        lemma_layers(g, ext, ext[0]);
        lemma_layers(k, ext, ext[0]);
    }
}

/// A function that vanishes on the box sums to zero.
proof fn lemma_box_zero(f: spec_fn(Seq<int>) -> real, ext: Seq<int>)
    requires
        forall|c: Seq<int>| #[trigger] in_ext(c, ext) ==> f(c) == 0 as real,
    ensures
        box_total(f, ext) == 0 as real,
{
    assert forall|c: Seq<int>| #[trigger] in_ext(c, ext) implies f(c) == f(c) + 1 as real * f(
        c,
    ) by {
        assert(f(c) == 0 as real);
        assert(1 as real * f(c) == f(c)) by (nonlinear_arith);
    }
    lemma_box_sum(f, f, f, 1 as real, ext);
    let x = box_total(f, ext);
    assert(1 as real * x == x) by (nonlinear_arith);
}

/// The cell moved down along one axis.
pub open spec fn lowered(c: Seq<int>, d: int) -> Seq<int> {
    c.update(d, c[d] - 1)
}

/// What passes up through the faces of one axis comes in from below, if nothing passes
/// through the outer faces.
proof fn lemma_box_shift(
    f: spec_fn(Seq<int>) -> real,
    g: spec_fn(Seq<int>) -> real,
    ext: Seq<int>,
    d: int,
)
    requires
        0 <= d < ext.len(),
        ext[d] > 0,
        forall|c: Seq<int>| #[trigger] in_ext(c, ext) ==> g(c) == f(lowered(c, d)),
        forall|c: Seq<int>| #[trigger]
            in_ext(c, ext) ==> (c[d] == ext[d] - 1 ==> f(c) == 0 as real) && (c[d] == 0 ==> f(
                lowered(c, d),
            ) == 0 as real),
    ensures
        box_total(f, ext) == box_total(g, ext),
    decreases ext.len(),
{
    let rest = ext.drop_first();
    let n = ext[0];
    let fs = layer_sums(f, rest);
    let gs = layer_sums(g, rest);
    lemma_layers(f, ext, n);
    lemma_layers(g, ext, n);
    if d == 0 {
        assert forall|i: int| 0 <= i < n implies #[trigger] gs(i) == fs(i - 1) by {
            let gi = |c: Seq<int>| g(seq![i] + c);
            let fi = |c: Seq<int>| f(seq![i - 1] + c);
            let zero = |c: Seq<int>| 0 as real;
            assert forall|c: Seq<int>| #[trigger] in_ext(c, rest) implies gi(c) == fi(c)
                + 0 as real * zero(c) by {
                lemma_prepended(i, c, ext);
                assert(lowered(seq![i] + c, 0) =~= seq![i - 1] + c);
                assert(0 as real * zero(c) == 0 as real) by (nonlinear_arith);
            }
            lemma_box_sum(fi, zero, gi, 0 as real, rest);
            let z = box_total(zero, rest);
            assert(0 as real * z == 0 as real) by (nonlinear_arith);
        }
        assert(fs(n - 1) == 0 as real) by {
            let fi = |c: Seq<int>| f(seq![n - 1] + c);
            assert forall|c: Seq<int>| #[trigger] in_ext(c, rest) implies fi(c) == 0 as real by {
                lemma_prepended(n - 1, c, ext);
                assert((seq![n - 1] + c)[0] == n - 1);
            }
            lemma_box_zero(fi, rest);
        }
        assert(fs(-1) == 0 as real) by {
            let fi = |c: Seq<int>| f(seq![-1int] + c);
            assert forall|c: Seq<int>| #[trigger] in_ext(c, rest) implies fi(c) == 0 as real by {
                lemma_prepended(0, c, ext);
                let x = seq![0int] + c;
                assert(x[0] == 0);
                assert(lowered(x, 0) =~= seq![-1int] + c);
            }
            lemma_box_zero(fi, rest);
        }
        lemma_line_shift(fs, gs, n);
    } else {
        assert forall|i: int| 0 <= i < n implies #[trigger] fs(i) == gs(i) by {
            let fi = |c: Seq<int>| f(seq![i] + c);
            let gi = |c: Seq<int>| g(seq![i] + c);
            assert forall|c: Seq<int>| #[trigger] in_ext(c, rest) implies gi(c) == fi(
                lowered(c, d - 1),
            ) && (c[d - 1] == rest[d - 1] - 1 ==> fi(c) == 0 as real) && (c[d - 1] == 0 ==> fi(
                lowered(c, d - 1),
            ) == 0 as real) by {
                lemma_prepended(i, c, ext);
                let x = seq![i] + c;
                assert(x[d] == c[d - 1]);
                assert(lowered(x, d) =~= seq![i] + lowered(c, d - 1));
            }
            lemma_box_shift(fi, gi, rest, d - 1);
        }
        lemma_line_same(fs, gs, n);
    }
}

/// Along each axis, the entries just outside the box equal those just inside: the
/// mirror condition on every face.
pub open spec fn mirrored<T: Real>(
    w: spec_fn(T) -> real,
    input: spec_fn(Seq<int>) -> T,
    ext: Seq<int>,
) -> bool {
    forall|c: Seq<int>, d: int|
        #![trigger in_ext(c, ext), c[d]]
        in_ext(c, ext) && 0 <= d < ext.len() ==> {
            &&& c[d] == 0 ==> w(input(c.update(d, c[d] - 1))) == w(input(c))
            &&& c[d] == ext[d] - 1 ==> w(input(c.update(d, c[d] + 1))) == w(input(c))
        }
}

/// One axis of the Laplacian sums to zero.
proof fn lemma_axis_conserves<T: Real>(
    w: spec_fn(T) -> real,
    h: T,
    input: spec_fn(Seq<int>) -> T,
    ext: Seq<int>,
    d: int,
)
    requires
        exact(w),
        0 <= d < ext.len(),
        forall|e: int| 0 <= e < ext.len() ==> 0 < #[trigger] ext[e],
        mirrored(w, input, ext),
    ensures
        box_total(|c: Seq<int>| w(second_difference(h, input, c, d)), ext) == 0 as real,
{
    let s = w(T::one_spec().div_spec(h.mul_spec(h)));
    let up = |c: Seq<int>| w(input(c.update(d, c[d] + 1))) - w(input(c));
    let down = |c: Seq<int>| up(lowered(c, d));
    let gap = |c: Seq<int>| up(c) - down(c);
    let zero = |c: Seq<int>| 0 as real;
    let lap = |c: Seq<int>| w(second_difference(h, input, c, d));
    assert(ext[d] > 0);
    assert forall|c: Seq<int>| #[trigger] in_ext(c, ext) implies down(c) == up(lowered(c, d)) && (
    c[d] == ext[d] - 1 ==> up(c) == 0 as real) && (c[d] == 0 ==> up(lowered(c, d))
        == 0 as real) by {
        let x = c[d];
        let low = lowered(c, d);
        assert(low.update(d, low[d] + 1) =~= c);
    }
    lemma_box_shift(up, down, ext, d);
    assert forall|c: Seq<int>| #[trigger] in_ext(c, ext) implies gap(c) == up(c) + (-(1 as real))
        * down(c) by {
        assert((-(1 as real)) * down(c) == -down(c)) by (nonlinear_arith);
    }
    lemma_box_sum(up, down, gap, -(1 as real), ext);
    let t = box_total(down, ext);
    assert((-(1 as real)) * t == -t) by (nonlinear_arith);
    assert(box_total(gap, ext) == 0 as real);
    assert forall|c: Seq<int>| #[trigger] in_ext(c, ext) implies lap(c) == zero(c) + s * gap(c) by {
        let x = c[d];
        let low = lowered(c, d);
        assert(low.update(d, low[d] + 1) =~= c);
        let m = gap(c);
        assert(lap(c) == m * s);
        assert(m * s == s * m) by (nonlinear_arith);
    }
    lemma_box_sum(zero, gap, lap, s, ext);
    lemma_box_zero(zero, ext);
    assert(s * (0 as real) == 0 as real) by (nonlinear_arith);
}

/// In exact arithmetic the central Laplacian conserves: on a box with mirrored faces,
/// in any dimension, its values sum to zero, so diffusion keeps the total.
pub proof fn mirrored_laplacian_conserves<T: Real>(
    w: spec_fn(T) -> real,
    spacing: spec_fn(int) -> T,
    input: spec_fn(Seq<int>) -> T,
    ext: Seq<int>,
    n: nat,
)
    requires
        exact(w),
        n <= ext.len(),
        forall|e: int| 0 <= e < ext.len() ==> 0 < #[trigger] ext[e],
        mirrored(w, input, ext),
    ensures
        box_total(|c: Seq<int>| w(laplacian_at(spacing, input, c, n)), ext) == 0 as real,
    decreases n,
{
    let lap = |c: Seq<int>| w(laplacian_at(spacing, input, c, n));
    if n == 0 {
        lemma_box_zero(lap, ext);
    } else {
        let d = n - 1;
        let head = |c: Seq<int>| w(laplacian_at(spacing, input, c, d as nat));
        let axis = |c: Seq<int>| w(second_difference(spacing(d), input, c, d));
        mirrored_laplacian_conserves(w, spacing, input, ext, d as nat);
        lemma_axis_conserves(w, spacing(d), input, ext, d);
        assert forall|c: Seq<int>| #[trigger] in_ext(c, ext) implies lap(c) == head(c) + 1 as real
            * axis(c) by {
            assert(1 as real * axis(c) == axis(c)) by (nonlinear_arith);
        }
        lemma_box_sum(head, axis, lap, 1 as real, ext);
        assert(1 as real * (0 as real) == 0 as real) by (nonlinear_arith);
    }
}

} // verus!
