//! What the stencils approximate: they are exact on the polynomials their order
//! promises.
use vstd::prelude::*;

use crate::discretization::finite_difference::{
    laplacian_at, second_difference, CentralLaplacian,
};
use crate::discretization::finite_volume::{
    center_gradient, face_gradient, inverse_area, nearby, quarter, rotated, KarmaRappelFlux,
};
use crate::discretization::stencil::Stencil;
use crate::engine::exact::{
    exact, lemma_associates, lemma_cancels, lemma_commutes, lemma_distributes, lemma_negates,
    order_exact,
};
use crate::engine::storage::Real;
use crate::geometry::grid::Grid;

verus! {

proof fn lemma_unit(a: real)
    ensures
        a * (1 as real) == a,
        1 as real * a == a,
{
    assert(a * (1 as real) == a) by (nonlinear_arith);
    assert(1 as real * a == a) by (nonlinear_arith);
}

proof fn lemma_null(a: real)
    ensures
        a * (0 as real) == 0 as real,
        0 as real * a == 0 as real,
{
    assert(a * (0 as real) == 0 as real) by (nonlinear_arith);
    assert(0 as real * a == 0 as real) by (nonlinear_arith);
}

proof fn lemma_nonzero(a: real, b: real)
    requires
        a != 0 as real,
        b != 0 as real,
    ensures
        a * b != 0 as real,
{
    if a * b == 0 as real {
        lemma_null(b);
        lemma_cancels(a, 0 as real, b);
    }
}

proof fn lemma_exchange(a: real, b: real, c: real)
    ensures
        a * (b * c) == b * (a * c),
{
    lemma_associates(a, b, c);
    lemma_commutes(a, b);
    lemma_associates(b, a, c);
}

proof fn lemma_spread_product(k: real, x: real, m: real, y: real, z: real)
    ensures
        (k * x - m * y) * z == k * (x * z) - m * (y * z),
{
    lemma_distributes(z, k * x, -(m * y));
    lemma_negates(m * y, z);
    lemma_associates(k, x, z);
    lemma_associates(m, y, z);
}

/// Along axis `d` the cell and its two neighbors lie on a parabola: slope `b` and half
/// curvature `a` at the cell, in units of the spacing `h`.
pub open spec fn parabolic<T: Real>(
    v: spec_fn(T) -> real,
    input: spec_fn(Seq<int>) -> T,
    idx: Seq<int>,
    d: int,
    h: real,
    a: real,
    b: real,
) -> bool {
    &&& v(input(idx.update(d, idx[d] + 1))) == v(input(idx)) + b * h + a * (h * h)
    &&& v(input(idx.update(d, idx[d] - 1))) == v(input(idx)) - b * h + a * (h * h)
}

/// In exact arithmetic the second difference of a parabola is its second derivative,
/// twice the half curvature, whatever the spacing.
pub proof fn second_differences_are_curvatures<T: Real>(
    v: spec_fn(T) -> real,
    h: T,
    input: spec_fn(Seq<int>) -> T,
    idx: Seq<int>,
    d: int,
    a: real,
    b: real,
)
    requires
        exact(v),
        v(h) != 0 as real,
        parabolic(v, input, idx, d, v(h), a, b),
    ensures
        v(second_difference(h, input, idx, d)) == a + a,
{
    let s = v(h) * v(h);
    let inverse = v(T::one_spec().div_spec(h.mul_spec(h)));
    lemma_nonzero(v(h), v(h));
    assert(inverse * s == 1 as real);
    let c = input(idx);
    let bend = v(
        input(idx.update(d, idx[d] + 1)).sub_spec(c.add_spec(c)).add_spec(
            input(idx.update(d, idx[d] - 1)),
        ),
    );
    assert(bend == a * s + a * s);
    lemma_distributes(s, a, a);
    lemma_commutes(inverse, s);
    lemma_associates(a + a, s, inverse);
    lemma_unit(a + a);
}

/// The sum of the first `n` second derivatives, twice the half curvatures.
pub open spec fn curvature_sum(half: spec_fn(int) -> real, n: nat) -> real
    decreases n,
{
    if n == 0 {
        0 as real
    } else {
        curvature_sum(half, (n - 1) as nat) + half(n - 1) + half(n - 1)
    }
}

proof fn lemma_curvature_sum<T: Real>(
    v: spec_fn(T) -> real,
    spacing: spec_fn(int) -> T,
    input: spec_fn(Seq<int>) -> T,
    idx: Seq<int>,
    half: spec_fn(int) -> real,
    slope: spec_fn(int) -> real,
    n: nat,
)
    requires
        exact(v),
        forall|d: int|
            0 <= d < n ==> v(#[trigger] spacing(d)) != 0 as real && parabolic(
                v,
                input,
                idx,
                d,
                v(spacing(d)),
                half(d),
                slope(d),
            ),
    ensures
        v(laplacian_at(spacing, input, idx, n)) == curvature_sum(half, n),
    decreases n,
{
    if n > 0 {
        let d = n - 1;
        lemma_curvature_sum(v, spacing, input, idx, half, slope, d as nat);
        assert(v(spacing(d)) != 0 as real);
        second_differences_are_curvatures(v, spacing(d), input, idx, d, half(d), slope(d));
    }
}

/// In exact arithmetic the central Laplacian of a field that is parabolic along every
/// axis is the sum of its second derivatives: the scheme is exact on quadratics, and
/// blind to their slopes.
pub proof fn laplacians_are_exact_on_quadratics<T: Real, G: Grid<T, D>, const D: usize>(
    v: spec_fn(T) -> real,
    spacing: spec_fn(int) -> T,
    input: spec_fn(Seq<int>) -> T,
    idx: Seq<int>,
    half: spec_fn(int) -> real,
    slope: spec_fn(int) -> real,
)
    requires
        exact(v),
        forall|d: int|
            0 <= d < D ==> v(#[trigger] spacing(d)) != 0 as real && parabolic(
                v,
                input,
                idx,
                d,
                v(spacing(d)),
                half(d),
                slope(d),
            ),
    ensures
        v(Stencil::<T, G, D>::applied(&CentralLaplacian, spacing, input, idx)) == curvature_sum(
            half,
            D as nat,
        ),
{
    lemma_curvature_sum(v, spacing, input, idx, half, slope, D as nat);
}

/// Around the cell the field is affine, rising by `gx` per cell along the first axis and
/// by `gy` along the second.
pub open spec fn affine_around<T: Real>(
    v: spec_fn(T) -> real,
    p: spec_fn(Seq<int>) -> T,
    idx: Seq<int>,
    gx: real,
    gy: real,
) -> bool {
    let c = v(nearby(p, idx, 0, 0));
    &&& v(nearby(p, idx, 1, 0)) == c + gx
    &&& v(nearby(p, idx, -1, 0)) == c - gx
    &&& v(nearby(p, idx, 0, 1)) == c + gy
    &&& v(nearby(p, idx, 0, -1)) == c - gy
    &&& v(nearby(p, idx, 1, 1)) == c + gx + gy
    &&& v(nearby(p, idx, 1, -1)) == c + gx - gy
    &&& v(nearby(p, idx, -1, 1)) == c - gx + gy
    &&& v(nearby(p, idx, -1, -1)) == c - gx - gy
}

proof fn lemma_quarter<T: Real>(v: spec_fn(T) -> real, x: T, g: real)
    requires
        exact(v),
        v(x) == 4 as real * g,
    ensures
        v(quarter::<T>().mul_spec(x)) == g,
{
    let q = v(quarter::<T>());
    assert(v(T::from_u64_spec(4)) == 4 as real);
    assert(q * (4 as real) == 1 as real);
    lemma_associates(q, 4 as real, g);
    lemma_unit(g);
}

proof fn lemma_half<T: Real>(v: spec_fn(T) -> real, x: T, g: real)
    requires
        exact(v),
        v(x) == g + g,
    ensures
        v(T::half_spec().mul_spec(x)) == g,
{
    let h = v(T::half_spec());
    lemma_distributes(h, g, g);
    lemma_distributes(g, h, h);
    lemma_unit(g);
}

/// In exact arithmetic the gradients of an affine field, at the four faces of a cell and
/// at its center, are its slope.
pub proof fn gradients_are_exact_on_affine_fields<T: Real>(
    v: spec_fn(T) -> real,
    p: spec_fn(Seq<int>) -> T,
    idx: Seq<int>,
    gx: real,
    gy: real,
    side: int,
)
    requires
        exact(v),
        affine_around(v, p, idx, gx, gy),
        0 <= side < 4,
    ensures
        v(face_gradient(p, idx, side).0) == gx,
        v(face_gradient(p, idx, side).1) == gy,
        v(center_gradient(p, idx).0) == gx,
        v(center_gradient(p, idx).1) == gy,
{
    lemma_half(v, nearby(p, idx, 1, 0).sub_spec(nearby(p, idx, -1, 0)), gx);
    lemma_half(v, nearby(p, idx, 0, 1).sub_spec(nearby(p, idx, 0, -1)), gy);
    if side == 0 {
        lemma_quarter(
            v,
            nearby(p, idx, 1, 1).sub_spec(nearby(p, idx, 1, -1)).add_spec(
                nearby(p, idx, 0, 1),
            ).sub_spec(nearby(p, idx, 0, -1)),
            gy,
        );
    } else if side == 1 {
        lemma_quarter(
            v,
            nearby(p, idx, 0, 1).sub_spec(nearby(p, idx, 0, -1)).add_spec(
                nearby(p, idx, -1, 1),
            ).sub_spec(nearby(p, idx, -1, -1)),
            gy,
        );
    } else if side == 2 {
        lemma_quarter(
            v,
            nearby(p, idx, 1, 1).sub_spec(nearby(p, idx, -1, 1)).add_spec(
                nearby(p, idx, 1, 0),
            ).sub_spec(nearby(p, idx, -1, 0)),
            gx,
        );
    } else {
        lemma_quarter(
            v,
            nearby(p, idx, 1, 0).sub_spec(nearby(p, idx, -1, 0)).add_spec(
                nearby(p, idx, 1, -1),
            ).sub_spec(nearby(p, idx, -1, -1)),
            gx,
        );
    }
}

/// In exact arithmetic a turn into a crystal frame, by a cosine and a sine, keeps
/// lengths, and takes the crystal's axes to those of the frame: a gradient of components
/// `along` the first and `across` it is seen as just those.
pub proof fn frames_turn_gradients<T: Real>(
    v: spec_fn(T) -> real,
    cos0: T,
    sin0: T,
    dx: T,
    dy: T,
    along: real,
    across: real,
)
    requires
        exact(v),
        v(cos0) * v(cos0) + v(sin0) * v(sin0) == 1 as real,
        v(dx) == along * v(cos0) - across * v(sin0),
        v(dy) == along * v(sin0) + across * v(cos0),
    ensures
        v(rotated(cos0, sin0, dx, dy).0) == along,
        v(rotated(cos0, sin0, dx, dy).1) == across,
{
    let (c, s) = (v(cos0), v(sin0));
    let (a, b) = (along, across);
    lemma_distributes(c, a * c, -(b * s));
    lemma_negates(c, b * s);
    lemma_distributes(s, a * s, b * c);
    lemma_distributes(c, a * s, b * c);
    lemma_distributes(s, a * c, -(b * s));
    lemma_negates(s, b * s);
    lemma_exchange(c, a, c);
    lemma_exchange(c, b, s);
    lemma_exchange(s, a, s);
    lemma_exchange(s, b, c);
    lemma_exchange(c, a, s);
    lemma_exchange(c, b, c);
    lemma_exchange(s, a, c);
    lemma_exchange(s, b, s);
    lemma_commutes(c, s);
    lemma_distributes(a, c * c, s * s);
    lemma_distributes(b, c * c, s * s);
    lemma_unit(a);
    lemma_unit(b);
}

/// In exact arithmetic the constants of a stencil are those of its anisotropy strength:
/// `a = 1 - 3 eps4`, `a e = 3 eps4`, and an angular factor of `12 eps4`.
pub proof fn constants_are_the_strength<T: Real>(v: spec_fn(T) -> real, eps4: T, tol: T)
    requires
        exact(v),
        v(eps4) * (3 as real) != 1 as real,
    ensures
        v(KarmaRappelFlux::precomputed(eps4, tol).mean()) == 1 as real - 3 as real * v(eps4),
        v(KarmaRappelFlux::precomputed(eps4, tol).mean()) * v(
            KarmaRappelFlux::precomputed(eps4, tol).relative(),
        ) == 3 as real * v(eps4),
        v(KarmaRappelFlux::precomputed(eps4, tol).angular()) == 12 as real * v(eps4),
        KarmaRappelFlux::precomputed(eps4, tol).threshold() == tol,
{
    KarmaRappelFlux::constants_follow_from_the_strength(eps4, tol);
    let flux = KarmaRappelFlux::precomputed(eps4, tol);
    let three = v(T::from_u64_spec(3));
    let four = v(T::from_u64_spec(4));
    let (a, e) = (v(flux.mean()), v(flux.relative()));
    assert(three == 3 as real && four == 4 as real);
    lemma_negates(three, v(eps4));
    assert(three * v(eps4) == 3 as real * v(eps4));
    lemma_commutes(a, e);
    lemma_associates(four, a, e);
    assert(four * (a * e) == 4 as real * (a * e));
}

/// In exact arithmetic a flat interface, one whose gradient to the fourth power is
/// within the threshold, has the anisotropy `a` and no angular derivative; without
/// modulation every interface has.
pub proof fn flat_interfaces_are_isotropic<T: Real>(
    v: spec_fn(T) -> real,
    flux: KarmaRappelFlux<T>,
    frame: Option<(T, T)>,
    d: (T, T),
)
    requires
        exact(v),
        order_exact(v),
        v(flux.threshold()) >= 0 as real,
        ({
            let e = match frame {
                None => d,
                Some((c, s)) => rotated(c, s, d.0, d.1),
            };
            let n = v(e.0) * v(e.0) + v(e.1) * v(e.1);
            n * n <= v(flux.threshold()) || v(flux.relative()) == 0 as real && v(flux.angular())
                == 0 as real
        }),
    ensures
        v(flux.framed(frame, d).0) == v(flux.mean()),
        v(flux.framed(frame, d).1) == 0 as real,
{
    let e = match frame {
        None => d,
        Some((c, s)) => rotated(c, s, d.0, d.1),
    };
    let dx2 = e.0.mul_spec(e.0);
    let dy2 = e.1.mul_spec(e.1);
    let sum = dx2.add_spec(dy2);
    let mag2 = sum.mul_spec(sum);
    if !mag2.le_spec(flux.threshold()) {
        let m = v(mag2);
        let (x, y) = (v(e.0), v(e.1));
        let top = flux.relative().mul_spec(dx2.mul_spec(dx2).add_spec(dy2.mul_spec(dy2)));
        let q = v(top.div_spec(mag2));
        let fourth = v(dx2.mul_spec(dx2).add_spec(dy2.mul_spec(dy2)));
        lemma_null(fourth);
        lemma_null(m);
        assert(q * m == 0 as real);
        lemma_cancels(q, 0 as real, m);
        let turn = flux.angular().neg_spec().mul_spec(e.0).mul_spec(e.1).mul_spec(
            dx2.sub_spec(dy2),
        );
        let z = v(dx2.sub_spec(dy2));
        lemma_null(x);
        lemma_null(y);
        lemma_null(z);
        assert(v(turn) == 0 as real);
        lemma_cancels(v(turn.div_spec(mag2)), 0 as real, m);
        lemma_unit(v(flux.mean()));
    }
}

proof fn lemma_isotropic_flux<T: Real>(
    v: spec_fn(T) -> real,
    flux: KarmaRappelFlux<T>,
    frame: Option<(T, T)>,
    p: spec_fn(Seq<int>) -> T,
    idx: Seq<int>,
    side: int,
)
    requires
        exact(v),
        order_exact(v),
        v(flux.threshold()) >= 0 as real,
        v(flux.relative()) == 0 as real,
        v(flux.angular()) == 0 as real,
        0 <= side < 4,
    ensures
        ({
            let d = face_gradient(p, idx, side);
            let n = if side <= 1 {
                v(d.0)
            } else {
                v(d.1)
            };
            v(flux.flux(frame, p, idx, side)) == (v(flux.mean()) * v(flux.mean())) * n
        }),
{
    let d = face_gradient(p, idx, side);
    flat_interfaces_are_isotropic(v, flux, frame, d);
    let a = v(flux.mean());
    lemma_null(v(d.0));
    lemma_null(v(d.1));
    lemma_associates(a, a, v(d.0));
    lemma_associates(a, a, v(d.1));
}

/// In exact arithmetic the flux divergence of an isotropic crystal is the five-point
/// Laplacian, times the square of the anisotropy and over the cell area, however the
/// crystal is turned.
pub proof fn isotropic_crystals_diffuse<T: Real>(
    v: spec_fn(T) -> real,
    flux: KarmaRappelFlux<T>,
    frame: Option<(T, T)>,
    h: spec_fn(int) -> T,
    p: spec_fn(Seq<int>) -> T,
    idx: Seq<int>,
)
    requires
        exact(v),
        order_exact(v),
        v(flux.threshold()) >= 0 as real,
        v(flux.relative()) == 0 as real,
        v(flux.angular()) == 0 as real,
        v(h(0)) != 0 as real,
        v(h(1)) != 0 as real,
    ensures
        v(flux.divergence(frame, inverse_area(h), p, idx)) * (v(h(0)) * v(h(1))) == (v(flux.mean())
            * v(flux.mean())) * (v(nearby(p, idx, 1, 0)) + v(nearby(p, idx, -1, 0)) + v(
            nearby(p, idx, 0, 1),
        ) + v(nearby(p, idx, 0, -1)) - 4 as real * v(nearby(p, idx, 0, 0))),
{
    lemma_isotropic_flux(v, flux, frame, p, idx, 0);
    lemma_isotropic_flux(v, flux, frame, p, idx, 1);
    lemma_isotropic_flux(v, flux, frame, p, idx, 2);
    lemma_isotropic_flux(v, flux, frame, p, idx, 3);
    let a = v(flux.mean()) * v(flux.mean());
    let (c, r, l, t, b) = (
        v(nearby(p, idx, 0, 0)),
        v(nearby(p, idx, 1, 0)),
        v(nearby(p, idx, -1, 0)),
        v(nearby(p, idx, 0, 1)),
        v(nearby(p, idx, 0, -1)),
    );
    let sum = a * (r - c) - a * (c - l) + a * (t - c) - a * (c - b);
    assert(sum == a * (r + l + t + b - 4 as real * c)) by {
        lemma_distributes(a, r - c, -(c - l));
        lemma_negates(a, c - l);
        lemma_distributes(a, r - c - (c - l), t - c);
        lemma_distributes(a, r - c - (c - l) + (t - c), -(c - b));
        lemma_negates(a, c - b);
        assert(r + l + t + b - 4 as real * c == r - c - (c - l) + (t - c) - (c - b));
    }
    lemma_over_area(v, h, sum);
}

proof fn lemma_over_area<T: Real>(v: spec_fn(T) -> real, h: spec_fn(int) -> T, sum: real)
    requires
        exact(v),
        v(h(0)) != 0 as real,
        v(h(1)) != 0 as real,
    ensures
        (sum * v(inverse_area(h))) * (v(h(0)) * v(h(1))) == sum,
{
    let area = v(h(0)) * v(h(1));
    let inverse = v(inverse_area(h));
    lemma_nonzero(v(h(0)), v(h(1)));
    assert(inverse * area == 1 as real);
    lemma_associates(sum, inverse, area);
    lemma_unit(sum);
}

/// In exact arithmetic the flux divergence is what leaves through the faces, over the
/// cell area: right less left plus top less bottom.
pub proof fn divergences_balance_the_faces<T: Real>(
    v: spec_fn(T) -> real,
    flux: KarmaRappelFlux<T>,
    frame: Option<(T, T)>,
    h: spec_fn(int) -> T,
    p: spec_fn(Seq<int>) -> T,
    idx: Seq<int>,
)
    requires
        exact(v),
        v(h(0)) != 0 as real,
        v(h(1)) != 0 as real,
    ensures
        v(flux.divergence(frame, inverse_area(h), p, idx)) * (v(h(0)) * v(h(1))) == v(
            flux.flux(frame, p, idx, 0),
        ) - v(flux.flux(frame, p, idx, 1)) + v(flux.flux(frame, p, idx, 2)) - v(
            flux.flux(frame, p, idx, 3),
        ),
{
    lemma_over_area(
        v,
        h,
        v(flux.flux(frame, p, idx, 0)) - v(flux.flux(frame, p, idx, 1)) + v(
            flux.flux(frame, p, idx, 2),
        ) - v(flux.flux(frame, p, idx, 3)),
    );
}

/// In exact arithmetic the flux is that of the surface energy `A^2 |d|^2 / 2`: against the
/// gradient it is `A^2` times the squared gradient, and across it `-A A'` times that,
/// where both faces of a corner see the same gradient `(gx, gy)`.
pub proof fn fluxes_are_variational<T: Real>(
    v: spec_fn(T) -> real,
    flux: KarmaRappelFlux<T>,
    frame: Option<(T, T)>,
    p: spec_fn(Seq<int>) -> T,
    idx: Seq<int>,
    side: int,
    rise: int,
)
    requires
        exact(v),
        0 <= side < 2,
        2 <= rise < 4,
        face_gradient(p, idx, side) == face_gradient(p, idx, rise),
    ensures
        ({
            let d = face_gradient(p, idx, side);
            let (gx, gy) = (v(d.0), v(d.1));
            let a = v(flux.framed(frame, d).0);
            let da = v(flux.framed(frame, d).1);
            let fx = v(flux.flux(frame, p, idx, side));
            let fy = v(flux.flux(frame, p, idx, rise));
            let n = gx * gx + gy * gy;
            &&& fx * gx + fy * gy == (a * a) * n
            &&& fx * gy - fy * gx == -((a * da) * n)
        }),
{
    let d = face_gradient(p, idx, side);
    let (x, y) = (v(d.0), v(d.1));
    let a = v(flux.framed(frame, d).0);
    let b = v(flux.framed(frame, d).1);
    let (k, m) = (a * a, a * b);
    assert(a * (a * x - b * y) == k * x - m * y) by {
        lemma_distributes(a, a * x, -(b * y));
        lemma_negates(a, b * y);
        lemma_associates(a, a, x);
        lemma_associates(a, b, y);
    }
    assert(a * (a * y + b * x) == k * y + m * x) by {
        lemma_distributes(a, a * y, b * x);
        lemma_associates(a, a, y);
        lemma_associates(a, b, x);
    }
    lemma_spread_product(k, x, m, y, x);
    lemma_spread_product(k, x, m, y, y);
    lemma_spread_product(k, y, -m, x, y);
    lemma_spread_product(k, y, -m, x, x);
    lemma_negates(m, x);
    lemma_negates(m, x * y);
    lemma_negates(m, x * x);
    lemma_commutes(x, y);
    lemma_distributes(k, x * x, y * y);
    lemma_distributes(m, x * x, y * y);
}

} // verus!
