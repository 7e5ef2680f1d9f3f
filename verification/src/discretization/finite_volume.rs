//! Finite-volume discretizations on rectilinear grids.
//!
//! The member so far is the Karma-Rappel anisotropic divergence used by
//! phase-field solidification models. For each cell, gradients are evaluated at
//! the four face centers (normal component by direct difference, transverse
//! component by corner averaging: a nine-point stencil), the anisotropy function
//! and its angular derivative are evaluated per face, and the update is the
//! conservative flux divergence `(J_R - J_L + J_T - J_B) / h^2`.
//!
//! All face derivatives are *raw differences* (not divided by the spacing): the
//! anisotropy factors are ratios that are scale-invariant in them, and the single
//! division at the end restores dimensions.

use vstd::prelude::*;

use crate::discretization::finite_difference::CentralLaplacian;
use crate::discretization::operators::{AnisotropicDivergence, Discretizes, Laplacian};
use crate::discretization::stencil::{entries, reader, spacing_fn, Stencil};
use crate::engine::exact::{
    exact, lemma_associates, lemma_cancels, lemma_commutes, lemma_distributes, lemma_negates,
    lemma_products, lemma_same_quotient, order_exact,
};
use crate::engine::storage::Real;
use crate::geometry::amr::grid::AmrGrid;
use crate::geometry::cartesian::CartesianGrid;
use crate::geometry::grid::{in_slab, BlockId, Grid};
use crate::geometry::index::{in_ext, isizes, positive};
use crate::geometry::sweep::{set_interior, with_interior, CellRule};
use crate::geometry::view::{CartesianView, CartesianViewMut};

verus! {

/// Finite-volume policy on rectilinear grids.
///
/// `tol` is the threshold on the fourth power of the gradient below which the
/// anisotropy is taken isotropic (the interface-free limit): a purely numerical
/// regularization, hence policy state, not tag state.
#[derive(Debug, Clone, Copy)]
pub struct FiniteVolume<T> {
    /// Regularization threshold for the anisotropy evaluation.
    pub tol: T,
}

/// A threshold of one in a hundred million.
pub open spec fn default_tol<T: Real>() -> T {
    T::one_spec().div_spec(T::from_u64_spec(100_000_000))
}

impl<T: Real> Default for FiniteVolume<T> {
    fn default() -> (r: Self)
        ensures
            r.tol == default_tol::<T>(),
    {
        FiniteVolume { tol: T::one().div(T::from_u64(100_000_000)) }
    }
}

/// Nine-point anisotropic flux-divergence stencil with 4-fold symmetry.
///
/// Precomputed from the anisotropy strength `eps4`: `a = 1 - 3 eps4`, the relative
/// modulation `e = 3 eps4 / a`, and the factor `4 a e` of the angular derivative.
///
/// The anisotropy is `A = a (1 + e (nx^4 + ny^4))` for the unit normal `(nx, ny)` at
/// the angle `theta`. The fourth powers are the 4-fold harmonic,
/// `nx^4 + ny^4 = (3 + cos 4 theta) / 4`, so that `A(theta) = m (1 + d cos 4 theta)` with
/// the mean `m = a (1 + 3 e / 4)` and the relative depth `d = a e / (4 m)`, and
/// `A'(theta) = -a e sin 4 theta`: one on the axes, `a (1 + e / 2)` on the diagonals.
///
/// The depth is not `e` itself. With `A(theta) = a (1 + e cos 4 theta)` and its
/// derivative, the test `dendrite_grows_and_stays_physical` of `tests/model_c.rs` fails
/// its assertion `umax > -0.4 && umax < 0.05`: the melt reaches 0.168, above its melting
/// point, as `deeper_modulation_overheats_the_melt` shows beside it. With that `A` and
/// the present derivative, `rotated_grain_grows_along_rotated_axes` fails: the axis arm
/// stays behind the diagonal. The reason is the surface stiffness `A + A''`: here it is
/// positive for every `e` below one third, there it would be
/// `a (1 - 15 e cos 4 theta)`, negative around the axes from one fifteenth on.
#[derive(Debug, Clone, Copy)]
pub struct KarmaRappelFlux<T> {
    a_bar: T,
    eps_prime: T,
    a12: T,
    tol: T,
}

/// Rotate lab-frame gradient components into a crystal frame.
pub open spec fn rotated<T: Real>(cos0: T, sin0: T, dx: T, dy: T) -> (T, T) {
    (
        cos0.mul_spec(dx).add_spec(sin0.mul_spec(dy)),
        cos0.mul_spec(dy).sub_spec(sin0.mul_spec(dx)),
    )
}

/// The cell `di` and `dj` cells away.
pub open spec fn beside(idx: Seq<int>, di: int, dj: int) -> Seq<int> {
    seq![idx[0] + di, idx[1] + dj]
}

/// What the input holds `di` and `dj` cells away.
pub open spec fn nearby<T>(p: spec_fn(Seq<int>) -> T, idx: Seq<int>, di: int, dj: int) -> T {
    p(beside(idx, di, dj))
}

/// One quarter.
pub open spec fn quarter<T: Real>() -> T {
    T::one_spec().div_spec(T::from_u64_spec(4))
}

/// The raw gradient at a face of a cell: the difference across the face, and the
/// average of the four transverse differences that meet it. `side` is 0 for the
/// right face, 1 left, 2 top, 3 bottom.
pub open spec fn face_gradient<T: Real>(p: spec_fn(Seq<int>) -> T, idx: Seq<int>, side: int) -> (
    T,
    T,
) {
    if side == 0 {
        (
            nearby(p, idx, 1, 0).sub_spec(nearby(p, idx, 0, 0)),
            quarter::<T>().mul_spec(
                nearby(p, idx, 1, 1).sub_spec(nearby(p, idx, 1, -1)).add_spec(
                    nearby(p, idx, 0, 1),
                ).sub_spec(nearby(p, idx, 0, -1)),
            ),
        )
    } else if side == 1 {
        (
            nearby(p, idx, 0, 0).sub_spec(nearby(p, idx, -1, 0)),
            quarter::<T>().mul_spec(
                nearby(p, idx, 0, 1).sub_spec(nearby(p, idx, 0, -1)).add_spec(
                    nearby(p, idx, -1, 1),
                ).sub_spec(nearby(p, idx, -1, -1)),
            ),
        )
    } else if side == 2 {
        (
            quarter::<T>().mul_spec(
                nearby(p, idx, 1, 1).sub_spec(nearby(p, idx, -1, 1)).add_spec(
                    nearby(p, idx, 1, 0),
                ).sub_spec(nearby(p, idx, -1, 0)),
            ),
            nearby(p, idx, 0, 1).sub_spec(nearby(p, idx, 0, 0)),
        )
    } else {
        (
            quarter::<T>().mul_spec(
                nearby(p, idx, 1, 0).sub_spec(nearby(p, idx, -1, 0)).add_spec(
                    nearby(p, idx, 1, -1),
                ).sub_spec(nearby(p, idx, -1, -1)),
            ),
            nearby(p, idx, 0, 0).sub_spec(nearby(p, idx, 0, -1)),
        )
    }
}

/// The raw gradient at a cell center, from central differences.
pub open spec fn center_gradient<T: Real>(p: spec_fn(Seq<int>) -> T, idx: Seq<int>) -> (T, T) {
    (
        T::half_spec().mul_spec(nearby(p, idx, 1, 0).sub_spec(nearby(p, idx, -1, 0))),
        T::half_spec().mul_spec(nearby(p, idx, 0, 1).sub_spec(nearby(p, idx, 0, -1))),
    )
}

/// The anisotropy `A = a (1 + e (nx^4 + ny^4))` and its angular derivative
/// `A' = -4 a e nx ny (nx^2 - ny^2)` for raw differences `(dx, dy)` in the direction
/// `(nx, ny)`; below the threshold the interface is flat.
pub open spec fn anisotropy<T: Real>(
    a_bar: T,
    eps_prime: T,
    a12: T,
    tol: T,
    dx: T,
    dy: T,
) -> (T, T) {
    let dx2 = dx.mul_spec(dx);
    let dy2 = dy.mul_spec(dy);
    let sum = dx2.add_spec(dy2);
    let mag2 = sum.mul_spec(sum);
    if mag2.le_spec(tol) {
        (a_bar, T::zero_spec())
    } else {
        (
            a_bar.mul_spec(
                T::one_spec().add_spec(
                    eps_prime.mul_spec(dx2.mul_spec(dx2).add_spec(dy2.mul_spec(dy2))).div_spec(
                        mag2,
                    ),
                ),
            ),
            a12.neg_spec().mul_spec(dx).mul_spec(dy).mul_spec(dx2.sub_spec(dy2)).div_spec(mag2),
        )
    }
}

/// Three times the anisotropy strength below one.
pub open spec fn mean_anisotropy<T: Real>(eps4: T) -> T {
    T::from_u64_spec(3).mul_add_spec(eps4.neg_spec(), T::one_spec())
}

/// The modulation of the anisotropy relative to its mean.
pub open spec fn modulation<T: Real>(eps4: T) -> T {
    T::from_u64_spec(3).mul_spec(eps4).div_spec(mean_anisotropy(eps4))
}

impl<T: Real> KarmaRappelFlux<T> {
    /// The factor `a`, which is the anisotropy of a flat interface.
    pub closed spec fn mean(&self) -> T {
        self.a_bar
    }

    /// The modulation relative to the mean.
    pub closed spec fn relative(&self) -> T {
        self.eps_prime
    }

    /// The factor of the angular derivative.
    pub closed spec fn angular(&self) -> T {
        self.a12
    }

    /// The regularization threshold.
    pub closed spec fn threshold(&self) -> T {
        self.tol
    }

    /// The stencil for an anisotropy strength and a threshold.
    pub closed spec fn precomputed(eps4: T, tol: T) -> Self {
        KarmaRappelFlux {
            a_bar: mean_anisotropy(eps4),
            eps_prime: modulation(eps4),
            a12: T::from_u64_spec(4).mul_spec(mean_anisotropy(eps4)).mul_spec(modulation(eps4)),
            tol,
        }
    }

    /// The constants follow from the anisotropy strength.
    pub proof fn constants_follow_from_the_strength(eps4: T, tol: T)
        ensures
            Self::precomputed(eps4, tol).mean() == mean_anisotropy(eps4),
            Self::precomputed(eps4, tol).relative() == modulation(eps4),
            Self::precomputed(eps4, tol).angular() == T::from_u64_spec(4).mul_spec(
                mean_anisotropy(eps4),
            ).mul_spec(modulation(eps4)),
            Self::precomputed(eps4, tol).threshold() == tol,
    {
    }

    /// Anisotropy and angular derivative at a raw gradient.
    pub open spec fn face_of(&self, d: (T, T)) -> (T, T) {
        anisotropy(self.mean(), self.relative(), self.angular(), self.threshold(), d.0, d.1)
    }

    /// Anisotropy and angular derivative at a raw gradient seen in a crystal
    /// frame, given by the cosine and sine of its angle; the lab frame without
    /// one.
    pub open spec fn framed(&self, frame: Option<(T, T)>, d: (T, T)) -> (T, T) {
        match frame {
            None => self.face_of(d),
            Some((c, s)) => self.face_of(rotated(c, s, d.0, d.1)),
        }
    }

    /// The flux through a face, `A (A d - A' d_perp)`: across it, `d` is the
    /// gradient component normal to the face, and the transverse component enters
    /// with opposite sign on the two axes.
    pub open spec fn flux(
        &self,
        frame: Option<(T, T)>,
        p: spec_fn(Seq<int>) -> T,
        idx: Seq<int>,
        side: int,
    ) -> T {
        let d = face_gradient(p, idx, side);
        let a = self.framed(frame, d);
        if side <= 1 {
            a.0.mul_spec(a.0.mul_spec(d.0).sub_spec(a.1.mul_spec(d.1)))
        } else {
            a.0.mul_spec(a.0.mul_spec(d.1).add_spec(a.1.mul_spec(d.0)))
        }
    }

    /// The flux divergence at a cell.
    pub open spec fn divergence(
        &self,
        frame: Option<(T, T)>,
        inv_h2: T,
        p: spec_fn(Seq<int>) -> T,
        idx: Seq<int>,
    ) -> T {
        self.flux(frame, p, idx, 0).sub_spec(self.flux(frame, p, idx, 1)).add_spec(
            self.flux(frame, p, idx, 2),
        ).sub_spec(self.flux(frame, p, idx, 3)).mul_spec(inv_h2)
    }

    /// Precompute the anisotropy constants from the anisotropy strength and the
    /// regularization threshold.
    pub fn new(eps4: T, tol: T) -> (r: Self)
        ensures
            r == Self::precomputed(eps4, tol),
            r.mean() == mean_anisotropy(eps4),
            r.relative() == modulation(eps4),
            r.angular() == T::from_u64_spec(4).mul_spec(mean_anisotropy(eps4)).mul_spec(
                modulation(eps4),
            ),
            r.threshold() == tol,
    {
        let three = T::from_u64(3);
        let a_bar = three.mul_add(eps4.neg(), T::one());
        let eps_prime = three.mul(eps4).div(a_bar);
        KarmaRappelFlux { a_bar, eps_prime, a12: T::from_u64(4).mul(a_bar).mul(eps_prime), tol }
    }

    /// Anisotropy and angular derivative from raw face differences. Below the
    /// regularization threshold the interface is flat: the factor `a`, and zero.
    pub fn face(&self, dx: T, dy: T) -> (r: (T, T))
        ensures
            r == self.face_of((dx, dy)),
    {
        let dx2 = dx.mul(dx);
        let dy2 = dy.mul(dy);
        let sum = dx2.add(dy2);
        let mag2 = sum.mul(sum);
        if mag2.le(self.tol) {
            (self.a_bar, T::zero())
        } else {
            let a = self.a_bar.mul(
                T::one().add(self.eps_prime.mul(dx2.mul(dx2).add(dy2.mul(dy2))).div(mag2)),
            );
            let da = self.a12.neg().mul(dx).mul(dy).mul(dx2.sub(dy2)).div(mag2);
            (a, da)
        }
    }

    /// Cell-centered anisotropy from central differences: the same regularized
    /// function models need for the mobility prefactor.
    pub fn center_anisotropy(&self, input: &CartesianView<'_, T, 2>, idx: [isize; 2]) -> (r: T)
        requires
            star_in(input, isizes(idx)),
        ensures
            r == self.framed(None, center_gradient(cells_of(input), isizes(idx))).0,
    {
        let (dx, dy) = central(input, idx);
        self.face(dx, dy).0
    }

    /// [`Self::center_anisotropy`] in a crystal frame rotated by an angle, given
    /// as its cosine and sine.
    pub fn center_anisotropy_rotated(
        &self,
        input: &CartesianView<'_, T, 2>,
        idx: [isize; 2],
        cos0: T,
        sin0: T,
    ) -> (r: T)
        requires
            star_in(input, isizes(idx)),
        ensures
            r == self.framed(
                Some((cos0, sin0)),
                center_gradient(cells_of(input), isizes(idx)),
            ).0,
    {
        let (dx, dy) = central(input, idx);
        let (rx, ry) = rotate(cos0, sin0, dx, dy);
        self.face(rx, ry).0
    }
}

/// What a view holds at each cell.
pub open spec fn cells_of<T: Real, const D: usize>(view: &CartesianView<'_, T, D>) -> spec_fn(
    Seq<int>,
) -> T {
    reader(view.data(), view.ext(), view.width())
}

/// The cell's four face neighbors lie in the slab.
pub open spec fn star_in<T: Real>(view: &CartesianView<'_, T, 2>, idx: Seq<int>) -> bool {
    &&& view.valid()
    &&& positive(view.ext())
    &&& idx.len() == 2
    &&& in_slab(beside(idx, 1, 0), view.ext(), view.width())
    &&& in_slab(beside(idx, -1, 0), view.ext(), view.width())
    &&& in_slab(beside(idx, 0, 1), view.ext(), view.width())
    &&& in_slab(beside(idx, 0, -1), view.ext(), view.width())
}

/// An interior cell's face neighbors lie in a slab with ghosts.
pub proof fn lemma_star_in<T: Real>(view: &CartesianView<'_, T, 2>, idx: Seq<int>)
    requires
        view.valid(),
        positive(view.ext()),
        view.width() >= 1,
        in_ext(idx, view.ext()),
    ensures
        star_in(view, idx),
{
    assert(0 <= idx[0] < view.ext()[0]);
    assert(0 <= idx[1] < view.ext()[1]);
}

fn rotate<T: Real>(cos0: T, sin0: T, dx: T, dy: T) -> (r: (T, T))
    ensures
        r == rotated(cos0, sin0, dx, dy),
{
    (cos0.mul(dx).add(sin0.mul(dy)), cos0.mul(dy).sub(sin0.mul(dx)))
}

fn near<T: Real>(view: &CartesianView<'_, T, 2>, idx: [isize; 2], di: isize, dj: isize) -> (r: T)
    requires
        view.valid(),
        positive(view.ext()),
        -1 <= di <= 1,
        -1 <= dj <= 1,
        in_slab(beside(isizes(idx), di as int, dj as int), view.ext(), view.width()),
    ensures
        r == nearby(cells_of(view), isizes(idx), di as int, dj as int),
{
    let ghost c = beside(isizes(idx), di as int, dj as int);
    proof {
        view.lemma_reach(c);
        assert(isize::MIN <= c[0] <= isize::MAX);
        assert(isize::MIN <= c[1] <= isize::MAX);
    }
    let at: [isize; 2] = [idx[0] + di, idx[1] + dj];
    proof {
        assert(isizes(at) =~= c);
        assert(isizes(idx)[0] == idx[0] && isizes(idx)[1] == idx[1]);
    }
    view.get(at)
}

pub(crate) fn central<T: Real>(view: &CartesianView<'_, T, 2>, idx: [isize; 2]) -> (r: (T, T))
    requires
        star_in(view, isizes(idx)),
    ensures
        r == center_gradient(cells_of(view), isizes(idx)),
{
    let ghost c = isizes(idx);
    assert(c[0] == idx[0] && c[1] == idx[1]);
    let half = T::half();
    let dx = half.mul(near(view, idx, 1, 0).sub(near(view, idx, -1, 0)));
    let dy = half.mul(near(view, idx, 0, 1).sub(near(view, idx, 0, -1)));
    (dx, dy)
}

/// The crystal frame at a cell of an orientation field.
pub open spec fn frame_at<T: Real>(theta: spec_fn(Seq<int>) -> T, idx: Seq<int>) -> (T, T) {
    (theta(idx).cos_spec(), theta(idx).sin_spec())
}

struct FluxRule<'a, 'b, T: Real> {
    flux: &'a KarmaRappelFlux<T>,
    inv_h2: T,
    input: &'a CartesianView<'b, T, 2>,
    orientation: Option<&'a CartesianView<'b, T, 2>>,
}

impl<'a, 'b, T: Real> FluxRule<'a, 'b, T> {
    spec fn frame(&self, idx: Seq<int>) -> Option<(T, T)> {
        match self.orientation {
            None => None,
            Some(theta) => Some(frame_at(cells_of(theta), idx)),
        }
    }

    spec fn ready(&self) -> bool {
        &&& self.input.valid()
        &&& positive(self.input.ext())
        &&& self.input.width() >= 1
        &&& self.orientation matches Some(theta) ==> theta.valid() && theta.ext()
            == self.input.ext()
    }

    /// The flux through one face of a cell.
    fn through(&self, idx: [isize; 2], frame: Option<(T, T)>, d: (T, T), side: u8) -> (r: T)
        requires
            side <= 3,
            d == face_gradient(cells_of(self.input), isizes(idx), side as int),
        ensures
            r == self.flux.flux(frame, cells_of(self.input), isizes(idx), side as int),
    {
        let (a, da) = match frame {
            None => self.flux.face(d.0, d.1),
            Some((c, s)) => {
                let (rx, ry) = rotate(c, s, d.0, d.1);
                self.flux.face(rx, ry)
            },
        };
        if side <= 1 {
            a.mul(a.mul(d.0).sub(da.mul(d.1)))
        } else {
            a.mul(a.mul(d.1).add(da.mul(d.0)))
        }
    }
}

impl<'a, 'b, T: Real> CellRule<T, 2> for FluxRule<'a, 'b, T> {
    closed spec fn reaches(&self, idx: Seq<int>) -> bool {
        self.ready() && in_ext(idx, self.input.ext())
    }

    closed spec fn value(&self, idx: Seq<int>, old: T) -> T {
        self.flux.divergence(self.frame(idx), self.inv_h2, cells_of(self.input), idx)
    }

    fn eval(&self, idx: [isize; 2], old: T) -> (r: T) {
        let v = self.input;
        let ghost c = isizes(idx);
        proof {
            assert(c[0] == idx[0] && c[1] == idx[1]);
            let ext = v.ext();
            assert(0 <= c[0] < ext[0]);
            assert(0 <= c[1] < ext[1]);
            assert forall|di: int, dj: int| -1 <= di <= 1 && -1 <= dj <= 1 implies #[trigger] in_slab(
                beside(c, di, dj),
                ext,
                v.width(),
            ) by {}
        }
        let frame = match self.orientation {
            None => None,
            Some(theta) => {
                proof {
                    crate::geometry::grid::lemma_interior_in_slab(c, theta.ext(), theta.width());
                }
                let t = theta.get(idx);
                Some((t.cos(), t.sin()))
            },
        };
        assert(frame == self.frame(c));
        let quarter = T::one().div(T::from_u64(4));
        let p_r = near(v, idx, 1, 0);
        let p_l = near(v, idx, -1, 0);
        let p_t = near(v, idx, 0, 1);
        let p_b = near(v, idx, 0, -1);
        let p_c = near(v, idx, 0, 0);
        let p_rt = near(v, idx, 1, 1);
        let p_lt = near(v, idx, -1, 1);
        let p_rb = near(v, idx, 1, -1);
        let p_lb = near(v, idx, -1, -1);
        let right = (p_r.sub(p_c), quarter.mul(p_rt.sub(p_rb).add(p_t).sub(p_b)));
        let left = (p_c.sub(p_l), quarter.mul(p_t.sub(p_b).add(p_lt).sub(p_lb)));
        let top = (quarter.mul(p_rt.sub(p_lt).add(p_r).sub(p_l)), p_t.sub(p_c));
        let bottom = (quarter.mul(p_r.sub(p_l).add(p_rb).sub(p_lb)), p_c.sub(p_b));
        let j_r = self.through(idx, frame, right, 0);
        let j_l = self.through(idx, frame, left, 1);
        let j_t = self.through(idx, frame, top, 2);
        let j_b = self.through(idx, frame, bottom, 3);
        j_r.sub(j_l).add(j_t).sub(j_b).mul(self.inv_h2)
    }
}

/// One over the cell area.
pub open spec fn inverse_area<T: Real>(h: spec_fn(int) -> T) -> T {
    T::one_spec().div_spec(h(0).mul_spec(h(1)))
}

impl<T: Real> KarmaRappelFlux<T> {
    /// Flux divergence with a per-cell crystal orientation field (multi-grain
    /// nucleation). The variational flux keeps *lab-frame* gradient components,
    /// while the anisotropy and its derivative are functions of the interface
    /// angle *relative to the crystal axes*: they are evaluated from face
    /// gradients rotated into the crystal frame. The orientation is read at the
    /// cell center for all four faces, so fluxes are exactly conservative within a
    /// grain and approximate only across grain boundaries.
    pub fn apply_oriented(
        &self,
        h: [T; 2],
        input: CartesianView<'_, T, 2>,
        orientation: CartesianView<'_, T, 2>,
        output: &mut CartesianViewMut<'_, T, 2>,
    )
        requires
            input.valid(),
            positive(input.ext()),
            input.width() >= 1,
            orientation.valid(),
            orientation.ext() == input.ext(),
            old(output).valid(),
            old(output).ext() == input.ext(),
        ensures
            final(output).data@ == with_interior(
                old(output).data@,
                input.ext(),
                old(output).width(),
                |idx: Seq<int>, v: T|
                    self.divergence(
                        Some(frame_at(cells_of(&orientation), idx)),
                        inverse_area(entries(h)),
                        cells_of(&input),
                        idx,
                    ),
            ),
            final(output).extent == old(output).extent,
            final(output).halo == old(output).halo,
            final(final(output).data)@ == final(old(output).data)@,
    {
        let inv_h2 = T::one().div(h[0].mul(h[1]));
        let rule = FluxRule { flux: self, inv_h2, input: &input, orientation: Some(&orientation) };
        let ghost start = output.data@;
        let ghost g = output.width();
        set_interior(output, &rule);
        assert(output.data@ =~= with_interior(
            start,
            input.ext(),
            g,
            |idx: Seq<int>, v: T|
                self.divergence(
                    Some(frame_at(cells_of(&orientation), idx)),
                    inverse_area(entries(h)),
                    cells_of(&input),
                    idx,
                ),
        ));
    }

    /// The axis-aligned kernel behind [`Stencil::apply`].
    fn kernel(
        &self,
        h: [T; 2],
        input: &CartesianView<'_, T, 2>,
        output: &mut CartesianViewMut<'_, T, 2>,
    )
        requires
            input.valid(),
            positive(input.ext()),
            input.width() >= 1,
            old(output).valid(),
            old(output).ext() == input.ext(),
        ensures
            final(output).data@ == with_interior(
                old(output).data@,
                input.ext(),
                old(output).width(),
                |idx: Seq<int>, v: T|
                    self.divergence(None, inverse_area(entries(h)), cells_of(input), idx),
            ),
            final(output).extent == old(output).extent,
            final(output).halo == old(output).halo,
            final(final(output).data)@ == final(old(output).data)@,
    {
        let inv_h2 = T::one().div(h[0].mul(h[1]));
        let rule = FluxRule { flux: self, inv_h2, input, orientation: None };
        let ghost start = output.data@;
        let ghost g = output.width();
        set_interior(output, &rule);
        assert(output.data@ =~= with_interior(
            start,
            input.ext(),
            g,
            |idx: Seq<int>, v: T|
                self.divergence(None, inverse_area(entries(h)), cells_of(input), idx),
        ));
    }
}

impl<T: Real, G: Grid<T, 2>> Stencil<T, G, 2> for KarmaRappelFlux<T> {
    open spec fn reach(&self) -> int {
        1
    }

    open spec fn applied(
        &self,
        spacing: spec_fn(int) -> T,
        input: spec_fn(Seq<int>) -> T,
        idx: Seq<int>,
    ) -> T {
        self.divergence(None, inverse_area(spacing), input, idx)
    }

    fn ghost_width(&self) -> (r: u32) {
        1
    }

    fn apply(
        &self,
        grid: &G,
        block: BlockId,
        input: CartesianView<'_, T, 2>,
        output: &mut CartesianViewMut<'_, T, 2>,
    ) {
        proof {
            grid.lemma_blocks();
        }
        let ghost b = block.id();
        let ghost start = output.data@;
        let ghost g = output.width();
        let h = grid.spacing(block);
        self.kernel(h, &input, output);
        proof {
            assert(entries(h)(0) == h[0] && entries(h)(1) == h[1]);
            assert(inverse_area(entries(h)) == inverse_area(spacing_fn::<T, G, 2>(grid, b)));
            assert(output.data@ =~= with_interior(
                start,
                grid.extent_of(b),
                g,
                |idx: Seq<int>, v: T|
                    <KarmaRappelFlux<T> as Stencil<T, G, 2>>::applied(
                        self,
                        spacing_fn::<T, G, 2>(grid, b),
                        reader(input.data(), input.ext(), input.width()),
                        idx,
                    ),
            ));
        }
    }
}

impl<T: Real> Discretizes<
    T,
    CartesianGrid<T, 2>,
    AnisotropicDivergence<T>,
    2,
> for FiniteVolume<T> {
    type Stencil = KarmaRappelFlux<T>;

    open spec fn built(&self, op: AnisotropicDivergence<T>) -> KarmaRappelFlux<T> {
        KarmaRappelFlux::precomputed(op.eps4, self.tol)
    }

    /// The flux assumes the same spacing along both axes.
    fn build(&self, grid: &CartesianGrid<T, 2>, op: AnisotropicDivergence<T>) -> (r:
        KarmaRappelFlux<T>) {
        KarmaRappelFlux::new(op.eps4, self.tol)
    }
}

impl<T: Real> Discretizes<T, AmrGrid<T, 2>, AnisotropicDivergence<T>, 2> for FiniteVolume<T> {
    type Stencil = KarmaRappelFlux<T>;

    open spec fn built(&self, op: AnisotropicDivergence<T>) -> KarmaRappelFlux<T> {
        KarmaRappelFlux::precomputed(op.eps4, self.tol)
    }

    /// The flux assumes the same spacing along both axes.
    fn build(&self, grid: &AmrGrid<T, 2>, op: AnisotropicDivergence<T>) -> (r: KarmaRappelFlux<
        T,
    >) {
        KarmaRappelFlux::new(op.eps4, self.tol)
    }
}

/// On a uniform grid the finite-volume Laplacian degenerates to the central
/// stencil, so the policy reuses it; a diffusion model runs under either policy
/// unchanged.
impl<T: Real, const D: usize> Discretizes<T, CartesianGrid<T, D>, Laplacian, D> for FiniteVolume<
    T,
> {
    type Stencil = CentralLaplacian;

    open spec fn built(&self, op: Laplacian) -> CentralLaplacian {
        CentralLaplacian
    }

    fn build(&self, grid: &CartesianGrid<T, D>, op: Laplacian) -> (r: CentralLaplacian) {
        CentralLaplacian
    }
}

impl<T: Real, const D: usize> Discretizes<T, AmrGrid<T, D>, Laplacian, D> for FiniteVolume<T> {
    type Stencil = CentralLaplacian;

    open spec fn built(&self, op: Laplacian) -> CentralLaplacian {
        CentralLaplacian
    }

    fn build(&self, grid: &AmrGrid<T, D>, op: Laplacian) -> (r: CentralLaplacian) {
        CentralLaplacian
    }
}

/// The divergence is conservative: within one crystal frame, what leaves a cell
/// through its right or top face is bit for bit what enters the next cell through
/// its left or bottom face.
pub proof fn fluxes_match_across_faces<T: Real>(
    flux: KarmaRappelFlux<T>,
    frame: Option<(T, T)>,
    p: spec_fn(Seq<int>) -> T,
    i: int,
    j: int,
)
    ensures
        flux.flux(frame, p, seq![i, j], 0) == flux.flux(frame, p, seq![i + 1, j], 1),
        flux.flux(frame, p, seq![i, j], 2) == flux.flux(frame, p, seq![i, j + 1], 3),
{
    let c = seq![i, j];
    let r = seq![i + 1, j];
    let t = seq![i, j + 1];
    assert(beside(c, 1, 0) =~= beside(r, 0, 0));
    assert(beside(c, 0, 0) =~= beside(r, -1, 0));
    assert(beside(c, 1, 1) =~= beside(r, 0, 1));
    assert(beside(c, 1, -1) =~= beside(r, 0, -1));
    assert(beside(c, 0, 1) =~= beside(r, -1, 1));
    assert(beside(c, 0, -1) =~= beside(r, -1, -1));
    assert(beside(c, 0, 1) =~= beside(t, 0, 0));
    assert(beside(c, 0, 0) =~= beside(t, 0, -1));
    assert(beside(c, 1, 1) =~= beside(t, 1, 0));
    assert(beside(c, -1, 1) =~= beside(t, -1, 0));
    assert(beside(c, 1, 0) =~= beside(t, 1, -1));
    assert(beside(c, -1, 0) =~= beside(t, -1, -1));
}

/// Anisotropy and angular derivative are functions of the gradient's value.
proof fn lemma_same_anisotropy<T: Real>(
    v: spec_fn(T) -> real,
    flux: KarmaRappelFlux<T>,
    d: (T, T),
    e: (T, T),
)
    requires
        exact(v),
        order_exact(v),
        v(flux.threshold()) >= 0 as real,
        v(d.0) == v(e.0),
        v(d.1) == v(e.1),
    ensures
        v(flux.face_of(d).0) == v(flux.face_of(e).0),
        v(flux.face_of(d).1) == v(flux.face_of(e).1),
{
    let dx2 = d.0.mul_spec(d.0);
    let dy2 = d.1.mul_spec(d.1);
    let sum = dx2.add_spec(dy2);
    let mag2 = sum.mul_spec(sum);
    let ex2 = e.0.mul_spec(e.0);
    let ey2 = e.1.mul_spec(e.1);
    let esum = ex2.add_spec(ey2);
    let emag2 = esum.mul_spec(esum);
    assert(v(mag2) == v(emag2));
    if !mag2.le_spec(flux.threshold()) {
        lemma_same_quotient(
            v,
            flux.relative().mul_spec(dx2.mul_spec(dx2).add_spec(dy2.mul_spec(dy2))),
            mag2,
            flux.relative().mul_spec(ex2.mul_spec(ex2).add_spec(ey2.mul_spec(ey2))),
            emag2,
        );
        lemma_same_quotient(
            v,
            flux.angular().neg_spec().mul_spec(d.0).mul_spec(d.1).mul_spec(dx2.sub_spec(dy2)),
            mag2,
            flux.angular().neg_spec().mul_spec(e.0).mul_spec(e.1).mul_spec(ex2.sub_spec(ey2)),
            emag2,
        );
    }
}

/// In exact arithmetic the anisotropy is the 4-fold harmonic of the angle: for a
/// gradient of length `m` whose direction has cosine `c` and sine `s`, above the
/// threshold, four times the anisotropy is `a (4 + e (3 + cos 4 theta))` and four times
/// its derivative `-4 a e sin 4 theta`, with the double-angle formulas applied twice to
/// `c` and `s`.
pub proof fn anisotropy_is_the_fourfold_harmonic<T: Real>(
    v: spec_fn(T) -> real,
    flux: KarmaRappelFlux<T>,
    d: (T, T),
    m: real,
    c: real,
    s: real,
)
    requires
        exact(v),
        order_exact(v),
        v(flux.threshold()) >= 0 as real,
        c * c + s * s == 1 as real,
        v(d.0) == m * c,
        v(d.1) == m * s,
        ((m * m) * (m * m)) > v(flux.threshold()),
    ensures
        ({
            let cos2 = c * c - s * s;
            let sin2 = c * s + c * s;
            let cos4 = cos2 * cos2 - sin2 * sin2;
            let sin4 = sin2 * cos2 + sin2 * cos2;
            &&& 4 as real * v(flux.face_of(d).0) == v(flux.mean()) * (4 as real + v(
                flux.relative(),
            ) * (3 as real + cos4))
            &&& 4 as real * v(flux.face_of(d).1) == -(v(flux.angular()) * sin4)
        }),
{
    let x = v(d.0);
    let y = v(d.1);
    let p = c * c;
    let q = s * s;
    let n = m * m;
    let z = n * n;
    let cross = c * s;
    let cos2 = p - q;
    let sin2 = cross + cross;
    let cos4 = cos2 * cos2 - sin2 * sin2;
    let sin4 = sin2 * cos2 + sin2 * cos2;
    let dx2 = d.0.mul_spec(d.0);
    let dy2 = d.1.mul_spec(d.1);
    let sum = dx2.add_spec(dy2);
    let mag2 = sum.mul_spec(sum);
    let a = v(flux.mean());
    let e = v(flux.relative());
    let k = v(flux.angular());
    lemma_products(m, c, m, c);
    lemma_products(m, s, m, s);
    lemma_products(m, c, m, s);
    lemma_distributes(n, p, q);
    assert(n * (1 as real) == n) by (nonlinear_arith);
    assert(v(sum) == n);
    assert(v(mag2) == z);
    assert(!mag2.le_spec(flux.threshold()));
    let w = p * p + q * q;
    assert(4 as real * w == 3 as real + cos4) by {
        lemma_products(c, s, c, s);
        assert((p - q) * (p - q) == p * p + q * q - 2 as real * (p * q)) by (nonlinear_arith);
        assert((p + q) * (p + q) == p * p + q * q + 2 as real * (p * q)) by (nonlinear_arith);
        assert((cross + cross) * (cross + cross) == 4 as real * (cross * cross))
            by (nonlinear_arith);
        assert((1 as real) * (1 as real) == 1 as real) by (nonlinear_arith);
    }
    let even = flux.relative().mul_spec(dx2.mul_spec(dx2).add_spec(dy2.mul_spec(dy2)));
    assert(v(even) == (e * w) * z) by {
        lemma_products(n, p, n, p);
        lemma_products(n, q, n, q);
        lemma_commutes(z, p * p);
        lemma_commutes(z, q * q);
        lemma_distributes(z, p * p, q * q);
        lemma_associates(e, w, z);
    }
    lemma_cancels(v(even.div_spec(mag2)), e * w, z);
    assert(v(flux.face_of(d).0) == a * (1 as real + e * w));
    assert(4 as real * (a * (1 as real + e * w)) == a * (4 as real + e * (4 as real * w)))
        by (nonlinear_arith);
    let odd = flux.angular().neg_spec().mul_spec(d.0).mul_spec(d.1).mul_spec(dx2.sub_spec(dy2));
    let t = cross * cos2;
    assert(v(odd) == (-(k * t)) * z) by {
        lemma_associates(-k, x, y);
        lemma_distributes(n, p, -q);
        lemma_negates(n, q);
        lemma_associates(-k, n * cross, n * cos2);
        lemma_products(n, cross, n, cos2);
        lemma_commutes(z, t);
        lemma_associates(-k, t, z);
        lemma_negates(k, t);
    }
    lemma_cancels(v(odd.div_spec(mag2)), -(k * t), z);
    lemma_distributes(cos2, cross, cross);
    assert(sin4 == 4 as real * t);
    assert(4 as real * (-(k * t)) == -(k * (4 as real * t))) by (nonlinear_arith);
}

/// In exact arithmetic a crystal at angle zero sees the lab frame: its divergence is
/// the one without an orientation.
pub proof fn upright_crystals_see_the_lab_frame<T: Real>(
    v: spec_fn(T) -> real,
    flux: KarmaRappelFlux<T>,
    frame: (T, T),
    inv_h2: T,
    p: spec_fn(Seq<int>) -> T,
    idx: Seq<int>,
)
    requires
        exact(v),
        order_exact(v),
        v(flux.threshold()) >= 0 as real,
        v(frame.0) == 1 as real,
        v(frame.1) == 0 as real,
    ensures
        v(flux.divergence(Some(frame), inv_h2, p, idx)) == v(
            flux.divergence(None, inv_h2, p, idx),
        ),
{
    assert forall|side: int| #[trigger]
        v(flux.flux(Some(frame), p, idx, side)) == v(flux.flux(None, p, idx, side)) by {
        let d = face_gradient(p, idx, side);
        let x = v(d.0);
        let y = v(d.1);
        assert(1 as real * x == x && 1 as real * y == y) by (nonlinear_arith);
        assert(0 as real * x == 0 as real && 0 as real * y == 0 as real) by (nonlinear_arith);
        lemma_same_anisotropy(v, flux, rotated(frame.0, frame.1, d.0, d.1), d);
    }
    assert(v(flux.flux(Some(frame), p, idx, 0)) == v(flux.flux(None, p, idx, 0)));
    assert(v(flux.flux(Some(frame), p, idx, 1)) == v(flux.flux(None, p, idx, 1)));
    assert(v(flux.flux(Some(frame), p, idx, 2)) == v(flux.flux(None, p, idx, 2)));
    assert(v(flux.flux(Some(frame), p, idx, 3)) == v(flux.flux(None, p, idx, 3)));
}

} // verus!
