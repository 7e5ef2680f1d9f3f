//! Phase-field models. The member so far is **Model C** dendritic solidification.
//!
//! Coupled fields on a 2-D grid, uniform or refined:
//!
//! ```text
//! tau(n) dphi/dt = div[A^2 grad(phi) - A A' perp(phi)] + phi - phi^3
//!                  - lambda u (1 - phi^2)^2   (+ noise)
//!          du/dt = D lap(u) + 1/2 dphi/dt
//! ```
//!
//! with 4-fold anisotropy `A(theta) = a (1 + e (3 + cos 4 theta) / 4)` (see
//! [`KarmaRappelFlux`] for its depth), relaxation time `tau = A^2`, thermal diffusivity
//! `D = a2 lambda`, and mirror boundaries.
//!
//! The model owns the relaxation time: the anisotropy appears in the *physics*, so
//! the mobility prefactor is evaluated here, while the discretization policy owns
//! how the anisotropic divergence is realized as a stencil. The model's threshold
//! should match the policy's regularization threshold.

use std::marker::PhantomData;

use vstd::prelude::*;

use crate::discretization::finite_volume::{
    anisotropy, cells_of, center_gradient, default_tol, frame_at, inverse_area, mean_anisotropy,
    modulation, KarmaRappelFlux,
};
use crate::discretization::operators::{AnisotropicDivergence, Discretizes, Laplacian};
use crate::discretization::stencil::{reader, spacing_fn, Stencil};
use crate::engine::driver::{Driver, DriverSet};
use crate::engine::scratch::{Scratch, ScratchSpec};
use crate::engine::state::{
    allocated_on, full_block, tailored, BlockStateMut, BlockValues, FieldHandle, FieldSpec, State,
    StateBuilder,
};
use crate::engine::storage::{Real, StorageBackend};
use crate::geometry::amr::grid::{lemma_domain_positive, AmrGrid};
use crate::geometry::amr::sync::{synchronize, synchronized};
use crate::geometry::boundary::MirrorFaces;
use crate::geometry::cartesian::CartesianGrid;
use crate::geometry::grid::{lemma_interior_in_slab, slab_fits, BlockId, Grid};
use crate::geometry::halo::{
    field_filled, fill_ghosts_mirror, lemma_field_filled, lemma_field_ok, ring_fits,
};
use crate::geometry::index::{in_ext, isizes, positive};
use crate::geometry::sweep::{
    lemma_swept_twice, set_interior, sweep_block, with_interior, with_one, write_field, CellRule,
};
use crate::geometry::view::CartesianView;
use crate::physics::model::{Model, RhsContext};
use crate::physics::paths::{lemma_tailored_one, Uniform};

verus! {

/// First constant of the thin-interface asymptotics.
pub open spec fn a1_spec<T: Real>() -> T {
    T::from_u64_spec(8836).div_spec(T::from_u64_spec(10000))
}

/// Second constant of the thin-interface asymptotics.
pub open spec fn a2_spec<T: Real>() -> T {
    T::from_u64_spec(6267).div_spec(T::from_u64_spec(10000))
}

/// Thermal diffusivity at which the interface kinetics vanish.
pub open spec fn thin_interface_diffusivity<T: Real>(lambda: T) -> T {
    a2_spec::<T>().mul_spec(lambda)
}

/// First constant of the thin-interface asymptotics.
pub fn a1<T: Real>() -> (r: T)
    ensures
        r == a1_spec::<T>(),
{
    T::from_u64(8836).div(T::from_u64(10000))
}

/// Second constant of the thin-interface asymptotics (sets the thermal diffusivity).
pub fn a2<T: Real>() -> (r: T)
    ensures
        r == a2_spec::<T>(),
{
    T::from_u64(6267).div(T::from_u64(10000))
}

/// Dendritic solidification: a coupled order parameter and dimensionless
/// temperature with 4-fold anisotropic surface energy.
///
/// Generic over its driver set: without noise it is deterministic and pairs with any
/// integrator; with one Wiener process it adds a noise term on the order parameter
/// and pairs with stochastic integrators only.
#[derive(Debug)]
pub struct ModelC<T: Real, N: DriverSet> {
    /// 4-fold anisotropy strength.
    pub eps4: T,
    /// Coupling between undercooling and the order parameter.
    pub lambda: T,
    /// Thermal diffusivity (thin-interface relation).
    pub d_thermal: T,
    /// Amplitude of the additive noise on the order parameter. Takes effect only
    /// with a Wiener driver.
    pub noise_amplitude: T,
    /// Threshold below which the interface is treated as flat.
    pub anisotropy_tol: T,
    /// The factor `a` of the anisotropy `A(theta) = a (1 + e (3 + cos 4 theta) / 4)`.
    pub a_bar: T,
    /// The modulation `e` of the anisotropy.
    pub eps_prime: T,
    /// Whether grains have orientations.
    pub orientations: bool,
    /// The order parameter, once registered.
    pub order: Option<FieldHandle<T>>,
    /// The temperature, once registered.
    pub temperature: Option<FieldHandle<T>>,
    /// The grain orientation, once registered.
    pub theta: Option<FieldHandle<T>>,
    /// The driver set.
    pub drivers: PhantomData<N>,
}

impl<T: Real, N: DriverSet> Clone for ModelC<T, N> {
    fn clone(&self) -> (r: Self)
        ensures
            r == *self,
    {
        ModelC {
            eps4: self.eps4,
            lambda: self.lambda,
            d_thermal: self.d_thermal,
            noise_amplitude: self.noise_amplitude,
            anisotropy_tol: self.anisotropy_tol,
            a_bar: self.a_bar,
            eps_prime: self.eps_prime,
            orientations: self.orientations,
            order: self.order,
            temperature: self.temperature,
            theta: self.theta,
            drivers: PhantomData,
        }
    }
}

/// One nucleation site: a solid seed with its own crystallographic orientation.
#[derive(Debug, Clone, Copy)]
pub struct Grain<T> {
    /// Seed center in physical coordinates.
    pub center: [T; 2],
    /// Seed radius (the profile's half-width sits at this radius).
    pub radius: T,
    /// Crystallographic orientation in radians.
    pub orientation: T,
}

/// The layout of Model C: the order parameter, moved by the clock and the Wiener
/// process, the temperature, moved by the clock, and with orientations a static
/// orientation field.
pub open spec fn solid_layout(orientations: bool, fields: Seq<FieldSpec>) -> bool {
    &&& fields.len() == (if orientations {
        3int
    } else {
        2int
    })
    &&& fields[0].name@ == "phi"@
    &&& fields[0].halo == 1
    &&& fields[0].drivers@ == seq![Driver::Time, Driver::Wiener(0)]
    &&& fields[1].name@ == "u"@
    &&& fields[1].halo == 1
    &&& fields[1].drivers@ == seq![Driver::Time]
    &&& orientations ==> fields[2].name@ == "theta0"@ && fields[2].halo == 0 && fields[2].drivers@
        == Seq::<Driver>::empty()
}

impl<T: Real, N: DriverSet> ModelC<T, N> {
    /// The two models have the same parameters.
    pub open spec fn same_parameters(&self, other: &Self) -> bool {
        &&& self.eps4 == other.eps4
        &&& self.lambda == other.lambda
        &&& self.d_thermal == other.d_thermal
        &&& self.noise_amplitude == other.noise_amplitude
        &&& self.anisotropy_tol == other.anisotropy_tol
        &&& self.a_bar == other.a_bar
        &&& self.eps_prime == other.eps_prime
        &&& self.orientations == other.orientations
    }

    /// Order parameter, temperature and, with orientations, orientation are fields 0
    /// to 2.
    pub open spec fn registered(&self) -> bool {
        &&& self.order matches Some(h) && h.pos() == 0
        &&& self.temperature matches Some(h) && h.pos() == 1
        &&& self.theta is Some == self.orientations
        &&& self.theta matches Some(h) ==> h.pos() == 2
    }

    /// A visually striking parameter set, without noise.
    pub fn classic() -> (r: Self)
        ensures
            r.eps4 == T::from_u64_spec(6).div_spec(T::from_u64_spec(100)),
            r.lambda == T::from_u64_spec(319).div_spec(T::from_u64_spec(100)),
            r.noise_amplitude == T::zero_spec(),
            r.d_thermal == thin_interface_diffusivity(r.lambda),
            r.anisotropy_tol == default_tol::<T>(),
            r.a_bar == mean_anisotropy(r.eps4),
            r.eps_prime == modulation(r.eps4),
            !r.orientations,
            r.order is None,
            r.temperature is None,
            r.theta is None,
    {
        let eps4 = T::from_u64(6).div(T::from_u64(100));
        Self::new(eps4, T::from_u64(319).div(T::from_u64(100)), T::zero())
    }

    /// A model with the given anisotropy strength, coupling and additive noise
    /// amplitude.
    pub fn new(eps4: T, lambda: T, noise_amplitude: T) -> (r: Self)
        ensures
            r.eps4 == eps4,
            r.lambda == lambda,
            r.noise_amplitude == noise_amplitude,
            r.d_thermal == thin_interface_diffusivity(lambda),
            r.anisotropy_tol == default_tol::<T>(),
            r.a_bar == mean_anisotropy(eps4),
            r.eps_prime == modulation(eps4),
            !r.orientations,
            r.order is None,
            r.temperature is None,
            r.theta is None,
    {
        let three = T::from_u64(3);
        let a_bar = three.mul_add(eps4.neg(), T::one());
        ModelC {
            eps4,
            lambda,
            d_thermal: a2::<T>().mul(lambda),
            noise_amplitude,
            anisotropy_tol: T::one().div(T::from_u64(100_000_000)),
            a_bar,
            eps_prime: three.mul(eps4).div(a_bar),
            orientations: false,
            order: None,
            temperature: None,
            theta: None,
            drivers: PhantomData,
        }
    }

    /// Enable per-grain crystallographic orientations: registers a static
    /// orientation field (assigned by [`Self::initialize_grains`]) and evaluates the
    /// anisotropy in each grain's own frame.
    pub fn with_orientations(self) -> (r: Self)
        ensures
            r == (ModelC { orientations: true, ..self }),
    {
        ModelC { orientations: true, ..self }
    }

    /// Handle of the order parameter.
    pub fn phi(&self) -> (r: FieldHandle<T>)
        requires
            self.order is Some,
        ensures
            Some(r) == self.order,
    {
        self.order.unwrap()
    }

    /// Handle of the dimensionless temperature.
    pub fn u(&self) -> (r: FieldHandle<T>)
        requires
            self.temperature is Some,
        ensures
            Some(r) == self.temperature,
    {
        self.temperature.unwrap()
    }

    /// Handle of the grain-orientation field (orientations enabled only).
    pub fn theta0(&self) -> (r: Option<FieldHandle<T>>)
        ensures
            r == self.theta,
    {
        self.theta
    }
}

/// The derivative of the order parameter at a cell: the flux divergence less the
/// double-well force and the coupling to the temperature `u`, over the squared
/// anisotropy `a`.
pub open spec fn relaxed<T: Real>(lambda: T, p: T, u: T, divergence: T, a: T) -> T {
    let g_prime = p.mul_spec(p).mul_add_spec(p, p.neg_spec());
    let one_m_p2 = p.mul_add_spec(p.neg_spec(), T::one_spec());
    let p_prime = one_m_p2.mul_spec(one_m_p2);
    lambda.mul_spec(u).mul_add_spec(p_prime.neg_spec(), divergence.sub_spec(g_prime)).div_spec(
        a.mul_spec(a),
    )
}

impl<T: Real, N: DriverSet> ModelC<T, N> {
    /// Cell-centered anisotropy for the mobility prefactor, from central
    /// differences: in the lab frame from the model's own constants, in a grain's
    /// frame from the stencil's.
    pub open spec fn mobility(
        &self,
        flux: KarmaRappelFlux<T>,
        frame: Option<(T, T)>,
        phi: spec_fn(Seq<int>) -> T,
        idx: Seq<int>,
    ) -> T {
        let d = center_gradient(phi, idx);
        match frame {
            None => anisotropy(
                self.a_bar,
                self.eps_prime,
                T::zero_spec(),
                self.anisotropy_tol,
                d.0,
                d.1,
            ).0,
            Some(_) => flux.framed(frame, d).0,
        }
    }

    /// The crystal frame at a cell of a block, if grains have orientations.
    pub open spec fn frame(&self, slabs: Seq<Seq<T>>, ext: Seq<int>, idx: Seq<int>) -> Option<
        (T, T),
    > {
        if self.orientations {
            Some(frame_at(reader(slabs[2], ext, 0), idx))
        } else {
            None
        }
    }

    /// The derivative of the order parameter at a cell of a block.
    pub open spec fn order_rate(
        &self,
        flux: KarmaRappelFlux<T>,
        spacing: spec_fn(int) -> T,
        slabs: Seq<Seq<T>>,
        ext: Seq<int>,
        idx: Seq<int>,
    ) -> T {
        let phi = reader(slabs[0], ext, 1);
        let frame = self.frame(slabs, ext, idx);
        relaxed(
            self.lambda,
            phi(idx),
            reader(slabs[1], ext, 1)(idx),
            flux.divergence(frame, inverse_area(spacing), phi, idx),
            self.mobility(flux, frame, phi, idx),
        )
    }

    fn center_anisotropy(&self, phi: &CartesianView<'_, T, 2>, idx: [isize; 2]) -> (r: T)
        requires
            crate::discretization::finite_volume::star_in(phi, isizes(idx)),
        ensures
            forall|flux: KarmaRappelFlux<T>|
                r == #[trigger] self.mobility(flux, None, cells_of(phi), isizes(idx)),
    {
        let (dx, dy) = crate::discretization::finite_volume::central(phi, idx);
        let dx2 = dx.mul(dx);
        let dy2 = dy.mul(dy);
        let sum = dx2.add(dy2);
        let mag2 = sum.mul(sum);
        if mag2.le(self.anisotropy_tol) {
            self.a_bar
        } else {
            self.a_bar.mul(
                T::one().add(self.eps_prime.mul(dx2.mul(dx2).add(dy2.mul(dy2))).div(mag2)),
            )
        }
    }
}

struct OrderRule<'a, 'b, T: Real, N: DriverSet> {
    model: &'a ModelC<T, N>,
    flux: &'a KarmaRappelFlux<T>,
    phi: &'a CartesianView<'b, T, 2>,
    u: &'a CartesianView<'b, T, 2>,
    theta: Option<CartesianView<'b, T, 2>>,
}

impl<'a, 'b, T: Real, N: DriverSet> OrderRule<'a, 'b, T, N> {
    spec fn frame(&self, idx: Seq<int>) -> Option<(T, T)> {
        match self.theta {
            None => None,
            Some(v) => Some(frame_at(cells_of(&v), idx)),
        }
    }
}

impl<'a, 'b, T: Real, N: DriverSet> CellRule<T, 2> for OrderRule<'a, 'b, T, N> {
    closed spec fn reaches(&self, idx: Seq<int>) -> bool {
        &&& self.phi.valid()
        &&& positive(self.phi.ext())
        &&& self.phi.width() >= 1
        &&& in_ext(idx, self.phi.ext())
        &&& self.u.valid()
        &&& self.u.ext() == self.phi.ext()
        &&& self.theta matches Some(v) ==> v.valid() && v.ext() == self.phi.ext()
    }

    closed spec fn value(&self, idx: Seq<int>, old: T) -> T {
        relaxed(
            self.model.lambda,
            cells_of(self.phi)(idx),
            cells_of(self.u)(idx),
            old,
            self.model.mobility(*self.flux, self.frame(idx), cells_of(self.phi), idx),
        )
    }

    fn eval(&self, idx: [isize; 2], old: T) -> (r: T) {
        let ghost c = isizes(idx);
        let ghost ext = self.phi.ext();
        proof {
            lemma_interior_in_slab(c, ext, self.phi.width());
            lemma_interior_in_slab(c, ext, self.u.width());
            crate::discretization::finite_volume::lemma_star_in(self.phi, c);
        }
        let p = self.phi.get(idx);
        let g_prime = p.mul(p).mul_add(p, p.neg());
        let one_m_p2 = p.mul_add(p.neg(), T::one());
        let p_prime = one_m_p2.mul(one_m_p2);
        let a = match &self.theta {
            None => self.model.center_anisotropy(self.phi, idx),
            Some(theta) => {
                proof {
                    lemma_interior_in_slab(c, ext, theta.width());
                }
                let t = theta.get(idx);
                self.flux.center_anisotropy_rotated(self.phi, idx, t.cos(), t.sin())
            },
        };
        proof {
            assert(a == self.model.mobility(*self.flux, self.frame(c), cells_of(self.phi), c));
        }
        self.model.lambda.mul(self.u.get(idx)).mul_add(p_prime.neg(), old.sub(g_prime)).div(
            a.mul(a),
        )
    }
}

struct HeatRule<'a, 'b, T: Real> {
    d_thermal: T,
    dphi: &'a CartesianView<'b, T, 2>,
}

impl<'a, 'b, T: Real> CellRule<T, 2> for HeatRule<'a, 'b, T> {
    closed spec fn reaches(&self, idx: Seq<int>) -> bool {
        self.dphi.valid() && in_ext(idx, self.dphi.ext())
    }

    closed spec fn value(&self, idx: Seq<int>, old: T) -> T {
        old.mul_add_spec(self.d_thermal, T::half_spec().mul_spec(cells_of(self.dphi)(idx)))
    }

    fn eval(&self, idx: [isize; 2], old: T) -> (r: T) {
        proof {
            lemma_interior_in_slab(isizes(idx), self.dphi.ext(), self.dphi.width());
        }
        old.mul_add(self.d_thermal, T::half().mul(self.dphi.get(idx)))
    }
}

/// The stencil a policy realizes the anisotropic divergence by.
pub open spec fn flux_of<
    T: Real,
    G: Grid<T, 2>,
    P: Discretizes<T, G, AnisotropicDivergence<T>, 2, Stencil = KarmaRappelFlux<T>>,
>(disc: &P, eps4: T) -> KarmaRappelFlux<T> {
    <P as Discretizes<T, G, AnisotropicDivergence<T>, 2>>::built(
        disc,
        AnisotropicDivergence { eps4 },
    )
}

/// The Laplacian of a field at a cell, as a policy realizes it.
pub open spec fn laplacian_of<T: Real, G: Grid<T, 2>, P: Discretizes<T, G, Laplacian, 2>>(
    disc: &P,
    spacing: spec_fn(int) -> T,
    input: spec_fn(Seq<int>) -> T,
    idx: Seq<int>,
) -> T {
    let stencil = <P as Discretizes<T, G, Laplacian, 2>>::built(disc, Laplacian);
    <P::Stencil as Stencil<T, G, 2>>::applied(&stencil, spacing, input, idx)
}

/// How far the Laplacian a policy builds reads.
pub open spec fn laplacian_reach<T: Real, G: Grid<T, 2>, P: Discretizes<T, G, Laplacian, 2>>(
    disc: &P,
) -> int {
    let stencil = <P as Discretizes<T, G, Laplacian, 2>>::built(disc, Laplacian);
    <P::Stencil as Stencil<T, G, 2>>::reach(&stencil)
}

/// The derivative of the order parameter on a block.
pub open spec fn order_slab<T: Real, N: DriverSet>(
    model: &ModelC<T, N>,
    flux: KarmaRappelFlux<T>,
    spacing: spec_fn(int) -> T,
    slabs: Seq<Seq<T>>,
    ext: Seq<int>,
    out: Seq<T>,
) -> Seq<T> {
    with_interior(
        out,
        ext,
        1,
        |idx: Seq<int>, old: T| model.order_rate(flux, spacing, slabs, ext, idx),
    )
}

/// What evaluating the vector field conjugate to `driver` on block `b` makes of the
/// output buffer.
pub open spec fn block_rates<
    T: Real,
    N: DriverSet,
    G: Grid<T, 2>,
    P: Discretizes<T, G, AnisotropicDivergence<T>, 2, Stencil = KarmaRappelFlux<T>> + Discretizes<
        T,
        G,
        Laplacian,
        2,
    >,
>(
    model: &ModelC<T, N>,
    driver: Driver,
    grid: &G,
    disc: &P,
    b: int,
    values: Seq<BlockValues<T>>,
    out: BlockValues<T>,
) -> BlockValues<T> {
    let ext = grid.extent_of(b);
    if driver is Wiener {
        with_one(
            out,
            0,
            with_interior(
                out.fields[0],
                ext,
                1,
                |idx: Seq<int>, old: T| model.noise_amplitude,
            ),
        )
    } else {
        let slabs = values[b].fields;
        let spacing = spacing_fn::<T, G, 2>(grid, b);
        let dphi = order_slab(
            model,
            flux_of::<T, G, P>(disc, model.eps4),
            spacing,
            slabs,
            ext,
            out.fields[0],
        );
        let du = with_interior(
            out.fields[1],
            ext,
            1,
            |idx: Seq<int>, old: T|
                laplacian_of::<T, G, P>(
                    disc,
                    spacing,
                    reader(slabs[1], ext, 1),
                    idx,
                ).mul_add_spec(
                    model.d_thermal,
                    T::half_spec().mul_spec(reader(dphi, ext, 1)(idx)),
                ),
        );
        with_one(with_one(out, 0, dphi), 1, du)
    }
}

/// The stochastic drivers are at most the first Wiener process.
pub open spec fn noise_only<N: DriverSet>() -> bool {
    forall|i: int| 0 <= i < N::size() ==> #[trigger] N::member(i) == Driver::Wiener(0)
}

impl<
    T: Real,
    N: DriverSet,
    P: Discretizes<
        T,
        CartesianGrid<T, 2>,
        AnisotropicDivergence<T>,
        2,
        Stencil = KarmaRappelFlux<T>,
    > + Discretizes<T, CartesianGrid<T, 2>, Laplacian, 2>,
> Model<T, CartesianGrid<T, 2>, P, 2> for ModelC<T, N> {
    type Drivers = N;

    open spec fn accepts(&self, grid: &CartesianGrid<T, 2>, disc: &P) -> bool {
        &&& self.theta is None
        &&& ring_fits(grid, 1)
        &&& slab_fits(grid.tile(), 0)
        &&& laplacian_reach::<T, CartesianGrid<T, 2>, P>(disc) <= 1
        &&& noise_only::<N>()
    }

    open spec fn supports(
        &self,
        grid: &CartesianGrid<T, 2>,
        disc: &P,
        fields: Seq<FieldSpec>,
    ) -> bool {
        &&& self.registered()
        &&& solid_layout(self.orientations, fields)
        &&& ring_fits(grid, 1)
        &&& laplacian_reach::<T, CartesianGrid<T, 2>, P>(disc) <= 1
        &&& noise_only::<N>()
    }

    open spec fn registers(&self, after: &Self, fields: Seq<FieldSpec>) -> bool {
        &&& self.same_parameters(after)
        &&& self.theta is None ==> after.registered()
        &&& solid_layout(self.orientations, fields)
    }

    open spec fn scratch_of(&self, grid: &CartesianGrid<T, 2>) -> ScratchSpec {
        ScratchSpec { slabs: 0, slab_len: 0 }
    }

    open spec fn filled(
        &self,
        grid: &CartesianGrid<T, 2>,
        fields: Seq<FieldSpec>,
        values: Seq<BlockValues<T>>,
        t: T,
    ) -> Seq<BlockValues<T>> {
        field_filled(
            grid,
            &MirrorFaces,
            fields,
            field_filled(grid, &MirrorFaces, fields, values, 0),
            1,
        )
    }

    open spec fn vector_field(
        &self,
        driver: Driver,
        grid: &CartesianGrid<T, 2>,
        disc: &P,
        t: T,
        b: int,
        fields: Seq<FieldSpec>,
        values: Seq<BlockValues<T>>,
        out: BlockValues<T>,
    ) -> BlockValues<T> {
        block_rates::<T, N, CartesianGrid<T, 2>, P>(self, driver, grid, disc, b, values, out)
    }

    open spec fn explicit_limit(&self, spacing: [T; 2]) -> Option<T> {
        Some(self.step_limit(spacing))
    }

    fn register_fields(&mut self, builder: &mut StateBuilder<T>) {
        self.register_solid(builder);
    }

    fn scratch_spec(&self, grid: &CartesianGrid<T, 2>) -> (r: ScratchSpec) {
        ScratchSpec::none()
    }

    fn fill_ghosts<S: StorageBackend<T>>(
        &self,
        grid: &CartesianGrid<T, 2>,
        disc: &P,
        state: &mut State<T, S>,
        t: T,
    ) {
        let ghost fields = state.fields();
        let ghost v = state.values();
        proof {
            lemma_field_ok(grid, state, 0);
            lemma_field_filled(grid, &MirrorFaces, fields, v, 0);
        }
        fill_ghosts_mirror(grid, state, self.phi());
        let ghost w = state.values();
        proof {
            assert(w == field_filled(grid, &MirrorFaces, fields, v, 0));
            lemma_field_ok(grid, state, 1);
            lemma_field_filled(grid, &MirrorFaces, fields, w, 1);
        }
        fill_ghosts_mirror(grid, state, self.u());
    }

    fn vector_field_block<S: StorageBackend<T>>(
        &self,
        driver: Driver,
        ctx: &RhsContext<'_, T, CartesianGrid<T, 2>, P>,
        state: &State<T, S>,
        out: &mut BlockStateMut<'_, T, S>,
        scratch: &mut Scratch<T, S>,
    ) {
        self.write_block(driver, ctx.grid, ctx.disc, ctx.block, state, out);
    }

    fn project<S: StorageBackend<T>>(
        &self,
        grid: &CartesianGrid<T, 2>,
        disc: &P,
        state: &mut State<T, S>,
    ) {
    }

    fn stiff_rows(
        &self,
        grid: &CartesianGrid<T, 2>,
        disc: &P,
        block: BlockId,
        field: FieldHandle<T>,
        rows: &mut [[T; 3]],
    ) -> (r: bool) {
        false
    }

    fn stable_dt_nonstiff(&self, spacing: [T; 2]) -> (r: Option<T>) {
        None
    }

    fn stable_dt(&self, spacing: [T; 2]) -> (r: Option<T>) {
        Some(self.stable_step(spacing))
    }
}

/// Every patch of a hierarchy carries slabs with one ring of ghosts and with none.
pub open spec fn patches_fit<T: Real>(grid: &AmrGrid<T, 2>) -> bool {
    forall|b: int|
        0 <= b < grid.blocks() ==> slab_fits(#[trigger] grid.extent_of(b), 1) && slab_fits(
            grid.extent_of(b),
            0,
        )
}

/// On a hierarchy, the moving fields are restricted to the coarse cells beneath the
/// patches before their ghosts are filled.
impl<
    T: Real,
    N: DriverSet,
    P: Discretizes<
        T,
        AmrGrid<T, 2>,
        AnisotropicDivergence<T>,
        2,
        Stencil = KarmaRappelFlux<T>,
    > + Discretizes<T, AmrGrid<T, 2>, Laplacian, 2>,
> Model<T, AmrGrid<T, 2>, P, 2> for ModelC<T, N> {
    type Drivers = N;

    open spec fn accepts(&self, grid: &AmrGrid<T, 2>, disc: &P) -> bool {
        &&& self.theta is None
        &&& patches_fit(grid)
        &&& laplacian_reach::<T, AmrGrid<T, 2>, P>(disc) <= 1
        &&& noise_only::<N>()
    }

    open spec fn supports(
        &self,
        grid: &AmrGrid<T, 2>,
        disc: &P,
        fields: Seq<FieldSpec>,
    ) -> bool {
        &&& self.registered()
        &&& solid_layout(self.orientations, fields)
        &&& laplacian_reach::<T, AmrGrid<T, 2>, P>(disc) <= 1
        &&& noise_only::<N>()
    }

    open spec fn registers(&self, after: &Self, fields: Seq<FieldSpec>) -> bool {
        &&& self.same_parameters(after)
        &&& self.theta is None ==> after.registered()
        &&& solid_layout(self.orientations, fields)
    }

    open spec fn scratch_of(&self, grid: &AmrGrid<T, 2>) -> ScratchSpec {
        ScratchSpec { slabs: 0, slab_len: 0 }
    }

    open spec fn filled(
        &self,
        grid: &AmrGrid<T, 2>,
        fields: Seq<FieldSpec>,
        values: Seq<BlockValues<T>>,
        t: T,
    ) -> Seq<BlockValues<T>> {
        synchronized(grid, fields, synchronized(grid, fields, values, 0), 1)
    }

    open spec fn vector_field(
        &self,
        driver: Driver,
        grid: &AmrGrid<T, 2>,
        disc: &P,
        t: T,
        b: int,
        fields: Seq<FieldSpec>,
        values: Seq<BlockValues<T>>,
        out: BlockValues<T>,
    ) -> BlockValues<T> {
        block_rates::<T, N, AmrGrid<T, 2>, P>(self, driver, grid, disc, b, values, out)
    }

    open spec fn explicit_limit(&self, spacing: [T; 2]) -> Option<T> {
        Some(self.step_limit(spacing))
    }

    fn register_fields(&mut self, builder: &mut StateBuilder<T>) {
        self.register_solid(builder);
    }

    fn scratch_spec(&self, grid: &AmrGrid<T, 2>) -> (r: ScratchSpec) {
        ScratchSpec::none()
    }

    fn fill_ghosts<S: StorageBackend<T>>(
        &self,
        grid: &AmrGrid<T, 2>,
        disc: &P,
        state: &mut State<T, S>,
        t: T,
    ) {
        proof {
            lemma_domain_positive(&grid.base_grid());
        }
        synchronize(grid, state, self.phi());
        synchronize(grid, state, self.u());
    }

    fn vector_field_block<S: StorageBackend<T>>(
        &self,
        driver: Driver,
        ctx: &RhsContext<'_, T, AmrGrid<T, 2>, P>,
        state: &State<T, S>,
        out: &mut BlockStateMut<'_, T, S>,
        scratch: &mut Scratch<T, S>,
    ) {
        self.write_block(driver, ctx.grid, ctx.disc, ctx.block, state, out);
    }

    fn project<S: StorageBackend<T>>(
        &self,
        grid: &AmrGrid<T, 2>,
        disc: &P,
        state: &mut State<T, S>,
    ) {
    }

    fn stiff_rows(
        &self,
        grid: &AmrGrid<T, 2>,
        disc: &P,
        block: BlockId,
        field: FieldHandle<T>,
        rows: &mut [[T; 3]],
    ) -> (r: bool) {
        false
    }

    fn stable_dt_nonstiff(&self, spacing: [T; 2]) -> (r: Option<T>) {
        None
    }

    fn stable_dt(&self, spacing: [T; 2]) -> (r: Option<T>) {
        Some(self.stable_step(spacing))
    }
}

impl<T: Real, N: DriverSet> ModelC<T, N> {
    /// The step limit at a spacing: deliberately below that of the five-point thermal
    /// update, where the grid-scale checkerboard mode is undamped.
    pub open spec fn step_limit(&self, spacing: [T; 2]) -> T {
        T::from_u64_spec(2).div_spec(T::from_u64_spec(10)).mul_spec(
            spacing[0].min_spec(spacing[1]).powi_spec(2),
        ).div_spec(self.d_thermal)
    }

    fn stable_step(&self, spacing: [T; 2]) -> (r: T)
        ensures
            r == self.step_limit(spacing),
    {
        T::from_u64(2).div(T::from_u64(10)).mul(spacing[0].min(spacing[1]).powi(2)).div(
            self.d_thermal,
        )
    }

    /// Declare the order parameter, the temperature and, with orientations, the
    /// static orientation.
    fn register_solid(&mut self, builder: &mut StateBuilder<T>)
        requires
            old(builder).fields().len() == 0,
        ensures
            old(self).same_parameters(final(self)),
            old(self).theta is None ==> final(self).registered(),
            solid_layout(old(self).orientations, final(builder).fields()),
    {
        let noisy: [Driver; 2] = [Driver::Time, Driver::Wiener(0)];
        assert(noisy@ =~= seq![Driver::Time, Driver::Wiener(0)]);
        self.order = Some(builder.register_driven("phi", 1, &noisy));
        let ghost f1 = builder.fields();
        assert(f1.drop_last().len() == 0);
        assert(f1.last() == f1[0]);
        self.temperature = Some(builder.register("u", 1));
        let ghost f2 = builder.fields();
        assert(f2.drop_last()[0] == f2[0] && f2.last() == f2[1]);
        if self.orientations {
            self.theta = Some(builder.register_static("theta0", 0));
            let ghost f3 = builder.fields();
            assert(f3.drop_last()[0] == f3[0] && f3.drop_last()[1] == f3[1] && f3.last() == f3[2]);
        }
        assert(solid_layout(self.orientations, builder.fields()));
    }

    /// The vector field conjugate to `driver` on one block.
    fn write_block<
        G: Grid<T, 2>,
        P: Discretizes<
            T,
            G,
            AnisotropicDivergence<T>,
            2,
            Stencil = KarmaRappelFlux<T>,
        > + Discretizes<T, G, Laplacian, 2>,
        S: StorageBackend<T>,
    >(
        &self,
        driver: Driver,
        grid: &G,
        disc: &P,
        block: BlockId,
        state: &State<T, S>,
        out: &mut BlockStateMut<'_, T, S>,
    )
        requires
            self.registered(),
            solid_layout(self.orientations, state.fields()),
            laplacian_reach::<T, G, P>(disc) <= 1,
            grid.valid(),
            block.id() < grid.blocks(),
            allocated_on::<T, T, G, 2>(state.fields(), grid, state.values()),
            old(out).layout.fields() == state.fields(),
            tailored(
                state.fields(),
                grid.extent_of(block.id()),
                driver,
                old(out).storage.values(),
            ),
            noise_only::<N>(),
            driver is Time || exists|i: int|
                0 <= i < N::size() && driver == #[trigger] N::member(i),
        ensures
            final(out).storage.values() == block_rates::<T, N, G, P>(
                self,
                driver,
                grid,
                disc,
                block.id(),
                state.values(),
                old(out).storage.values(),
            ),
            tailored(
                state.fields(),
                grid.extent_of(block.id()),
                driver,
                final(out).storage.values(),
            ),
            *final(final(out).storage) == *final(old(out).storage),
    {
        let ghost b = block.id();
        let ghost ext = grid.extent_of(b);
        let ghost fields = state.fields();
        let ghost start = out.storage.values();
        proof {
            grid.lemma_blocks();
            assert(full_block(fields, ext, state.values()[b]));
            assert(slab_fits(grid.extent_of(b), fields[0].halo as int));
            assert(fields[0].drivers@[0] == Driver::Time);
            assert(fields[0].drivers@[1] == Driver::Wiener(0));
            assert(fields[1].drivers@[0] == Driver::Time);
            assert(driver is Wiener ==> driver == Driver::Wiener(0));
        }
        match driver {
            Driver::Wiener(_) => {
                assert(fields[0].moved_by(driver));
                write_field(
                    out,
                    grid,
                    block,
                    self.phi(),
                    &Uniform { value: self.noise_amplitude },
                );
                proof {
                    let end = out.storage.values();
                    lemma_tailored_one(fields, ext, driver, start, 0, end.fields[0]);
                    assert(end.fields[0] =~= with_interior(
                        start.fields[0],
                        ext,
                        1,
                        |idx: Seq<int>, old: T| self.noise_amplitude,
                    ));
                    assert(end =~~= with_one(start, 0, end.fields[0]));
                }
            },
            _ => {
                assert(driver == Driver::Time);
                assert(fields[0].moved_by(driver) && fields[1].moved_by(driver));
                self.write_rates(grid, disc, block, state, out);
            },
        }
    }

    /// The derivatives of both fields on one block.
    fn write_rates<
        G: Grid<T, 2>,
        P: Discretizes<
            T,
            G,
            AnisotropicDivergence<T>,
            2,
            Stencil = KarmaRappelFlux<T>,
        > + Discretizes<T, G, Laplacian, 2>,
        S: StorageBackend<T>,
    >(
        &self,
        grid: &G,
        disc: &P,
        block: BlockId,
        state: &State<T, S>,
        out: &mut BlockStateMut<'_, T, S>,
    )
        requires
            self.registered(),
            solid_layout(self.orientations, state.fields()),
            laplacian_reach::<T, G, P>(disc) <= 1,
            grid.valid(),
            block.id() < grid.blocks(),
            allocated_on::<T, T, G, 2>(state.fields(), grid, state.values()),
            old(out).layout.fields() == state.fields(),
            tailored(
                state.fields(),
                grid.extent_of(block.id()),
                Driver::Time,
                old(out).storage.values(),
            ),
        ensures
            final(out).storage.values() == block_rates::<T, N, G, P>(
                self,
                Driver::Time,
                grid,
                disc,
                block.id(),
                state.values(),
                old(out).storage.values(),
            ),
            tailored(
                state.fields(),
                grid.extent_of(block.id()),
                Driver::Time,
                final(out).storage.values(),
            ),
            *final(final(out).storage) == *final(old(out).storage),
    {
        let ghost b = block.id();
        let ghost ext = grid.extent_of(b);
        let ghost fields = state.fields();
        let ghost slabs = state.values()[b].fields;
        let ghost start = out.storage.values();
        let ghost driver = Driver::Time;
        let ghost spacing = spacing_fn::<T, G, 2>(grid, b);
        proof {
            grid.lemma_blocks();
            assert(full_block(fields, ext, state.values()[b]));
            assert(slab_fits(grid.extent_of(b), fields[0].halo as int));
            assert(slab_fits(grid.extent_of(b), fields[1].halo as int));
            assert(fields[0].drivers@[0] == Driver::Time);
            assert(fields[1].drivers@[0] == Driver::Time);
            assert(fields[0].moved_by(driver) && fields[1].moved_by(driver));
        }
        let phi = state.view(grid, block, self.phi());
        let u = state.view(grid, block, self.u());
        let op = AnisotropicDivergence { eps4: self.eps4 };
        let flux = <P as Discretizes<T, G, AnisotropicDivergence<T>, 2>>::build(
            disc,
            grid,
            op,
        );
        let h = grid.spacing(block);
        let theta = match self.theta {
            None => None,
            Some(handle) => {
                assert(slab_fits(grid.extent_of(b), fields[2].halo as int));
                Some(state.view(grid, block, handle))
            },
        };
        {
            let mut dphi = out.view_mut(grid, block, self.phi());
            let ghost raw = dphi.data@;
            match theta {
                Some(orientation) => {
                    flux.apply_oriented(h, phi, orientation, &mut dphi);
                },
                None => {
                    <KarmaRappelFlux<T> as Stencil<T, G, 2>>::apply(
                        &flux,
                        grid,
                        block,
                        phi,
                        &mut dphi,
                    );
                },
            }
            let ghost first = dphi.data@;
            let rule = OrderRule { model: self, flux: &flux, phi: &phi, u: &u, theta };
            set_interior(&mut dphi, &rule);
            proof {
                let frame = |idx: Seq<int>| self.frame(slabs, ext, idx);
                let area = inverse_area(spacing);
                let divergence = |idx: Seq<int>, old: T|
                    flux.divergence(frame(idx), area, reader(slabs[0], ext, 1), idx);
                assert(inverse_area(crate::discretization::stencil::entries(h)) == area);
                assert(first =~= with_interior(raw, ext, 1, divergence));
                lemma_swept_twice(
                    raw,
                    ext,
                    1,
                    divergence,
                    |idx: Seq<int>, v: T| rule.value(idx, v),
                );
                assert(dphi.data@ =~= order_slab(self, flux, spacing, slabs, ext, raw));
            }
        }
        let ghost mid = out.storage.values();
        proof {
            assert(mid.fields[0] == order_slab(self, flux, spacing, slabs, ext, start.fields[0]));
            lemma_tailored_one(fields, ext, driver, start, 0, mid.fields[0]);
            assert(mid =~~= with_one(start, 0, mid.fields[0]));
        }
        let lap = <P as Discretizes<T, G, Laplacian, 2>>::build(
            disc,
            grid,
            Laplacian,
        );
        {
            let (mut du, dphi) = out.view_split(grid, block, self.u(), self.phi());
            let ghost raw = du.data@;
            lap.apply(grid, block, u, &mut du);
            let ghost first = du.data@;
            let rule = HeatRule { d_thermal: self.d_thermal, dphi: &dphi };
            set_interior(&mut du, &rule);
            proof {
                let laplacian = |idx: Seq<int>, old: T|
                    laplacian_of::<T, G, P>(disc, spacing, reader(slabs[1], ext, 1), idx);
                assert(first =~= with_interior(raw, ext, 1, laplacian));
                lemma_swept_twice(
                    raw,
                    ext,
                    1,
                    laplacian,
                    |idx: Seq<int>, v: T| rule.value(idx, v),
                );
                assert(du.data@ =~= with_interior(
                    raw,
                    ext,
                    1,
                    |idx: Seq<int>, old: T|
                        laplacian_of::<T, G, P>(
                            disc,
                            spacing,
                            reader(slabs[1], ext, 1),
                            idx,
                        ).mul_add_spec(
                            self.d_thermal,
                            T::half_spec().mul_spec(reader(mid.fields[0], ext, 1)(idx)),
                        ),
                ));
            }
        }
        proof {
            let end = out.storage.values();
            lemma_tailored_one(fields, ext, driver, mid, 1, end.fields[1]);
            assert(end =~~= with_one(mid, 1, end.fields[1]));
        }
    }
}

/// The box a block covers: its lower and upper corner.
pub struct Bounds<T> {
    /// Lower corner.
    pub lo: [T; 2],
    /// Upper corner.
    pub hi: [T; 2],
}

/// One coordinate of the lower corner of a block's box.
pub open spec fn low_edge<T: Real>(grid: &CartesianGrid<T, 2>, b: int, d: int) -> T {
    T::half_spec().mul_add_spec(grid.step(d).neg_spec(), grid.center_of(b, seq![0int, 0int], d))
}

/// One coordinate of the upper corner of a block's box.
pub open spec fn high_edge<T: Real>(grid: &CartesianGrid<T, 2>, b: int, d: int) -> T {
    T::half_spec().mul_add_spec(
        grid.step(d),
        grid.center_of(b, seq![grid.tile()[0] - 1, grid.tile()[1] - 1], d),
    )
}

/// The box is that of a block.
pub open spec fn bounds_of<T: Real>(grid: &CartesianGrid<T, 2>, b: int, bounds: Bounds<T>) -> bool {
    &&& bounds.lo[0] == low_edge(grid, b, 0)
    &&& bounds.lo[1] == low_edge(grid, b, 1)
    &&& bounds.hi[0] == high_edge(grid, b, 0)
    &&& bounds.hi[1] == high_edge(grid, b, 1)
}

/// Distance from a point to a block's box, zero inside.
pub open spec fn box_distance<T: Real>(grid: &CartesianGrid<T, 2>, b: int, c: [T; 2]) -> T {
    let dx = low_edge(grid, b, 0).sub_spec(c[0]).max_spec(
        c[0].sub_spec(high_edge(grid, b, 0)),
    ).max_spec(T::zero_spec());
    let dy = low_edge(grid, b, 1).sub_spec(c[1]).max_spec(
        c[1].sub_spec(high_edge(grid, b, 1)),
    ).max_spec(T::zero_spec());
    dx.hypot_spec(dy)
}

/// Distance from a point to a block's farthest corner.
pub open spec fn far_distance<T: Real>(grid: &CartesianGrid<T, 2>, b: int, c: [T; 2]) -> T {
    let dx = c[0].sub_spec(low_edge(grid, b, 0)).abs_spec().max_spec(
        c[0].sub_spec(high_edge(grid, b, 0)).abs_spec(),
    );
    let dy = c[1].sub_spec(low_edge(grid, b, 1)).abs_spec().max_spec(
        c[1].sub_spec(high_edge(grid, b, 1)).abs_spec(),
    );
    dx.hypot_spec(dy)
}

/// A seed's profile reaches a block: it saturates 27 units beyond the radius.
pub open spec fn seed_reaches<T: Real>(grid: &CartesianGrid<T, 2>, b: int, g: Grain<T>) -> bool {
    box_distance(grid, b, g.center).le_spec(g.radius.add_spec(T::from_u64_spec(27)))
}

/// The grains among the first `n` whose profile reaches a block.
pub open spec fn reaching<T: Real>(
    grid: &CartesianGrid<T, 2>,
    b: int,
    grains: Seq<Grain<T>>,
    n: nat,
) -> Seq<Grain<T>>
    decreases n,
{
    if n == 0 {
        Seq::empty()
    } else {
        let rest = reaching(grid, b, grains, (n - 1) as nat);
        if seed_reaches(grid, b, grains[n - 1]) {
            rest.push(grains[n - 1])
        } else {
            rest
        }
    }
}

/// The least distance of the first `n` grains to a block's farthest corner.
pub open spec fn far_limit<T: Real>(
    grid: &CartesianGrid<T, 2>,
    b: int,
    grains: Seq<Grain<T>>,
    n: nat,
) -> T
    decreases n,
{
    if n == 0 {
        T::largest_spec()
    } else {
        far_limit(grid, b, grains, (n - 1) as nat).min_spec(
            far_distance(grid, b, grains[n - 1].center),
        )
    }
}

/// The grains among the first `n` that come within `limit` of a block.
pub open spec fn within<T: Real>(
    grid: &CartesianGrid<T, 2>,
    b: int,
    grains: Seq<Grain<T>>,
    limit: T,
    n: nat,
) -> Seq<Grain<T>>
    decreases n,
{
    if n == 0 {
        Seq::empty()
    } else {
        let rest = within(grid, b, grains, limit, (n - 1) as nat);
        if box_distance(grid, b, grains[n - 1].center).le_spec(limit) {
            rest.push(grains[n - 1])
        } else {
            rest
        }
    }
}

/// A seed's profile at a point: solid inside its radius, melt outside.
pub open spec fn profile<T: Real>(g: Grain<T>, x: T, y: T) -> T {
    let r = x.sub_spec(g.center[0]).hypot_spec(y.sub_spec(g.center[1]));
    r.sub_spec(g.radius).div_spec(T::from_u64_spec(2).sqrt_spec()).tanh_spec().neg_spec()
}

/// The order parameter at a point: the largest profile, melt without a seed.
pub open spec fn solid_at<T: Real>(grains: Seq<Grain<T>>, x: T, y: T) -> T
    decreases grains.len(),
{
    if grains.len() == 0 {
        T::one_spec().neg_spec()
    } else {
        solid_at(grains.drop_last(), x, y).max_spec(profile(grains.last(), x, y))
    }
}

/// Squared distance of a seed's center to a point.
pub open spec fn squared_distance<T: Real>(g: Grain<T>, x: T, y: T) -> T {
    let dy = y.sub_spec(g.center[1]);
    dy.mul_add_spec(dy, x.sub_spec(g.center[0]).powi_spec(2))
}

/// The grain whose center is nearest to a point, the first of several.
pub open spec fn nearest<T: Real>(grains: Seq<Grain<T>>, x: T, y: T) -> Option<Grain<T>>
    decreases grains.len(),
{
    if grains.len() == 0 {
        None
    } else {
        match nearest(grains.drop_last(), x, y) {
            None => Some(grains.last()),
            Some(best) => if squared_distance(grains.last(), x, y).total_lt_spec(
                squared_distance(best, x, y),
            ) {
                Some(grains.last())
            } else {
                Some(best)
            },
        }
    }
}

/// The orientation at a point: that of the nearest grain.
pub open spec fn orientation_at<T: Real>(grains: Seq<Grain<T>>, x: T, y: T) -> T {
    match nearest(grains, x, y) {
        None => T::zero_spec(),
        Some(g) => g.orientation,
    }
}

/// A block after seeding.
pub open spec fn seeded_block<T: Real>(
    grid: &CartesianGrid<T, 2>,
    b: int,
    fields: Seq<FieldSpec>,
    oriented: bool,
    grains: Seq<Grain<T>>,
    u0: T,
    v: BlockValues<T>,
) -> BlockValues<T> {
    let ext = grid.tile();
    let near = reaching(grid, b, grains, grains.len());
    let candidates = within(
        grid,
        b,
        grains,
        far_limit(grid, b, grains, grains.len()),
        grains.len(),
    );
    let phi = with_one(
        v,
        0,
        with_interior(
            v.fields[0],
            ext,
            fields[0].halo as int,
            |idx: Seq<int>, old: T|
                solid_at(near, grid.center_of(b, idx, 0), grid.center_of(b, idx, 1)),
        ),
    );
    let cold = with_one(
        phi,
        1,
        with_interior(
            phi.fields[1],
            ext,
            fields[1].halo as int,
            |idx: Seq<int>, old: T| u0.neg_spec(),
        ),
    );
    if oriented {
        with_one(
            cold,
            2,
            with_interior(
                cold.fields[2],
                ext,
                fields[2].halo as int,
                |idx: Seq<int>, old: T|
                    orientation_at(candidates, grid.center_of(b, idx, 0), grid.center_of(b, idx, 1)),
            ),
        )
    } else {
        cold
    }
}

/// The contents after seeding: the order parameter is the largest of the seeds'
/// profiles, the melt is uniformly undercooled, and with orientations each cell
/// belongs to the nearest grain.
pub open spec fn seeded<T: Real>(
    grid: &CartesianGrid<T, 2>,
    fields: Seq<FieldSpec>,
    oriented: bool,
    grains: Seq<Grain<T>>,
    u0: T,
    v: Seq<BlockValues<T>>,
) -> Seq<BlockValues<T>> {
    Seq::new(v.len(), |b: int| seeded_block(grid, b, fields, oriented, grains, u0, v[b]))
}

impl<T: Real> Bounds<T> {
    fn of_block(grid: &CartesianGrid<T, 2>, block: BlockId) -> (r: Self)
        requires
            grid.valid(),
            block.id() < grid.blocks(),
            slab_fits(grid.tile(), 0),
        ensures
            bounds_of(grid, block.id(), r),
    {
        let h = grid.spacing(block);
        let cells = grid.block_cells();
        let first: [isize; 2] = [0, 0];
        proof {
            crate::geometry::grid::lemma_extent_fits(grid.tile(), 0);
            assert(grid.tile()[0] + 2 * 0 <= isize::MAX);
            assert(grid.tile()[1] + 2 * 0 <= isize::MAX);
            assert(grid.tile()[0] > 0 && grid.tile()[1] > 0);
        }
        let last: [isize; 2] = [cells[0] as isize - 1, cells[1] as isize - 1];
        proof {
            assert(isizes(first) =~= seq![0int, 0int]);
            assert(isizes(last) =~= seq![grid.tile()[0] - 1, grid.tile()[1] - 1]);
        }
        let c0 = grid.cell_center(block, first);
        let c1 = grid.cell_center(block, last);
        let half = T::half();
        Bounds {
            lo: [half.mul_add(h[0].neg(), c0[0]), half.mul_add(h[1].neg(), c0[1])],
            hi: [half.mul_add(h[0], c1[0]), half.mul_add(h[1], c1[1])],
        }
    }

    fn distance(&self, c: [T; 2]) -> (r: T)
        ensures
            forall|grid: &CartesianGrid<T, 2>, b: int|
                bounds_of(grid, b, *self) ==> r == #[trigger] box_distance(grid, b, c),
    {
        let dx = self.lo[0].sub(c[0]).max(c[0].sub(self.hi[0])).max(T::zero());
        let dy = self.lo[1].sub(c[1]).max(c[1].sub(self.hi[1])).max(T::zero());
        dx.hypot(dy)
    }

    fn farthest(&self, c: [T; 2]) -> (r: T)
        ensures
            forall|grid: &CartesianGrid<T, 2>, b: int|
                bounds_of(grid, b, *self) ==> r == #[trigger] far_distance(grid, b, c),
    {
        let dx = c[0].sub(self.lo[0]).abs().max(c[0].sub(self.hi[0]).abs());
        let dy = c[1].sub(self.lo[1]).abs().max(c[1].sub(self.hi[1]).abs());
        dx.hypot(dy)
    }
}

/// The grains whose profile reaches a block.
fn near_grains<T: Real>(
    grid: &CartesianGrid<T, 2>,
    block: BlockId,
    bounds: &Bounds<T>,
    grains: &[Grain<T>],
) -> (r: Vec<Grain<T>>)
    requires
        bounds_of(grid, block.id(), *bounds),
    ensures
        r@ == reaching(grid, block.id(), grains@, grains@.len()),
{
    let mut near: Vec<Grain<T>> = Vec::new();
    let mut i: usize = 0;
    while i < grains.len()
        invariant
            i <= grains@.len(),
            bounds_of(grid, block.id(), *bounds),
            near@ == reaching(grid, block.id(), grains@, i as nat),
        decreases grains.len() - i,
    {
        let g = grains[i];
        if bounds.distance(g.center).le(g.radius.add(T::from_u64(27))) {
            near.push(g);
        }
        i += 1;
    }
    near
}

/// The grains that may be nearest somewhere on a block: a grain qualifies only if
/// its closest approach beats every grain's farthest corner.
fn nearest_candidates<T: Real>(
    grid: &CartesianGrid<T, 2>,
    block: BlockId,
    bounds: &Bounds<T>,
    grains: &[Grain<T>],
) -> (r: Vec<Grain<T>>)
    requires
        bounds_of(grid, block.id(), *bounds),
    ensures
        r@ == within(
            grid,
            block.id(),
            grains@,
            far_limit(grid, block.id(), grains@, grains@.len()),
            grains@.len(),
        ),
{
    let mut limit = T::largest();
    let mut i: usize = 0;
    while i < grains.len()
        invariant
            i <= grains@.len(),
            bounds_of(grid, block.id(), *bounds),
            limit == far_limit(grid, block.id(), grains@, i as nat),
        decreases grains.len() - i,
    {
        limit = limit.min(bounds.farthest(grains[i].center));
        i += 1;
    }
    let mut kept: Vec<Grain<T>> = Vec::new();
    let mut j: usize = 0;
    while j < grains.len()
        invariant
            j <= grains@.len(),
            bounds_of(grid, block.id(), *bounds),
            limit == far_limit(grid, block.id(), grains@, grains@.len()),
            kept@ == within(grid, block.id(), grains@, limit, j as nat),
        decreases grains.len() - j,
    {
        let g = grains[j];
        if bounds.distance(g.center).le(limit) {
            kept.push(g);
        }
        j += 1;
    }
    kept
}

struct SolidRule<'a, T: Real> {
    grid: &'a CartesianGrid<T, 2>,
    block: BlockId,
    near: &'a Vec<Grain<T>>,
}

impl<'a, T: Real> CellRule<T, 2> for SolidRule<'a, T> {
    closed spec fn reaches(&self, idx: Seq<int>) -> bool {
        self.grid.valid() && self.block.id() < self.grid.blocks()
    }

    closed spec fn value(&self, idx: Seq<int>, old: T) -> T {
        solid_at(
            self.near@,
            self.grid.center_of(self.block.id(), idx, 0),
            self.grid.center_of(self.block.id(), idx, 1),
        )
    }

    fn eval(&self, idx: [isize; 2], old: T) -> (r: T) {
        let at = self.grid.cell_center(self.block, idx);
        let x = at[0];
        let y = at[1];
        let mut best = T::one().neg();
        let mut i: usize = 0;
        proof {
            assert(self.near@.take(0).len() == 0);
        }
        while i < self.near.len()
            invariant
                i <= self.near@.len(),
                best == solid_at(self.near@.take(i as int), x, y),
            decreases self.near.len() - i,
        {
            let g = self.near[i];
            let r = x.sub(g.center[0]).hypot(y.sub(g.center[1]));
            let p = r.sub(g.radius).div(T::from_u64(2).sqrt()).tanh().neg();
            best = best.max(p);
            proof {
                let more = self.near@.take(i + 1);
                assert(more.drop_last() =~= self.near@.take(i as int));
                assert(more.last() == g);
            }
            i += 1;
        }
        assert(self.near@.take(i as int) =~= self.near@);
        best
    }
}

struct OrientationRule<'a, T: Real> {
    grid: &'a CartesianGrid<T, 2>,
    block: BlockId,
    candidates: &'a Vec<Grain<T>>,
}

fn gap<T: Real>(g: &Grain<T>, x: T, y: T) -> (r: T)
    ensures
        r == squared_distance(*g, x, y),
{
    let dy = y.sub(g.center[1]);
    dy.mul_add(dy, x.sub(g.center[0]).powi(2))
}

impl<'a, T: Real> CellRule<T, 2> for OrientationRule<'a, T> {
    closed spec fn reaches(&self, idx: Seq<int>) -> bool {
        self.grid.valid() && self.block.id() < self.grid.blocks()
    }

    closed spec fn value(&self, idx: Seq<int>, old: T) -> T {
        orientation_at(
            self.candidates@,
            self.grid.center_of(self.block.id(), idx, 0),
            self.grid.center_of(self.block.id(), idx, 1),
        )
    }

    fn eval(&self, idx: [isize; 2], old: T) -> (r: T) {
        let at = self.grid.cell_center(self.block, idx);
        let x = at[0];
        let y = at[1];
        let mut best: Option<Grain<T>> = None;
        let mut i: usize = 0;
        proof {
            assert(self.candidates@.take(0).len() == 0);
        }
        while i < self.candidates.len()
            invariant
                i <= self.candidates@.len(),
                best == nearest(self.candidates@.take(i as int), x, y),
            decreases self.candidates.len() - i,
        {
            let g = self.candidates[i];
            proof {
                let more = self.candidates@.take(i + 1);
                assert(more.drop_last() =~= self.candidates@.take(i as int));
                assert(more.last() == g);
            }
            best = match best {
                None => Some(g),
                Some(b) => if gap(&g, x, y).total_lt(gap(&b, x, y)) {
                    Some(g)
                } else {
                    Some(b)
                },
            };
            i += 1;
        }
        assert(self.candidates@.take(i as int) =~= self.candidates@);
        match best {
            None => T::zero(),
            Some(g) => g.orientation,
        }
    }
}

/// Seeds without orientation.
pub open spec fn unoriented<T: Real>(seeds: Seq<([T; 2], T)>) -> Seq<Grain<T>> {
    Seq::new(
        seeds.len(),
        |i: int|
            Grain { center: seeds[i].0, radius: seeds[i].1, orientation: T::zero_spec() },
    )
}

impl<T: Real, N: DriverSet> ModelC<T, N> {
    /// The state can be seeded.
    pub open spec fn seedable(
        &self,
        grid: &CartesianGrid<T, 2>,
        fields: Seq<FieldSpec>,
        values: Seq<BlockValues<T>>,
    ) -> bool {
        &&& self.registered()
        &&& fields.len() >= (if self.orientations {
            3int
        } else {
            2int
        })
        &&& grid.valid()
        &&& slab_fits(grid.tile(), 0)
        &&& allocated_on::<T, T, CartesianGrid<T, 2>, 2>(fields, grid, values)
    }

    /// A standard initial condition: a single solid seed in a uniformly undercooled
    /// melt.
    pub fn initialize<S: StorageBackend<T>>(
        &self,
        grid: &CartesianGrid<T, 2>,
        state: &mut State<T, S>,
        seed_center: [T; 2],
        seed_radius: T,
        u0: T,
    )
        requires
            self.seedable(grid, old(state).fields(), old(state).values()),
        ensures
            final(state).fields() == old(state).fields(),
            final(state).values() == seeded(
                grid,
                old(state).fields(),
                self.orientations,
                unoriented(seq![(seed_center, seed_radius)]),
                u0,
                old(state).values(),
            ),
            self.seedable(grid, old(state).fields(), final(state).values()),
    {
        let seeds: [([T; 2], T); 1] = [(seed_center, seed_radius)];
        assert(seeds@ =~= seq![(seed_center, seed_radius)]);
        self.initialize_seeds(grid, state, &seeds, u0);
    }

    /// Multi-seed initial condition for nucleation studies: each seed is a center
    /// and a radius, combined by pointwise maximum, in a uniformly undercooled melt.
    pub fn initialize_seeds<S: StorageBackend<T>>(
        &self,
        grid: &CartesianGrid<T, 2>,
        state: &mut State<T, S>,
        seeds: &[([T; 2], T)],
        u0: T,
    )
        requires
            self.seedable(grid, old(state).fields(), old(state).values()),
        ensures
            final(state).fields() == old(state).fields(),
            final(state).values() == seeded(
                grid,
                old(state).fields(),
                self.orientations,
                unoriented(seeds@),
                u0,
                old(state).values(),
            ),
            self.seedable(grid, old(state).fields(), final(state).values()),
    {
        let mut grains: Vec<Grain<T>> = Vec::new();
        let mut i: usize = 0;
        while i < seeds.len()
            invariant
                i <= seeds@.len(),
                grains@ == unoriented(seeds@).take(i as int),
            decreases seeds.len() - i,
        {
            let (center, radius) = seeds[i];
            grains.push(Grain { center, radius, orientation: T::zero() });
            assert(grains@ =~= unoriented(seeds@).take(i + 1));
            i += 1;
        }
        assert(grains@ =~= unoriented(seeds@));
        self.initialize_grains(grid, state, grains.as_slice(), u0);
    }

    /// Nucleation initial condition with per-grain orientations. The order parameter
    /// is the pointwise maximum of the seeds' profiles; if orientations are enabled,
    /// each cell gets the orientation of the nearest seed. The melt is uniformly
    /// undercooled.
    ///
    /// Each block evaluates only the seeds that matter there: a profile saturates
    /// close to its seed, and a grain is a candidate for the nearest seed only if its
    /// closest approach beats every grain's farthest corner.
    pub fn initialize_grains<S: StorageBackend<T>>(
        &self,
        grid: &CartesianGrid<T, 2>,
        state: &mut State<T, S>,
        grains: &[Grain<T>],
        u0: T,
    )
        requires
            self.seedable(grid, old(state).fields(), old(state).values()),
        ensures
            final(state).fields() == old(state).fields(),
            final(state).values() == seeded(
                grid,
                old(state).fields(),
                self.orientations,
                grains@,
                u0,
                old(state).values(),
            ),
            self.seedable(grid, old(state).fields(), final(state).values()),
    {
        let ghost v = state.values();
        let ghost fields = state.fields();
        let ghost oriented = self.orientations;
        let ghost want = seeded(grid, fields, oriented, grains@, u0, v);
        proof {
            grid.lemma_blocks();
        }
        let n = grid.num_blocks();
        let mut b: usize = 0;
        while b < n
            invariant
                b <= n,
                n == grid.blocks(),
                n <= u32::MAX,
                n == v.len(),
                state.fields() == fields,
                state.values().len() == n,
                self.seedable(grid, fields, state.values()),
                oriented == self.orientations,
                want == seeded(grid, fields, oriented, grains@, u0, v),
                forall|c: int| 0 <= c < b ==> #[trigger] state.values()[c] == want[c],
                forall|c: int| b <= c < n ==> #[trigger] state.values()[c] == v[c],
            decreases n - b,
        {
            self.seed_block(grid, state, BlockId(b as u32), grains, u0);
            b += 1;
        }
        assert(state.values() =~= want);
    }

    fn seed_block<S: StorageBackend<T>>(
        &self,
        grid: &CartesianGrid<T, 2>,
        state: &mut State<T, S>,
        block: BlockId,
        grains: &[Grain<T>],
        u0: T,
    )
        requires
            self.seedable(grid, old(state).fields(), old(state).values()),
            block.id() < grid.blocks(),
        ensures
            final(state).fields() == old(state).fields(),
            final(state).values() == old(state).values().update(
                block.id(),
                seeded_block(
                    grid,
                    block.id(),
                    old(state).fields(),
                    self.orientations,
                    grains@,
                    u0,
                    old(state).values()[block.id()],
                ),
            ),
            self.seedable(grid, old(state).fields(), final(state).values()),
    {
        let ghost b = block.id();
        let ghost fields = state.fields();
        let ghost v = state.values();
        let ghost ext = grid.tile();
        proof {
            assert(grid.extent_of(b) == ext);
            assert(full_block(fields, ext, v[b]));
        }
        let bounds = Bounds::of_block(grid, block);
        let near = near_grains(grid, block, &bounds, grains);
        let solid = SolidRule { grid, block, near: &near };
        sweep_block(grid, state, block, self.phi(), &solid);
        let ghost v1 = state.values();
        proof {
            assert(v1[b] =~~= with_one(
                v[b],
                0,
                with_interior(
                    v[b].fields[0],
                    ext,
                    fields[0].halo as int,
                    |idx: Seq<int>, old: T|
                        solid_at(
                            reaching(grid, b, grains@, grains@.len()),
                            grid.center_of(b, idx, 0),
                            grid.center_of(b, idx, 1),
                        ),
                ),
            ));
        }
        sweep_block(grid, state, block, self.u(), &Uniform { value: u0.neg() });
        let ghost v2 = state.values();
        proof {
            assert(v2[b] =~~= with_one(
                v1[b],
                1,
                with_interior(
                    v1[b].fields[1],
                    ext,
                    fields[1].halo as int,
                    |idx: Seq<int>, old: T| u0.neg_spec(),
                ),
            ));
        }
        if let Some(theta) = self.theta {
            let candidates = nearest_candidates(grid, block, &bounds, grains);
            let rule = OrientationRule { grid, block, candidates: &candidates };
            sweep_block(grid, state, block, theta, &rule);
            proof {
                let v3 = state.values();
                assert(v3[b] =~~= with_one(
                    v2[b],
                    2,
                    with_interior(
                        v2[b].fields[2],
                        ext,
                        fields[2].halo as int,
                        |idx: Seq<int>, old: T|
                            orientation_at(
                                within(
                                    grid,
                                    b,
                                    grains@,
                                    far_limit(grid, b, grains@, grains@.len()),
                                    grains@.len(),
                                ),
                                grid.center_of(b, idx, 0),
                                grid.center_of(b, idx, 1),
                            ),
                    ),
                ));
            }
        }
        proof {
            let end = state.values();
            assert(end =~= v.update(
                b,
                seeded_block(grid, b, fields, self.orientations, grains@, u0, v[b]),
            ));
        }
    }
}

} // verus!
