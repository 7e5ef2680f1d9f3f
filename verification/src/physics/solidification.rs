//! How a solidifying cell moves: relaxation of the order parameter, release of latent
//! heat, and how long a step may be.
use vstd::prelude::*;

use crate::discretization::finite_volume::{
    center_gradient, default_tol, inverse_area, KarmaRappelFlux,
};
use crate::discretization::operators::{AnisotropicDivergence, Discretizes, Laplacian};
use crate::discretization::stencil::{reader, spacing_fn};
use crate::engine::driver::{Driver, DriverSet};
use crate::engine::exact::{
    exact, lemma_associates, lemma_cancels, lemma_commutes, lemma_distributes, lemma_negates,
    lemma_products, minima_exact, order_exact, power, powers_exact,
};
use crate::engine::state::{allocated_on, full_block, BlockValues, FieldSpec};
use crate::engine::storage::Real;
use crate::geometry::amr::exchange::{
    lemma_synchronized_allocated, synchronized_fields_are_nested,
};
use crate::geometry::amr::grid::{level_step, AmrGrid};
use crate::geometry::amr::restriction::{child_mean, refined_at};
use crate::geometry::amr::sync::synchronized;
use crate::geometry::boundary::MirrorFaces;
use crate::geometry::cartesian::CartesianGrid;
use crate::geometry::grid::{
    ghosted, in_slab, lemma_slab_index, lemma_spread, slab_at, slab_index, spread, Grid,
};
use crate::geometry::halo::{
    cell_value, field_filled, field_slabs, lemma_field_filled, mirror_fill_is_a_global_lookup,
    resolved_cell,
};
use crate::geometry::index::{in_ext, ints, plus, positive, volume};
use crate::geometry::placement::levels_divide_the_spacing;
use crate::integrators::subcycling::substeps;
use crate::physics::inventory::whole;
use crate::physics::model::Model;
use crate::physics::phasefield::{
    a1_spec, block_rates, flux_of, laplacian_of, relaxed, thin_interface_diffusivity, ModelC,
};
use crate::physics::value_surface::{close_to, nearest_exact};

verus! {

/// Over the reals the double-well force: `p - p^3`.
pub open spec fn well_force(p: real) -> real {
    p - p * (p * p)
}

/// Over the reals the shape of the thermal coupling: `(1 - p^2)^2`, nothing in solid or
/// melt and one in the middle of the interface.
pub open spec fn coupling_shape(p: real) -> real {
    (1 as real - p * p) * (1 as real - p * p)
}

proof fn lemma_relaxed<T: Real>(v: spec_fn(T) -> real, lambda: T, p: T, u: T, d: T, a: T)
    requires
        exact(v),
        v(a) != 0 as real,
    ensures
        v(relaxed(lambda, p, u, d, a)) * (v(a) * v(a)) == v(d) + well_force(v(p)) - (v(lambda) * v(
            u,
        )) * coupling_shape(v(p)),
{
    let x = v(p);
    let g_prime = p.mul_spec(p).mul_add_spec(p, p.neg_spec());
    let one_m_p2 = p.mul_add_spec(p.neg_spec(), T::one_spec());
    let p_prime = one_m_p2.mul_spec(one_m_p2);
    lemma_negates(x, x);
    lemma_associates(x, x, x);
    assert(v(g_prime) == x * (x * x) - x);
    assert(v(one_m_p2) == 1 as real - x * x);
    assert(v(p_prime) == coupling_shape(x));
    lemma_negates(v(lambda) * v(u), v(p_prime));
    let square = v(a.mul_spec(a));
    if square == 0 as real {
        assert(0 as real * v(a) == 0 as real) by (nonlinear_arith);
        lemma_cancels(v(a), 0 as real, v(a));
    }
}

/// In exact arithmetic the order parameter of a cell relaxes by its equation: times the
/// squared anisotropy, its rate is the flux divergence plus the double-well force, less
/// the coupling `lambda u (1 - phi^2)^2` to the temperature.
pub proof fn order_parameters_relax<
    T: Real,
    N: DriverSet,
    G: Grid<T, 2>,
    P: Discretizes<T, G, AnisotropicDivergence<T>, 2, Stencil = KarmaRappelFlux<T>> + Discretizes<
        T,
        G,
        Laplacian,
        2,
    >,
>(
    v: spec_fn(T) -> real,
    model: &ModelC<T, N>,
    grid: &G,
    disc: &P,
    b: int,
    values: Seq<BlockValues<T>>,
    out: BlockValues<T>,
    o: int,
)
    requires
        exact(v),
        out.fields.len() >= 2,
        positive(grid.extent_of(b)),
        out.fields[0].len() == volume(ghosted(grid.extent_of(b), 1)),
        0 <= o < out.fields[0].len(),
        in_ext(slab_index(o, grid.extent_of(b), 1), grid.extent_of(b)),
        ({
            let ext = grid.extent_of(b);
            let idx = slab_index(o, ext, 1);
            v(
                model.mobility(
                    flux_of::<T, G, P>(disc, model.eps4),
                    model.frame(values[b].fields, ext, idx),
                    reader(values[b].fields[0], ext, 1),
                    idx,
                ),
            ) != 0 as real
        }),
    ensures
        ({
            let ext = grid.extent_of(b);
            let idx = slab_index(o, ext, 1);
            let flux = flux_of::<T, G, P>(disc, model.eps4);
            let phi = reader(values[b].fields[0], ext, 1);
            let frame = model.frame(values[b].fields, ext, idx);
            let a = v(model.mobility(flux, frame, phi, idx));
            let p = v(values[b].fields[0][o]);
            let u = v(reader(values[b].fields[1], ext, 1)(idx));
            let next = block_rates::<T, N, G, P>(
                model,
                Driver::Time,
                grid,
                disc,
                b,
                values,
                out,
            );
            v(next.fields[0][o]) * (a * a) == v(
                flux.divergence(frame, inverse_area(spacing_fn::<T, G, 2>(grid, b)), phi, idx),
            ) + well_force(p) - (v(model.lambda) * u) * coupling_shape(p)
        }),
{
    let ext = grid.extent_of(b);
    let idx = slab_index(o, ext, 1);
    let flux = flux_of::<T, G, P>(disc, model.eps4);
    let phi = reader(values[b].fields[0], ext, 1);
    let frame = model.frame(values[b].fields, ext, idx);
    lemma_slab_index(o, ext, 1);
    assert(phi(idx) == values[b].fields[0][o]);
    let d = flux.divergence(frame, inverse_area(spacing_fn::<T, G, 2>(grid, b)), phi, idx);
    let a = model.mobility(flux, frame, phi, idx);
    let next = block_rates::<T, N, G, P>(model, Driver::Time, grid, disc, b, values, out);
    lemma_relaxed(v, model.lambda, phi(idx), reader(values[b].fields[1], ext, 1)(idx), d, a);
    assert(next.fields[0][o] == relaxed(
        model.lambda,
        phi(idx),
        reader(values[b].fields[1], ext, 1)(idx),
        d,
        a,
    ));
}

/// The mobility of a cell is the anisotropy of the stencil at the cell's own gradient,
/// where model and stencil have the same constants: `a` and `e` of the anisotropy
/// strength, and the same threshold.
pub proof fn mobility_is_the_anisotropy<T: Real, N: DriverSet>(
    model: &ModelC<T, N>,
    flux: KarmaRappelFlux<T>,
    frame: Option<(T, T)>,
    phi: spec_fn(Seq<int>) -> T,
    idx: Seq<int>,
)
    requires
        model.a_bar == flux.mean(),
        model.eps_prime == flux.relative(),
        model.anisotropy_tol == flux.threshold(),
    ensures
        model.mobility(flux, frame, phi, idx) == flux.framed(frame, center_gradient(phi, idx)).0,
{
}

/// In exact arithmetic solidification releases latent heat: the temperature of a cell
/// rises by half of what its order parameter does, beyond what it gains by diffusion.
pub proof fn solidification_releases_heat<
    T: Real,
    N: DriverSet,
    G: Grid<T, 2>,
    P: Discretizes<T, G, AnisotropicDivergence<T>, 2, Stencil = KarmaRappelFlux<T>> + Discretizes<
        T,
        G,
        Laplacian,
        2,
    >,
>(
    v: spec_fn(T) -> real,
    model: &ModelC<T, N>,
    grid: &G,
    disc: &P,
    b: int,
    values: Seq<BlockValues<T>>,
    out: BlockValues<T>,
    o: int,
)
    requires
        exact(v),
        out.fields.len() >= 2,
        positive(grid.extent_of(b)),
        out.fields[0].len() == volume(ghosted(grid.extent_of(b), 1)),
        out.fields[1].len() == out.fields[0].len(),
        0 <= o < out.fields[0].len(),
        in_ext(slab_index(o, grid.extent_of(b), 1), grid.extent_of(b)),
    ensures
        ({
            let ext = grid.extent_of(b);
            let idx = slab_index(o, ext, 1);
            let next = block_rates::<T, N, G, P>(
                model,
                Driver::Time,
                grid,
                disc,
                b,
                values,
                out,
            );
            let spread = v(
                laplacian_of::<T, G, P>(
                    disc,
                    spacing_fn::<T, G, 2>(grid, b),
                    reader(values[b].fields[1], ext, 1),
                    idx,
                ),
            );
            2 as real * (v(next.fields[1][o]) - v(model.d_thermal) * spread) == v(next.fields[0][o])
        }),
{
    let ext = grid.extent_of(b);
    let idx = slab_index(o, ext, 1);
    lemma_slab_index(o, ext, 1);
    let next = block_rates::<T, N, G, P>(model, Driver::Time, grid, disc, b, values, out);
    let lap = laplacian_of::<T, G, P>(
        disc,
        spacing_fn::<T, G, 2>(grid, b),
        reader(values[b].fields[1], ext, 1),
        idx,
    );
    let rate = next.fields[0][o];
    assert(reader(next.fields[0], ext, 1)(idx) == rate);
    assert(next.fields[1][o] == lap.mul_add_spec(
        model.d_thermal,
        T::half_spec().mul_spec(rate),
    ));
    let h = v(T::half_spec());
    lemma_commutes(v(lap), v(model.d_thermal));
    lemma_distributes(v(rate), h, h);
    assert(1 as real * v(rate) == v(rate)) by (nonlinear_arith);
}

/// Noise enters the order parameter alone, with the same amplitude in every cell.
pub proof fn noise_is_additive<
    T: Real,
    N: DriverSet,
    G: Grid<T, 2>,
    P: Discretizes<T, G, AnisotropicDivergence<T>, 2, Stencil = KarmaRappelFlux<T>> + Discretizes<
        T,
        G,
        Laplacian,
        2,
    >,
>(
    model: &ModelC<T, N>,
    driver: Driver,
    grid: &G,
    disc: &P,
    b: int,
    values: Seq<BlockValues<T>>,
    out: BlockValues<T>,
    f: int,
    o: int,
)
    requires
        driver is Wiener,
        0 <= f < out.fields.len(),
        0 <= o < out.fields[f].len(),
    ensures
        block_rates::<T, N, G, P>(model, driver, grid, disc, b, values, out).fields[f][o] == (if f
            == 0 && in_ext(slab_index(o, grid.extent_of(b), 1), grid.extent_of(b)) {
            model.noise_amplitude
        } else {
            out.fields[f][o]
        }),
{
}

/// In exact arithmetic a step is limited to a fifth of the squared spacing over the
/// diffusivity, which keeps it below the quarter at which the five-point update loses
/// its damping. The spacing is the smaller of the two.
pub proof fn steps_damp_the_checkerboard<T: Real, N: DriverSet>(
    v: spec_fn(T) -> real,
    model: &ModelC<T, N>,
    spacing: [T; 2],
    h: real,
)
    requires
        exact(v),
        powers_exact(v),
        minima_exact(v),
        v(model.d_thermal) > 0 as real,
        h <= v(spacing[0]),
        h <= v(spacing[1]),
        h == v(spacing[0]) || h == v(spacing[1]),
        h > 0 as real,
    ensures
        5 as real * (v(model.step_limit(spacing)) * v(model.d_thermal)) == h * h,
        4 as real * (v(model.step_limit(spacing)) * v(model.d_thermal)) < h * h,
{
    let least = spacing[0].min_spec(spacing[1]);
    assert(v(least) == h);
    let square = least.powi_spec(2);
    reveal_with_fuel(power, 3);
    assert(v(square) == power(h, 2));
    assert(1 as real * h == h) by (nonlinear_arith);
    assert(power(h, 2) == h * h);
    let fifth = T::from_u64_spec(2).div_spec(T::from_u64_spec(10));
    let f = v(fifth);
    assert(v(T::from_u64_spec(10)) == 10 as real && v(T::from_u64_spec(2)) == 2 as real);
    assert(f * (10 as real) == 2 as real);
    assert(5 as real * f == 1 as real);
    lemma_associates(5 as real, f, h * h);
    assert(1 as real * (h * h) == h * h) by (nonlinear_arith);
    assert(h * h > 0 as real) by (nonlinear_arith)
        requires
            h > 0 as real,
    ;
}

proof fn lemma_pair<T: Real>(f: spec_fn(int) -> T)
    ensures
        spread::<T, 2>(f)[0] == f(0),
        spread::<T, 2>(f)[1] == f(1),
{
    let a: [T; 2] = [f(0), f(1)];
    lemma_spread::<T, 2>(a, f);
}

/// In exact arithmetic solidification is parabolic: on a grid of positive spacings a
/// level refined by `r` takes `r^2` substeps per step of the level below it.
pub proof fn solidification_substeps_by_the_square<
    T: Real,
    N: DriverSet,
    P: Discretizes<
        T,
        AmrGrid<T, 2>,
        AnisotropicDivergence<T>,
        2,
        Stencil = KarmaRappelFlux<T>,
    > + Discretizes<T, AmrGrid<T, 2>, Laplacian, 2>,
>(v: spec_fn(T) -> real, model: &ModelC<T, N>, grid: &AmrGrid<T, 2>, level: nat)
    requires
        exact(v),
        order_exact(v),
        powers_exact(v),
        minima_exact(v),
        nearest_exact(v),
        grid.sound(),
        level < grid.ratio_list().len(),
        v(model.d_thermal) > 0 as real,
        v(level_step(grid.base_grid(), grid.ratio_list(), (level + 1) as nat, 0)) > 0 as real,
        v(level_step(grid.base_grid(), grid.ratio_list(), (level + 1) as nat, 1)) > 0 as real,
    ensures
        substeps::<T, P, ModelC<T, N>, 2>(model, grid, level) == grid.ratio_list()[level as int]
            * grid.ratio_list()[level as int],
{
    let next = (level + 1) as nat;
    let r = grid.ratio_list()[level as int] as int;
    assert(grid.ratio_list()[level as int] >= 2);
    let coarse = |d: int| level_step(grid.base_grid(), grid.ratio_list(), level, d);
    let fine = |d: int| level_step(grid.base_grid(), grid.ratio_list(), next, d);
    lemma_pair::<T>(coarse);
    lemma_pair::<T>(fine);
    levels_divide_the_spacing(v, grid, next, 0);
    levels_divide_the_spacing(v, grid, next, 1);
    let (f0, f1) = (v(fine(0)), v(fine(1)));
    let (c0, c1) = (v(coarse(0)), v(coarse(1)));
    let x = r as real;
    assert(c0 == f0 * x && c1 == f1 * x);
    let h = if f1 < f0 {
        f1
    } else {
        f0
    };
    let k = h * x;
    assert(k <= c0 && k <= c1) by {
        lemma_scaled_up(h, f0, x);
        lemma_scaled_up(h, f1, x);
    }
    assert(k > 0 as real) by (nonlinear_arith)
        requires
            k == h * x,
            h > 0 as real,
            x > 0 as real,
    ;
    steps_damp_the_checkerboard(v, model, spread::<T, 2>(fine), h);
    steps_damp_the_checkerboard(v, model, spread::<T, 2>(coarse), k);
    let a = model.step_limit(spread::<T, 2>(coarse));
    let b = model.step_limit(spread::<T, 2>(fine));
    let d = v(model.d_thermal);
    let q = v(a.div_spec(b));
    let n = x * x;
    lemma_products(h, x, h, x);
    assert(h * h > 0 as real) by (nonlinear_arith)
        requires
            h > 0 as real,
    ;
    assert(5 as real * (v(a) * d) == (h * h) * n);
    assert(5 as real * (v(b) * d) == h * h);
    assert(v(a) * d == (v(b) * d) * n) by {
        lemma_fifth(v(a) * d, v(b) * d, n, h * h);
    }
    assert(v(a) == v(b) * n) by {
        lemma_associates(v(b), d, n);
        lemma_commutes(d, n);
        lemma_associates(v(b), n, d);
        lemma_cancels(v(a), v(b) * n, d);
    }
    assert(v(b) != 0 as real) by {
        if v(b) == 0 as real {
            assert(0 as real * d == 0 as real) by (nonlinear_arith);
        }
    }
    lemma_commutes(v(b), n);
    lemma_cancels(q, n, v(b));
    assert((r * r) as real == n) by (nonlinear_arith)
        requires
            n == x * x,
            x == r as real,
    ;
    assert(close_to(q, r * r));
    let rounded = a.div_spec(b).round_spec();
    assert(v(rounded) == (r * r) as real);
    assert(4 <= r * r <= u64::MAX) by (nonlinear_arith)
        requires
            2 <= r <= u32::MAX,
    ;
    assert(v(T::one_spec()) == 1 as real);
    assert(whole(v, rounded.max_spec(T::one_spec()), r * r));
}

proof fn lemma_scaled_up(a: real, b: real, x: real)
    requires
        a <= b,
        x > 0 as real,
    ensures
        a * x <= b * x,
{
    assert(a * x <= b * x) by (nonlinear_arith)
        requires
            a <= b,
            x > 0 as real,
    ;
}

proof fn lemma_fifth(a: real, b: real, n: real, s: real)
    requires
        5 as real * a == s * n,
        5 as real * b == s,
    ensures
        a == b * n,
{
    lemma_associates(5 as real, b, n);
}

/// Before solidification is evaluated on a plain grid the ghosts of order parameter and
/// temperature, both, mirror the interior: every entry of either holds the value of the
/// interior cell it stands for, wrapped in periodic dimensions and mirrored at the
/// boundaries. The orientation is left alone.
pub proof fn solid_fields_are_mirrored<
    T: Real,
    N: DriverSet,
    P: Discretizes<
        T,
        CartesianGrid<T, 2>,
        AnisotropicDivergence<T>,
        2,
        Stencil = KarmaRappelFlux<T>,
    > + Discretizes<T, CartesianGrid<T, 2>, Laplacian, 2>,
>(
    model: &ModelC<T, N>,
    grid: &CartesianGrid<T, 2>,
    fields: Seq<FieldSpec>,
    values: Seq<BlockValues<T>>,
    t: T,
    b: int,
    f: int,
    idx: Seq<int>,
)
    requires
        grid.valid(),
        allocated_on::<T, T, CartesianGrid<T, 2>, 2>(fields, grid, values),
        fields.len() >= 2,
        fields[0].halo == 1,
        fields[1].halo == 1,
        0 <= b < grid.blocks(),
        0 <= f < fields.len(),
        in_slab(idx, grid.tile(), 1),
    ensures
        ({
            let next = Model::<T, CartesianGrid<T, 2>, P, 2>::filled(
                model,
                grid,
                fields,
                values,
                t,
            );
            if f < 2 {
                next[b].fields[f][slab_at(idx, grid.tile(), 1)] == cell_value(
                    grid,
                    1,
                    field_slabs(values, f),
                    resolved_cell(grid, b, idx),
                )
            } else {
                next[b].fields[f] == values[b].fields[f]
            }
        }),
{
    let once = field_filled(grid, &MirrorFaces, fields, values, 0);
    let next = field_filled(grid, &MirrorFaces, fields, once, 1);
    lemma_field_filled(grid, &MirrorFaces, fields, values, 0);
    lemma_field_filled(grid, &MirrorFaces, fields, once, 1);
    let first = field_slabs(values, 0);
    let second = field_slabs(values, 1);
    assert forall|p: int| 0 <= p < values.len() implies #[trigger] field_slabs(once, 1)[p]
        == second[p] by {
        assert(full_block(fields, grid.extent_of(p), values[p]));
    }
    assert(field_slabs(once, 1) =~= second);
    assert(full_block(fields, grid.extent_of(b), values[b]));
    assert(full_block(fields, grid.extent_of(b), once[b]));
    if f < 2 {
        let v = field_slabs(values, f);
        assert forall|p: int| 0 <= p < v.len() implies (#[trigger] v[p]).len() == volume(
            ghosted(grid.tile(), 1),
        ) by {
            assert(full_block(fields, grid.extent_of(p), values[p]));
        }
        assert forall|e: int| 0 <= e < 2 implies 1 <= #[trigger] grid.tile()[e] by {
            grid.lemma_blocks();
        }
        mirror_fill_is_a_global_lookup(grid, 1, v, b, idx);
    }
}

/// Before solidification is evaluated on a hierarchy order parameter and temperature,
/// both, are made consistent: every cell beneath a patch holds the mean of its children.
pub proof fn solid_fields_are_nested<
    T: Real,
    N: DriverSet,
    P: Discretizes<
        T,
        AmrGrid<T, 2>,
        AnisotropicDivergence<T>,
        2,
        Stencil = KarmaRappelFlux<T>,
    > + Discretizes<T, AmrGrid<T, 2>, Laplacian, 2>,
>(
    model: &ModelC<T, N>,
    grid: &AmrGrid<T, 2>,
    fields: Seq<FieldSpec>,
    values: Seq<BlockValues<T>>,
    t: T,
    f: int,
    level: int,
    b: int,
    k: int,
)
    requires
        grid.sound(),
        allocated_on::<T, T, AmrGrid<T, 2>, 2>(fields, grid, values),
        fields.len() >= 2,
        0 <= f < 2,
        1 <= level < grid.levels(),
        0 <= b < grid.blocks(),
        grid.level_of(b) == level - 1,
        0 <= k < volume(ghosted(grid.extent_of(b), fields[f].halo as int)),
        in_ext(slab_index(k, grid.extent_of(b), fields[f].halo as int), grid.extent_of(b)),
        refined_at(
            grid,
            level,
            plus(
                slab_index(k, grid.extent_of(b), fields[f].halo as int),
                ints(grid.patch_list()[b].bx.lo),
            ),
        ),
    ensures
        ({
            let g = fields[f].halo as int;
            let c = plus(slab_index(k, grid.extent_of(b), g), ints(grid.patch_list()[b].bx.lo));
            let next = Model::<T, AmrGrid<T, 2>, P, 2>::filled(model, grid, fields, values, t);
            next[b].fields[f][k] == child_mean(grid, g, field_slabs(next, f), level, c)
        }),
{
    let once = synchronized(grid, fields, values, 0);
    let next = synchronized(grid, fields, once, 1);
    lemma_synchronized_allocated(grid, fields, values, 0);
    lemma_synchronized_allocated(grid, fields, once, 1);
    if f == 0 {
        synchronized_fields_are_nested(grid, fields, values, 0, level, b, k);
        assert forall|p: int| 0 <= p < once.len() implies #[trigger] field_slabs(next, 0)[p]
            == field_slabs(once, 0)[p] by {
            assert(next[p].fields[0] == once[p].fields[0]);
        }
        assert(field_slabs(next, 0) =~= field_slabs(once, 0));
        assert(next[b].fields[0] == once[b].fields[0]);
    } else {
        synchronized_fields_are_nested(grid, fields, once, 1, level, b, k);
    }
}

/// In exact arithmetic the constants are those of the thin-interface limit: the capillary
/// one is 0.8836, heat diffuses at 0.6267 times the coupling, and gradients are flat below
/// one part in a hundred million.
pub proof fn diffusivity_follows_the_coupling<T: Real>(v: spec_fn(T) -> real, lambda: T)
    requires
        exact(v),
    ensures
        v(a1_spec::<T>()) * (10000 as real) == 8836 as real,
        v(thin_interface_diffusivity(lambda)) * (10000 as real) == 6267 as real * v(lambda),
        v(default_tol::<T>()) * (100_000_000 as real) == 1 as real,
{
    let d = T::from_u64_spec(6267).div_spec(T::from_u64_spec(10000));
    assert(v(T::from_u64_spec(10000)) == 10000 as real);
    assert(v(T::from_u64_spec(8836)) == 8836 as real);
    assert(v(T::from_u64_spec(6267)) == 6267 as real);
    assert(v(T::from_u64_spec(100_000_000)) == 100_000_000 as real);
    assert(v(d) * v(T::from_u64_spec(10000)) == 6267 as real);
    lemma_commutes(v(d), v(lambda));
    lemma_associates(v(lambda), v(d), 10000 as real);
    lemma_commutes(v(lambda), 6267 as real);
}

} // verus!
