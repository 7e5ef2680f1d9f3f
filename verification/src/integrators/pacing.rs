//! The step sizes the schemes suggest.
use vstd::prelude::*;

use crate::discretization::finite_volume::KarmaRappelFlux;
use crate::discretization::operators::{AnisotropicDivergence, Discretizes, Laplacian};
use crate::engine::driver::DriverSet;
use crate::engine::exact::{exact, minima_exact, order_exact, powers_exact};
use crate::engine::storage::Real;
use crate::geometry::amr::grid::{level_step, AmrGrid};
use crate::geometry::cartesian::CartesianGrid;
use crate::geometry::grid::{finest_array, lemma_spread, spread, Grid};
use crate::integrators::euler_maruyama::EulerMaruyama;
use crate::integrators::imex::ImexEuler;
use crate::integrators::scheme::Integrator;
use crate::integrators::subcycling::{limit_at, Subcycling};
use crate::physics::market_making::HjbMarketMaker;
use crate::physics::phasefield::ModelC;
use crate::physics::solidification::steps_damp_the_checkerboard;

verus! {

/// In exact arithmetic the implicit-explicit scheme takes steps of the value surface that
/// do not depend on the variance grid, however fine, wherever orders arrive at all: the
/// transport that would limit them is implicit. They are two fifths over the arrival rate.
pub proof fn implicit_transport_does_not_limit_the_step<T: Real, P: Sync>(
    v: spec_fn(T) -> real,
    model: &HjbMarketMaker<T>,
    coarse: &CartesianGrid<T, 1>,
    fine: &CartesianGrid<T, 1>,
)
    requires
        exact(v),
        order_exact(v),
        v(model.setup().sell.lambda) + v(model.setup().buy.lambda) > 0 as real,
    ensures
        ({
            let a = Integrator::<T, CartesianGrid<T, 1>, P, HjbMarketMaker<T>, 1>::suggested(
                &ImexEuler,
                model,
                coarse,
            );
            let b = Integrator::<T, CartesianGrid<T, 1>, P, HjbMarketMaker<T>, 1>::suggested(
                &ImexEuler,
                model,
                fine,
            );
            let rate = v(model.setup().sell.lambda) + v(model.setup().buy.lambda);
            &&& a == b
            &&& a matches Some(dt) && 5 as real * (v(dt) * rate) == 2 as real
        }),
{
    assert(v(T::from_u64_spec(10)) == 10 as real && v(T::from_u64_spec(4)) == 4 as real);
    let two_fifths = T::from_u64_spec(4).div_spec(T::from_u64_spec(10));
    assert(v(two_fifths) * (10 as real) == 4 as real);
}

proof fn lemma_pair_entries<T: Real>(f: spec_fn(int) -> T)
    ensures
        spread::<T, 2>(f)[0] == f(0),
        spread::<T, 2>(f)[1] == f(1),
{
    let a: [T; 2] = [f(0), f(1)];
    lemma_spread::<T, 2>(a, f);
}

/// In exact arithmetic a solidifying hierarchy of square cells is stepped at the pace of
/// its coarsest level where it is subcycled, and at that of its finest otherwise: a fifth
/// of the squared spacing over the diffusivity.
pub proof fn subcycling_keeps_the_coarse_pace<
    T: Real,
    N: DriverSet,
    P: Discretizes<
        T,
        AmrGrid<T, 2>,
        AnisotropicDivergence<T>,
        2,
        Stencil = KarmaRappelFlux<T>,
    > + Discretizes<T, AmrGrid<T, 2>, Laplacian, 2> + Sync,
>(
    v: spec_fn(T) -> real,
    model: &ModelC<T, N>,
    grid: &AmrGrid<T, 2>,
    subcycled: &Subcycling,
    global: &EulerMaruyama,
    base: real,
    finest: real,
)
    requires
        exact(v),
        powers_exact(v),
        minima_exact(v),
        v(model.d_thermal) > 0 as real,
        base > 0 as real,
        finest > 0 as real,
        forall|d: int| 0 <= d < 2 ==> v(#[trigger] grid.base_grid().step(d)) == base,
        forall|d: int| 0 <= d < 2 ==> v(#[trigger] grid.finest_of(d)) == finest,
    ensures
        Integrator::<T, AmrGrid<T, 2>, P, ModelC<T, N>, 2>::suggested(
            subcycled,
            model,
            grid,
        ) matches Some(dt) && 5 as real * (v(dt) * v(model.d_thermal)) == base * base,
        Integrator::<T, AmrGrid<T, 2>, P, ModelC<T, N>, 2>::suggested(
            global,
            model,
            grid,
        ) matches Some(dt) && 5 as real * (v(dt) * v(model.d_thermal)) == finest * finest,
{
    let coarse = |d: int| level_step(grid.base_grid(), grid.ratio_list(), 0, d);
    let fine = |d: int| grid.finest_of(d);
    lemma_pair_entries::<T>(coarse);
    lemma_pair_entries::<T>(fine);
    assert(v(grid.base_grid().step(0)) == base && v(grid.base_grid().step(1)) == base);
    assert(v(grid.finest_of(0)) == finest && v(grid.finest_of(1)) == finest);
    steps_damp_the_checkerboard(v, model, spread::<T, 2>(coarse), base);
    steps_damp_the_checkerboard(v, model, spread::<T, 2>(fine), finest);
    assert(limit_at::<T, P, ModelC<T, N>, 2>(model, grid, 0) == Some(
        model.step_limit(spread::<T, 2>(coarse)),
    ));
    assert(finest_array::<T, AmrGrid<T, 2>, 2>(grid) == spread::<T, 2>(fine));
}

} // verus!
