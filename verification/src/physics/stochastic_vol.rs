//! Stochastic-volatility paths: a mean-reverting variance driving an arithmetic
//! price, one independent path per grid cell.
//!
//! ```text
//! d nu = k (theta - nu) dt + sigma sqrt(nu) dW1
//! d S  = mu dt             +       sqrt(nu) dW2
//! ```
//!
//! This is a **0-dimensional equation per cell**: cells do not couple, so the grid
//! is used purely as an embarrassingly parallel ensemble. Fields carry no ghosts,
//! and the model needs no ghost fill and no stability limit. The two Wiener
//! processes are independent.
//!
//! Positivity of the variance is kept by full truncation (negative excursions
//! count as zero in drift and diffusion) plus a projection that maps an excursion
//! back to zero after each step.

use vstd::prelude::*;

use crate::discretization::stencil::reader;
use crate::engine::driver::{Driver, Wiener};
use crate::engine::scratch::{Scratch, ScratchSpec};
use crate::engine::state::{
    allocated_on, full_block, BlockStateMut, BlockValues, FieldHandle, FieldSpec, State,
    StateBuilder,
};
use crate::engine::storage::{Real, StorageBackend};
use crate::geometry::cartesian::CartesianGrid;
use crate::geometry::grid::{slab_fits, BlockId, Grid};
use crate::geometry::halo::{field_slabs, with_field};
use crate::geometry::sweep::{rewritten, sweep_field, with_interior, with_one, write_field};
use crate::physics::model::{Model, RhsContext};
use crate::physics::paths::{
    lemma_tailored_one, reversion, volatility, Floor, Reversion, ScaledVolatility, Uniform,
    Volatility,
};

verus! {

/// Parameters of the [`StochVolPaths`] model.
#[derive(Debug, Clone, Copy)]
pub struct StochVolParams<T> {
    /// Price drift.
    pub mu: T,
    /// Variance mean-reversion speed.
    pub k_speed: T,
    /// Long-run variance.
    pub theta: T,
    /// Volatility of variance.
    pub sigma: T,
}

impl<T: Real> Default for StochVolParams<T> {
    fn default() -> (r: Self)
        ensures
            r.mu == T::zero_spec(),
            r.k_speed == T::one_spec(),
            r.theta == T::one_spec(),
            r.sigma == T::one_spec().div_spec(T::from_u64_spec(10)),
    {
        StochVolParams {
            mu: T::zero(),
            k_speed: T::one(),
            theta: T::one(),
            sigma: T::one().div(T::from_u64(10)),
        }
    }
}

/// A stochastic-volatility path ensemble, one path per grid cell. Driven by two
/// independent Wiener processes; pairs with any stochastic integrator.
#[derive(Debug, Clone, Copy)]
pub struct StochVolPaths<T: Real> {
    /// Model parameters.
    pub params: StochVolParams<T>,
    nu: Option<FieldHandle<T>>,
    mid: Option<FieldHandle<T>>,
}

/// The layout of a stochastic-volatility ensemble: the variance, moved by the clock
/// and the first Wiener process, and the price, moved by the clock and the second.
pub open spec fn vol_layout(fields: Seq<FieldSpec>) -> bool {
    &&& fields.len() == 2
    &&& fields[0].name@ == "nu"@
    &&& fields[0].halo == 0
    &&& fields[0].drivers@ == seq![Driver::Time, Driver::Wiener(0)]
    &&& fields[1].name@ == "mid"@
    &&& fields[1].halo == 0
    &&& fields[1].drivers@ == seq![Driver::Time, Driver::Wiener(1)]
}

impl<T: Real> StochVolPaths<T> {
    /// The parameters.
    pub closed spec fn setup(&self) -> StochVolParams<T> {
        self.params
    }

    /// The variance is field 0 and the price field 1.
    pub closed spec fn registered(&self) -> bool {
        &&& self.nu matches Some(h) && h.pos() == 0
        &&& self.mid matches Some(h) && h.pos() == 1
    }

    /// A model with the given parameters; fields are registered when a simulation
    /// is made.
    pub fn new(params: StochVolParams<T>) -> (r: Self)
        ensures
            r.setup() == params,
    {
        StochVolPaths { params, nu: None, mid: None }
    }

    /// Handle of the variance field.
    pub fn nu(&self) -> (r: FieldHandle<T>)
        requires
            self.registered(),
        ensures
            r.pos() == 0,
    {
        self.nu.unwrap()
    }

    /// Handle of the price field.
    pub fn mid(&self) -> (r: FieldHandle<T>)
        requires
            self.registered(),
        ensures
            r.pos() == 1,
    {
        self.mid.unwrap()
    }

    /// Start every path at variance `nu0` and price `s0`.
    pub fn initialize<S: StorageBackend<T>>(
        &self,
        grid: &CartesianGrid<T, 1>,
        state: &mut State<T, S>,
        nu0: T,
        s0: T,
    )
        requires
            self.registered(),
            grid.valid(),
            allocated_on::<T, T, CartesianGrid<T, 1>, 1>(
                old(state).fields(),
                grid,
                old(state).values(),
            ),
            old(state).fields().len() >= 2,
        ensures
            final(state).fields() == old(state).fields(),
            final(state).values() == started(
                grid,
                old(state).fields(),
                old(state).values(),
                nu0,
                s0,
            ),
            allocated_on::<T, T, CartesianGrid<T, 1>, 1>(
                old(state).fields(),
                grid,
                final(state).values(),
            ),
    {
        set_uniform(grid, state, self.nu(), nu0);
        set_uniform(grid, state, self.mid(), s0);
    }
}

/// Every interior cell of one field set to a value.
pub open spec fn uniform_field<T: Real, const D: usize>(
    grid: &CartesianGrid<T, D>,
    fields: Seq<FieldSpec>,
    v: Seq<BlockValues<T>>,
    f: int,
    value: T,
) -> Seq<BlockValues<T>> {
    with_field(
        v,
        f,
        rewritten::<T, T, CartesianGrid<T, D>, D>(
            grid,
            fields[f].halo as int,
            field_slabs(v, f),
            |b: int, idx: Seq<int>, old: T| value,
        ),
    )
}

/// Field 0 set to one value and field 1 to another, in every interior cell.
pub open spec fn started<T: Real>(
    grid: &CartesianGrid<T, 1>,
    fields: Seq<FieldSpec>,
    v: Seq<BlockValues<T>>,
    nu0: T,
    s0: T,
) -> Seq<BlockValues<T>> {
    uniform_field(grid, fields, uniform_field(grid, fields, v, 0, nu0), 1, s0)
}

/// Set the interior of one field to a value.
pub(crate) fn set_uniform<T: Real, S: StorageBackend<T>>(
    grid: &CartesianGrid<T, 1>,
    state: &mut State<T, S>,
    field: FieldHandle<T>,
    value: T,
)
    requires
        grid.valid(),
        allocated_on::<T, T, CartesianGrid<T, 1>, 1>(
            old(state).fields(),
            grid,
            old(state).values(),
        ),
        0 <= field.pos() < old(state).fields().len(),
    ensures
        final(state).fields() == old(state).fields(),
        final(state).values() == uniform_field(
            grid,
            old(state).fields(),
            old(state).values(),
            field.pos(),
            value,
        ),
        allocated_on::<T, T, CartesianGrid<T, 1>, 1>(
            old(state).fields(),
            grid,
            final(state).values(),
        ),
{
    let ghost fields = state.fields();
    let ghost v = state.values();
    sweep_field(grid, state, field, &Uniform { value });
    assert(state.values() =~~= uniform_field(grid, fields, v, field.pos(), value));
}

/// The variance of every path, negative excursions mapped to zero.
pub open spec fn floored<T: Real>(
    grid: &CartesianGrid<T, 1>,
    fields: Seq<FieldSpec>,
    v: Seq<BlockValues<T>>,
) -> Seq<BlockValues<T>> {
    with_field(
        v,
        0,
        rewritten::<T, T, CartesianGrid<T, 1>, 1>(
            grid,
            fields[0].halo as int,
            field_slabs(v, 0),
            |b: int, idx: Seq<int>, old: T| old.max_spec(T::zero_spec()),
        ),
    )
}

/// One field of a buffer, every interior cell rewritten from the variance there.
pub open spec fn from_variance<T: Real>(
    ext: Seq<int>,
    out: BlockValues<T>,
    f: int,
    nu: Seq<T>,
    rule: spec_fn(T) -> T,
) -> BlockValues<T> {
    with_one(
        out,
        f,
        with_interior(
            out.fields[f],
            ext,
            0,
            |idx: Seq<int>, old: T| rule(reader(nu, ext, 0)(idx)),
        ),
    )
}

impl<T: Real, P: Sync> Model<T, CartesianGrid<T, 1>, P, 1> for StochVolPaths<T> {
    type Drivers = Wiener<2>;

    open spec fn accepts(&self, grid: &CartesianGrid<T, 1>, disc: &P) -> bool {
        slab_fits(grid.tile(), 0)
    }

    open spec fn supports(
        &self,
        grid: &CartesianGrid<T, 1>,
        disc: &P,
        fields: Seq<FieldSpec>,
    ) -> bool {
        self.registered() && vol_layout(fields)
    }

    open spec fn registers(&self, after: &Self, fields: Seq<FieldSpec>) -> bool {
        after.setup() == self.setup() && after.registered() && vol_layout(fields)
    }

    open spec fn scratch_of(&self, grid: &CartesianGrid<T, 1>) -> ScratchSpec {
        ScratchSpec { slabs: 0, slab_len: 0 }
    }

    open spec fn vector_field(
        &self,
        driver: Driver,
        grid: &CartesianGrid<T, 1>,
        disc: &P,
        t: T,
        b: int,
        fields: Seq<FieldSpec>,
        values: Seq<BlockValues<T>>,
        out: BlockValues<T>,
    ) -> BlockValues<T> {
        let p = self.setup();
        let nu = values[b].fields[0];
        match driver {
            Driver::Time => from_variance(
                grid.tile(),
                from_variance(
                    grid.tile(),
                    out,
                    0,
                    nu,
                    |x: T| reversion(p.k_speed, p.theta, x),
                ),
                1,
                nu,
                |x: T| p.mu,
            ),
            Driver::Wiener(j) => if j == 0 {
                from_variance(
                    grid.tile(),
                    out,
                    0,
                    nu,
                    |x: T| p.sigma.mul_spec(volatility(x)),
                )
            } else {
                from_variance(grid.tile(), out, 1, nu, |x: T| volatility(x))
            },
            Driver::Jump(_) => out,
        }
    }

    open spec fn projected(
        &self,
        grid: &CartesianGrid<T, 1>,
        fields: Seq<FieldSpec>,
        values: Seq<BlockValues<T>>,
    ) -> Seq<BlockValues<T>> {
        floored(grid, fields, values)
    }

    fn register_fields(&mut self, builder: &mut StateBuilder<T>) {
        let wiener0: [Driver; 2] = [Driver::Time, Driver::Wiener(0)];
        let wiener1: [Driver; 2] = [Driver::Time, Driver::Wiener(1)];
        assert(wiener0@ =~= seq![Driver::Time, Driver::Wiener(0)]);
        assert(wiener1@ =~= seq![Driver::Time, Driver::Wiener(1)]);
        self.nu = Some(builder.register_driven("nu", 0, &wiener0));
        let ghost one = builder.fields();
        assert(one.drop_last().len() == 0);
        self.mid = Some(builder.register_driven("mid", 0, &wiener1));
        proof {
            let two = builder.fields();
            assert(two.drop_last()[0] == two[0]);
            assert(two[0] == one[0]);
            assert(two.last() == two[1]);
            assert(one.last() == one[0]);
            assert(vol_layout(two));
        }
    }

    fn scratch_spec(&self, grid: &CartesianGrid<T, 1>) -> (r: ScratchSpec) {
        ScratchSpec::none()
    }

    fn fill_ghosts<S: StorageBackend<T>>(
        &self,
        grid: &CartesianGrid<T, 1>,
        disc: &P,
        state: &mut State<T, S>,
        t: T,
    ) {
    }

    fn vector_field_block<S: StorageBackend<T>>(
        &self,
        driver: Driver,
        ctx: &RhsContext<'_, T, CartesianGrid<T, 1>, P>,
        state: &State<T, S>,
        out: &mut BlockStateMut<'_, T, S>,
        scratch: &mut Scratch<T, S>,
    ) {
        let grid = ctx.grid;
        let block = ctx.block;
        let ghost b = block.id();
        let ghost ext = grid.tile();
        let ghost fields = state.fields();
        let ghost start = out.storage.values();
        proof {
            assert(grid.extent_of(b) == ext);
            assert(full_block(fields, ext, state.values()[b]));
            assert(slab_fits(ext, 0)) by {
                assert(slab_fits(grid.extent_of(b), fields[0].halo as int));
            }
            lemma_moved(fields);
        }
        let nu = state.view(grid, block, self.nu());
        match driver {
            Driver::Time => {
                let drift = Reversion {
                    speed: self.params.k_speed,
                    level: self.params.theta,
                    nu: &nu,
                };
                write_field(out, grid, block, self.nu(), &drift);
                let ghost mid = out.storage.values();
                proof {
                    assert(mid =~~= from_variance(
                        ext,
                        start,
                        0,
                        nu.data(),
                        |x: T| reversion(self.params.k_speed, self.params.theta, x),
                    ));
                    lemma_tailored_one(fields, ext, driver, start, 0, mid.fields[0]);
                    assert(mid =~~= with_one(start, 0, mid.fields[0]));
                }
                write_field(out, grid, block, self.mid(), &Uniform { value: self.params.mu });
                proof {
                    let end = out.storage.values();
                    assert(end =~~= from_variance(ext, mid, 1, nu.data(), |x: T| self.params.mu));
                    lemma_tailored_one(fields, ext, driver, mid, 1, end.fields[1]);
                    assert(end =~~= with_one(mid, 1, end.fields[1]));
                }
            },
            Driver::Wiener(j) => {
                if j == 0 {
                    let amp = ScaledVolatility { scale: self.params.sigma, nu: &nu };
                    write_field(out, grid, block, self.nu(), &amp);
                    proof {
                        let end = out.storage.values();
                        assert(end =~~= from_variance(
                            ext,
                            start,
                            0,
                            nu.data(),
                            |x: T| self.params.sigma.mul_spec(volatility(x)),
                        ));
                        lemma_tailored_one(fields, ext, driver, start, 0, end.fields[0]);
                        assert(end =~~= with_one(start, 0, end.fields[0]));
                    }
                } else {
                    write_field(out, grid, block, self.mid(), &Volatility { nu: &nu });
                    proof {
                        let end = out.storage.values();
                        assert(end =~~= from_variance(
                            ext,
                            start,
                            1,
                            nu.data(),
                            |x: T| volatility(x),
                        ));
                        lemma_tailored_one(fields, ext, driver, start, 1, end.fields[1]);
                        assert(end =~~= with_one(start, 1, end.fields[1]));
                    }
                }
            },
            Driver::Jump(_) => {},
        }
    }

    fn project<S: StorageBackend<T>>(
        &self,
        grid: &CartesianGrid<T, 1>,
        disc: &P,
        state: &mut State<T, S>,
    ) {
        let ghost fields = state.fields();
        let ghost v = state.values();
        sweep_field(grid, state, self.nu(), &Floor);
        assert(state.values() =~~= floored(grid, fields, v));
    }

    fn stiff_rows(
        &self,
        grid: &CartesianGrid<T, 1>,
        disc: &P,
        block: BlockId,
        field: FieldHandle<T>,
        rows: &mut [[T; 3]],
    ) -> (r: bool) {
        false
    }

    fn stable_dt_nonstiff(&self, spacing: [T; 1]) -> (r: Option<T>) {
        None
    }

    fn stable_dt(&self, spacing: [T; 1]) -> (r: Option<T>) {
        None
    }
}

/// Which drivers move which fields of the layout.
proof fn lemma_moved(fields: Seq<FieldSpec>)
    requires
        vol_layout(fields),
    ensures
        fields[0].moved_by(Driver::Time),
        fields[1].moved_by(Driver::Time),
        fields[0].moved_by(Driver::Wiener(0)),
        fields[1].moved_by(Driver::Wiener(1)),
{
    assert(fields[0].drivers@[0] == Driver::Time);
    assert(fields[0].drivers@[1] == Driver::Wiener(0));
    assert(fields[1].drivers@[0] == Driver::Time);
    assert(fields[1].drivers@[1] == Driver::Wiener(1));
}

} // verus!
