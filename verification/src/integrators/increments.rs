//! A stochastic step is the sum of its drivers' increments.
use vstd::prelude::*;

use crate::engine::driver::{Driver, DriverSet};
use crate::engine::exact::{
    equality_exact, exact, growth_exact, growth_less_one_exact, order_exact, roots_exact,
};
use crate::engine::measures::{drivers_add_their_increments, increment};
use crate::engine::state::{
    driven_block, stepped_block, stepped_values, zeroed, BlockValues, FieldSpec,
};
use crate::engine::storage::Real;
use crate::geometry::grid::{interior_key, Grid};
use crate::integrators::euler_maruyama::{driver_fields, EulerMaruyama};
use crate::integrators::scheme::Integrator;
use crate::physics::model::Model;

verus! {

/// What a driver adds to one entry of a field over a step, given its buffer on the
/// block: nothing where the buffer does not carry the field.
pub open spec fn contribution<T: Real>(
    v: spec_fn(T) -> real,
    specs: Seq<FieldSpec>,
    ext: Seq<int>,
    b: int,
    dt: T,
    root: real,
    seed: u64,
    salt: u64,
    driver: Driver,
    buffer: BlockValues<T>,
    f: int,
    i: int,
) -> real {
    if buffer.fields[f].len() == 0 {
        0 as real
    } else {
        increment(
            v,
            driver,
            interior_key(ext, specs[f].halo as int, i),
            driver.block_key(seed, salt, b),
            dt,
            root,
            buffer.rate,
            buffer.fields[f][i],
        )
    }
}

/// What the clock and the first `n` drivers of a set add to one entry of a field.
pub open spec fn contributions<T: Real, N: DriverSet>(
    v: spec_fn(T) -> real,
    specs: Seq<FieldSpec>,
    ext: Seq<int>,
    b: int,
    dt: T,
    root: real,
    seed: u64,
    salt: u64,
    drift: BlockValues<T>,
    amps: Seq<BlockValues<T>>,
    f: int,
    i: int,
    n: nat,
) -> real
    decreases n,
{
    if n == 0 {
        contribution(v, specs, ext, b, dt, root, seed, salt, Driver::Time, drift, f, i)
    } else {
        contributions::<T, N>(
            v,
            specs,
            ext,
            b,
            dt,
            root,
            seed,
            salt,
            drift,
            amps,
            f,
            i,
            (n - 1) as nat,
        ) + contribution(
            v,
            specs,
            ext,
            b,
            dt,
            root,
            seed,
            salt,
            N::member(n - 1),
            amps[n - 1],
            f,
            i,
        )
    }
}

proof fn lemma_contribution<T: Real>(
    v: spec_fn(T) -> real,
    specs: Seq<FieldSpec>,
    ext: Seq<int>,
    b: int,
    dt: T,
    root: real,
    seed: u64,
    salt: u64,
    driver: Driver,
    x: BlockValues<T>,
    buffer: BlockValues<T>,
    f: int,
    i: int,
)
    requires
        exact(v),
        order_exact(v),
        equality_exact(v),
        growth_exact(v),
        growth_less_one_exact(v),
        roots_exact(v),
        v(dt) >= 0 as real,
        root >= 0 as real,
        root * root == v(dt),
        0 <= f < x.fields.len(),
        0 <= i < x.fields[f].len(),
    ensures
        ({
            let y = driven_block(specs, ext, b, driver, dt, seed, salt, x, buffer);
            &&& y.fields.len() == x.fields.len()
            &&& y.fields[f].len() == x.fields[f].len()
            &&& v(y.fields[f][i]) == v(x.fields[f][i]) + contribution(
                v,
                specs,
                ext,
                b,
                dt,
                root,
                seed,
                salt,
                driver,
                buffer,
                f,
                i,
            )
        }),
{
    if buffer.fields[f].len() != 0 {
        drivers_add_their_increments(
            v,
            driver,
            ext,
            specs[f].halo as int,
            b,
            dt,
            root,
            seed,
            salt,
            buffer.rate,
            buffer.fields[f],
            x.fields[f],
            i,
        );
    }
}

/// In exact arithmetic a step adds to every entry what each driver contributes, all
/// from the buffers evaluated before the step.
pub proof fn steps_add_every_contribution<T: Real, N: DriverSet>(
    v: spec_fn(T) -> real,
    specs: Seq<FieldSpec>,
    ext: Seq<int>,
    b: int,
    dt: T,
    root: real,
    seed: u64,
    salt: u64,
    x: BlockValues<T>,
    drift: BlockValues<T>,
    amps: Seq<BlockValues<T>>,
    f: int,
    i: int,
    n: nat,
)
    requires
        exact(v),
        order_exact(v),
        equality_exact(v),
        growth_exact(v),
        growth_less_one_exact(v),
        roots_exact(v),
        v(dt) >= 0 as real,
        root >= 0 as real,
        root * root == v(dt),
        0 <= f < x.fields.len(),
        0 <= i < x.fields[f].len(),
    ensures
        ({
            let y = stepped_block::<T, N>(specs, ext, b, dt, seed, salt, x, drift, amps, n);
            &&& y.fields.len() == x.fields.len()
            &&& y.fields[f].len() == x.fields[f].len()
            &&& v(y.fields[f][i]) == v(x.fields[f][i]) + contributions::<T, N>(
                v,
                specs,
                ext,
                b,
                dt,
                root,
                seed,
                salt,
                drift,
                amps,
                f,
                i,
                n,
            )
        }),
    decreases n,
{
    if n == 0 {
        lemma_contribution(
            v,
            specs,
            ext,
            b,
            dt,
            root,
            seed,
            salt,
            Driver::Time,
            x,
            drift,
            f,
            i,
        );
    } else {
        let m = (n - 1) as nat;
        steps_add_every_contribution::<T, N>(
            v,
            specs,
            ext,
            b,
            dt,
            root,
            seed,
            salt,
            x,
            drift,
            amps,
            f,
            i,
            m,
        );
        let y = stepped_block::<T, N>(specs, ext, b, dt, seed, salt, x, drift, amps, m);
        lemma_contribution(
            v,
            specs,
            ext,
            b,
            dt,
            root,
            seed,
            salt,
            N::member(n - 1),
            y,
            amps[n - 1],
            f,
            i,
        );
    }
}

/// In exact arithmetic an Euler-Maruyama step moves every entry of every field by the
/// contributions of the clock and of the model's drivers: the model's vector fields at
/// the state with its ghosts filled, the random ones written on cleared buffers, their
/// draws keyed by the seed and the time.
pub proof fn euler_maruyama_adds_every_contribution<
    T: Real,
    G: Grid<T, D>,
    P: Sync,
    M: Model<T, G, P, D>,
    const D: usize,
>(
    v: spec_fn(T) -> real,
    scheme: &EulerMaruyama,
    model: &M,
    grid: &G,
    disc: &P,
    fields: Seq<FieldSpec>,
    state: Seq<BlockValues<T>>,
    stages: Seq<Seq<BlockValues<T>>>,
    t: T,
    dt: T,
    root: real,
    b: int,
    f: int,
    i: int,
)
    requires
        exact(v),
        order_exact(v),
        equality_exact(v),
        growth_exact(v),
        growth_less_one_exact(v),
        roots_exact(v),
        v(dt) >= 0 as real,
        root >= 0 as real,
        root * root == v(dt),
        stages.len() == 1 + M::Drivers::size(),
        forall|j: int|
            0 <= j < stages.len() ==> (#[trigger] stages[j]).len() == model.filled(
                grid,
                fields,
                state,
                t,
            ).len(),
        0 <= b < model.filled(grid, fields, state, t).len(),
        0 <= f < model.filled(grid, fields, state, t)[b].fields.len(),
        0 <= i < model.filled(grid, fields, state, t)[b].fields[f].len(),
    ensures
        ({
            let y = model.filled(grid, fields, state, t);
            let next = scheme.advanced(model, grid, disc, fields, state, stages, t, dt).state;
            let drift = model.vector_field(
                Driver::Time,
                grid,
                disc,
                t,
                b,
                fields,
                y,
                stages[0][b],
            );
            let amps = Seq::new(
                M::Drivers::size(),
                |j: int|
                    model.vector_field(
                        M::Drivers::member(j),
                        grid,
                        disc,
                        t,
                        b,
                        fields,
                        y,
                        zeroed(stages[1 + j][b]),
                    ),
            );
            v(next[b].fields[f][i]) == v(y[b].fields[f][i]) + contributions::<T, M::Drivers>(
                v,
                fields,
                grid.extent_of(b),
                b,
                dt,
                root,
                scheme.seed,
                t.to_bits_spec(),
                drift,
                amps,
                f,
                i,
                M::Drivers::size(),
            )
        }),
{
    let y = model.filled(grid, fields, state, t);
    let n = M::Drivers::size();
    let k = driver_fields::<T, G, P, M, D>(
        model,
        grid,
        disc,
        t,
        fields,
        y,
        stages,
        None,
        n,
    );
    let drift = model.vector_field(Driver::Time, grid, disc, t, b, fields, y, stages[0][b]);
    let amps = Seq::new(
        n,
        |j: int|
            model.vector_field(
                M::Drivers::member(j),
                grid,
                disc,
                t,
                b,
                fields,
                y,
                zeroed(stages[1 + j][b]),
            ),
    );
    assert(stages[0].len() == y.len());
    assert(k[0][b] == drift);
    let used = Seq::new(k.skip(1).len(), |j: int| k.skip(1)[j][b]);
    assert forall|j: int| 0 <= j < n implies #[trigger] used[j] == amps[j] by {
        assert(stages[1 + j].len() == y.len());
        assert(k.skip(1)[j] == k[1 + j]);
    }
    assert(used =~= amps);
    let next = stepped_values::<T, G, M::Drivers, D>(
        fields,
        grid,
        None,
        dt,
        scheme.seed,
        t.to_bits_spec(),
        y,
        k[0],
        k.skip(1),
    );
    assert(next[b] == stepped_block::<T, M::Drivers>(
        fields,
        grid.extent_of(b),
        b,
        dt,
        scheme.seed,
        t.to_bits_spec(),
        y[b],
        drift,
        amps,
        n,
    ));
    steps_add_every_contribution::<T, M::Drivers>(
        v,
        fields,
        grid.extent_of(b),
        b,
        dt,
        root,
        scheme.seed,
        t.to_bits_spec(),
        y[b],
        drift,
        amps,
        f,
        i,
        n,
    );
}

} // verus!
