//! A controlled book stays within its inventory bounds.
use vstd::prelude::*;

use crate::engine::driver::{fires, jump_kick, Driver, DriverSet, WienerJump};
use crate::engine::exact::{exact, order_exact};
use crate::engine::simulation::integrated;
use crate::engine::state::{
    allocated_on, driven_block, full_block, stepped_block, tailored, tailored_on, BlockValues,
    FieldSpec,
};
use crate::engine::storage::Real;
use crate::geometry::cartesian::CartesianGrid;
use crate::geometry::grid::{ghosted, interior_key, slab_at, slab_index, Grid};
use crate::geometry::index::{delin, in_ext, lin, volume};
use crate::integrators::euler_maruyama::{driver_fields, EulerMaruyama};
use crate::integrators::scheme::Integrator;
use crate::physics::market_making::{
    baked_asks, baked_bids, channel_depth, channel_side, channel_step, maker_layout, surface_fits,
    withdrawn_quotes_never_fill, DepthTables, MarketMakerParams, MarketMakingEnsemble,
};
use crate::physics::model::Model;

verus! {

/// The number has the whole value `q`.
pub open spec fn whole<T: Real>(v: spec_fn(T) -> real, x: T, q: int) -> bool {
    v(x) == q as real
}

/// A number of whole value rounds to that value.
pub open spec fn rounding_exact<T: Real>(v: spec_fn(T) -> real) -> bool {
    forall|a: T, q: int|
        i64::MIN <= q <= i64::MAX && #[trigger] whole(v, a, q) ==> a.round_spec().to_i64_spec() == q
}

/// The tables were baked from value surfaces of this model.
pub open spec fn baked<T: Real>(
    p: MarketMakerParams<T>,
    tables: DepthTables<T>,
    surfaces: Seq<Seq<Vec<T>>>,
) -> bool {
    &&& p.bounded()
    &&& tables.sound()
    &&& tables.least() == p.q_min
    &&& tables.greatest() == p.q_max
    &&& tables.bids() == Seq::new(
        surfaces.len(),
        |t: int| baked_bids(p, tables.cells(), surfaces[t]),
    )
    &&& tables.asks() == Seq::new(
        surfaces.len(),
        |t: int| baked_asks(p, tables.cells(), surfaces[t]),
    )
    &&& forall|t: int|
        0 <= t < surfaces.len() ==> surface_fits(p, tables.cells(), #[trigger] surfaces[t])
}

/// The inventory is a whole number within the bounds.
pub open spec fn in_bounds<T: Real>(v: spec_fn(T) -> real, p: MarketMakerParams<T>, x: T) -> bool {
    exists|q: int| p.q_min <= q <= p.q_max && #[trigger] whole(v, x, q)
}

/// The fill intensity of a channel at the state of a path.
pub open spec fn intensity<T: Real>(
    p: MarketMakerParams<T>,
    tables: DepthTables<T>,
    tau: T,
    channel: usize,
    nu: T,
    inv: T,
) -> T {
    channel_side(p, channel).rate_at(channel_depth(&tables, tau, channel, nu, inv))
}

/// In exact arithmetic the two fill channels keep an inventory within its bounds,
/// whatever the draws: at a bound the channel that would cross it never fires, and away
/// from the bounds one unit up and one down cannot cross them. Both intensities are
/// those of the inventory before the step.
pub proof fn fills_keep_the_bounds<T: Real>(
    v: spec_fn(T) -> real,
    p: MarketMakerParams<T>,
    tables: DepthTables<T>,
    surfaces: Seq<Seq<Vec<T>>>,
    tau: T,
    nu: T,
    inv: T,
    dt: T,
    bid_key: u64,
    ask_key: u64,
    c: int,
)
    requires
        exact(v),
        order_exact(v),
        rounding_exact(v),
        !T::infinity_spec().is_finite_spec(),
        baked(p, tables, surfaces),
        in_bounds(v, p, inv),
    ensures
        ({
            let up = if fires(intensity(p, tables, tau, 0, nu, inv), dt, bid_key, c) {
                inv.add_spec(channel_step::<T>(0))
            } else {
                inv
            };
            let down = if fires(intensity(p, tables, tau, 1, nu, inv), dt, ask_key, c) {
                up.add_spec(channel_step::<T>(1))
            } else {
                up
            };
            in_bounds(v, p, down)
        }),
{
    let q = choose|q: int| p.q_min <= q <= p.q_max && #[trigger] whole(v, inv, q);
    assert(inv.round_spec().to_i64_spec() == q);
    withdrawn_quotes_never_fill(p, tables, surfaces, tau, nu, dt, bid_key, c);
    withdrawn_quotes_never_fill(p, tables, surfaces, tau, nu, dt, ask_key, c);
    let one = T::one_spec();
    assert(v(one) == 1 as real && v(one.neg_spec()) == -(1 as real));
    assert((q + 1) as real == q as real + 1 as real);
    assert((q - 1) as real == q as real - 1 as real);
    let bid = fires(intensity(p, tables, tau, 0, nu, inv), dt, bid_key, c);
    let ask = fires(intensity(p, tables, tau, 1, nu, inv), dt, ask_key, c);
    if q == p.q_max {
        assert(!bid);
    }
    if q == p.q_min {
        assert(!ask);
    }
    let up = if bid {
        inv.add_spec(channel_step::<T>(0))
    } else {
        inv
    };
    let down = if ask {
        up.add_spec(channel_step::<T>(1))
    } else {
        up
    };
    let end = if bid && !ask {
        q + 1
    } else if ask && !bid {
        q - 1
    } else {
        q
    };
    assert(whole(v, down, end));
}

/// Offsets of a line without ghosts are its cells.
pub proof fn lemma_line_offset(ext: Seq<int>, o: int)
    requires
        ext.len() == 1,
        0 <= o < ext[0],
    ensures
        slab_index(o, ext, 0) == seq![o],
        in_ext(seq![o], ext),
        interior_key(ext, 0, o) == Some(o),
        slab_at(seq![o], ext, 0) == o,
        volume(ghosted(ext, 0)) == ext[0],
        volume(ext) == ext[0],
{
    reveal_with_fuel(delin, 2);
    reveal_with_fuel(lin, 2);
    reveal_with_fuel(volume, 2);
    let e = ghosted(ext, 0);
    assert(e =~= ext);
    assert(ext.drop_first().len() == 0);
    vstd::arithmetic::div_mod::lemma_small_mod(o as nat, ext[0] as nat);
    assert(delin(o, e) =~= seq![o]);
    assert(slab_index(o, ext, 0) =~= seq![o]);
    let s = seq![o];
    assert(crate::geometry::grid::shifted(s, 0) =~= s);
    assert(lin(s, ext) == o) by {
        assert(ext[0] * lin(s.drop_first(), ext.drop_first()) == 0) by {
            assert(lin(s.drop_first(), ext.drop_first()) == 0);
        }
    }
}

/// A driver that does not move a field has no amplitude for it, and leaves it alone.
proof fn lemma_unmoved<T: Real>(
    fields: Seq<FieldSpec>,
    ext: Seq<int>,
    b: int,
    driver: Driver,
    dt: T,
    seed: u64,
    salt: u64,
    v: BlockValues<T>,
    amp: BlockValues<T>,
    f: int,
)
    requires
        0 <= f < v.fields.len(),
        amp.fields[f].len() == 0,
    ensures
        driven_block(fields, ext, b, driver, dt, seed, salt, v, amp).fields[f] == v.fields[f],
{
}

/// In exact arithmetic a step of the controlled ensemble keeps every path's inventory a
/// whole number within its bounds, whatever the seed.
#[verifier::rlimit(50)]
pub proof fn inventory_stays_in_bounds<T: Real, P: Sync>(
    v: spec_fn(T) -> real,
    model: &MarketMakingEnsemble<T>,
    scheme: &EulerMaruyama,
    grid: &CartesianGrid<T, 1>,
    disc: &P,
    fields: Seq<FieldSpec>,
    state: Seq<BlockValues<T>>,
    stages: Seq<Seq<BlockValues<T>>>,
    t: T,
    dt: T,
    surfaces: Seq<Seq<Vec<T>>>,
    b: int,
    o: int,
)
    requires
        exact(v),
        order_exact(v),
        rounding_exact(v),
        !T::infinity_spec().is_finite_spec(),
        baked(model.setup(), model.quotes(), surfaces),
        grid.valid(),
        maker_layout(fields),
        allocated_on::<T, T, CartesianGrid<T, 1>, 1>(fields, grid, state),
        stages.len() == 5,
        tailored_on::<T, T, CartesianGrid<T, 1>, 1>(fields, grid, Driver::Time, stages[0]),
        forall|i: int|
            0 < i < 5 ==> tailored_on::<T, T, CartesianGrid<T, 1>, 1>(
                fields,
                grid,
                WienerJump::<2, 2>::member(i - 1),
                #[trigger] stages[i],
            ),
        0 <= b < grid.blocks(),
        0 <= o < grid.tile()[0],
        in_bounds(v, model.setup(), state[b].fields[2][o]),
    ensures
        in_bounds(
            v,
            model.setup(),
            integrated::<
                T,
                CartesianGrid<T, 1>,
                P,
                MarketMakingEnsemble<T>,
                EulerMaruyama,
                1,
            >(model, scheme, grid, disc, fields, state, stages, t, dt).state[b].fields[2][o],
        ),
{
    let p = model.setup();
    let tables = model.quotes();
    let tau = model.end().sub_spec(t);
    let ext = grid.tile();
    let seed = scheme.seed;
    let salt = t.to_bits_spec();
    let y = state[b];
    let k = driver_fields::<T, CartesianGrid<T, 1>, P, MarketMakingEnsemble<T>, 1>(
        model,
        grid,
        disc,
        t,
        fields,
        state,
        stages,
        None,
        4,
    );
    let amps = Seq::new(k.skip(1).len(), |i: int| k.skip(1)[i][b]);
    lemma_line_offset(ext, o);
    assert(full_block(fields, grid.extent_of(b), y));
    assert(WienerJump::<2, 2>::size() == 4);
    assert(fields[2].drivers@[0] == Driver::Jump(0) && fields[2].drivers@[1] == Driver::Jump(1));
    assert(tailored(fields, ext, Driver::Time, stages[0][b]));
    assert(tailored(fields, ext, WienerJump::<2, 2>::member(0), stages[1][b]));
    assert(tailored(fields, ext, WienerJump::<2, 2>::member(1), stages[2][b]));
    assert(tailored(fields, ext, WienerJump::<2, 2>::member(2), stages[3][b]));
    assert(tailored(fields, ext, WienerJump::<2, 2>::member(3), stages[4][b]));
    assert(k[0][b].fields[2].len() == 0);
    assert(amps[0].fields[2].len() == 0);
    assert(amps[1].fields[2].len() == 0);
    let s0 = stepped_block::<T, WienerJump<2, 2>>(fields, ext, b, dt, seed, salt, y, k[0][b], amps, 0);
    let s1 = stepped_block::<T, WienerJump<2, 2>>(fields, ext, b, dt, seed, salt, y, k[0][b], amps, 1);
    let s2 = stepped_block::<T, WienerJump<2, 2>>(fields, ext, b, dt, seed, salt, y, k[0][b], amps, 2);
    let s3 = stepped_block::<T, WienerJump<2, 2>>(fields, ext, b, dt, seed, salt, y, k[0][b], amps, 3);
    let s4 = stepped_block::<T, WienerJump<2, 2>>(fields, ext, b, dt, seed, salt, y, k[0][b], amps, 4);
    lemma_unmoved(fields, ext, b, Driver::Time, dt, seed, salt, y, k[0][b], 2);
    lemma_unmoved(fields, ext, b, WienerJump::<2, 2>::member(0), dt, seed, salt, s0, amps[0], 2);
    lemma_unmoved(fields, ext, b, WienerJump::<2, 2>::member(1), dt, seed, salt, s1, amps[1], 2);
    assert(s2.fields[2] == y.fields[2]);
    let nu = y.fields[0][o];
    let inv = y.fields[2][o];
    let bid_key = Driver::Jump(0).block_key(seed, salt, b);
    let ask_key = Driver::Jump(1).block_key(seed, salt, b);
    assert(amps[2].fields[2].len() == ext[0] && amps[2].rate.len() == ext[0]);
    assert(amps[2].fields[2][o] == channel_step::<T>(0));
    assert(amps[2].rate[o] == intensity(p, tables, tau, 0, nu, inv));
    assert(amps[3].fields[2].len() == ext[0] && amps[3].rate.len() == ext[0]);
    assert(amps[3].fields[2][o] == channel_step::<T>(1));
    assert(amps[3].rate[o] == intensity(p, tables, tau, 1, nu, inv));
    assert(s3.fields[2][o] == jump_kick(
        inv,
        channel_step::<T>(0),
        dt,
        amps[2].rate,
        bid_key,
        Some(o),
    ));
    assert(s4.fields[2][o] == jump_kick(
        s3.fields[2][o],
        channel_step::<T>(1),
        dt,
        amps[3].rate,
        ask_key,
        Some(o),
    ));
    fills_keep_the_bounds(v, p, tables, surfaces, tau, nu, inv, dt, bid_key, ask_key, o);
    let next = scheme.advanced(model, grid, disc, fields, state, stages, t, dt);
    assert(next.state[b] == s4);
    let end = integrated::<
        T,
        CartesianGrid<T, 1>,
        P,
        MarketMakingEnsemble<T>,
        EulerMaruyama,
        1,
    >(model, scheme, grid, disc, fields, state, stages, t, dt);
    assert(end.state[b].fields[2] == next.state[b].fields[2]);
}

} // verus!
