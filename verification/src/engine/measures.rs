//! What drivers do to a cell: the clock, diffusion and jumps in exact arithmetic, and
//! the deviates the last two draw.
use vstd::prelude::*;

use crate::engine::driver::{driven, fires, scattered, Driver};
use crate::engine::exact::{
    equality_exact, exact, growth_exact, growth_less_one_exact, lemma_associates, lemma_cancels,
    lemma_commutes, lemma_negates, logarithms_exact, order_exact, roots_exact,
};
use crate::engine::storage::Real;
use crate::geometry::grid::interior_key;
use crate::util::rng::{
    splitmix64_spec, standard_normal_spec, unit_open_spec, unit_ticks, unit_ticks_are_in_range,
};

verus! {

/// In exact arithmetic a uniform deviate is the leading 53 of its 64 bits, counted from
/// one, in units of `2^-53`: it is positive, and at most one.
pub proof fn unit_deviates_fill_the_interval<T: Real>(v: spec_fn(T) -> real, bits: u64)
    requires
        exact(v),
    ensures
        v(unit_open_spec::<T>(bits)) * (0x20_0000_0000_0000int as real) == (bits as int / 2048
            + 1) as real,
        v(unit_open_spec::<T>(bits)) > 0 as real,
        v(unit_open_spec::<T>(bits)) <= 1 as real,
{
    let n = unit_ticks(bits);
    let all: u64 = 0x20_0000_0000_0000;
    unit_ticks_are_in_range(bits);
    assert(bits >> 11 == bits / 2048) by (bit_vector);
    let part = v(T::one_spec().div_spec(T::from_u64_spec(all)));
    let u = v(unit_open_spec::<T>(bits));
    let whole = all as int as real;
    let ticks = n as real;
    assert(part * whole == 1 as real);
    assert(u == ticks * part);
    lemma_associates(ticks, part, whole);
    assert(ticks * (1 as real) == ticks) by (nonlinear_arith);
    assert(u * whole == ticks);
    assert(u > 0 as real) by (nonlinear_arith)
        requires
            u * whole == ticks,
            ticks > 0 as real,
            whole > 0 as real,
    ;
    assert(u <= 1 as real) by (nonlinear_arith)
        requires
            u * whole == ticks,
            ticks <= whole,
            whole > 0 as real,
    ;
}

/// In exact arithmetic a normal deviate is a radius times the cosine of an angle. The
/// exponential of minus half the squared radius is one uniform deviate of the key, and
/// the angle is a full turn times another.
pub proof fn normal_deviates_are_polar<T: Real>(v: spec_fn(T) -> real, key: u64) -> (radius: real)
    requires
        exact(v),
        growth_exact(v),
        roots_exact(v),
        logarithms_exact(v),
    ensures
        radius >= 0 as real,
        ({
            let first = splitmix64_spec(key);
            let second = splitmix64_spec(first ^ 0xD1B5_4A32_D192_ED03);
            let angle = T::tau_spec().mul_spec(unit_open_spec(second));
            &&& v(standard_normal_spec::<T>(key)) == radius * v(angle.cos_spec())
            &&& forall|e: T|
                v(e) + v(e) == -(radius * radius) ==> #[trigger] v(e.exp_spec()) == v(
                    unit_open_spec::<T>(first),
                )
        }),
{
    let first = splitmix64_spec(key);
    let u: T = unit_open_spec(first);
    unit_deviates_fill_the_interval::<T>(v, first);
    let log = u.ln_spec();
    let square = T::from_i64_spec((-2) as i64).mul_spec(log);
    let two = v(T::from_i64_spec((-2) as i64));
    assert(two == (-2) as real);
    assert(two * v(log) == -v(log) - v(log)) by (nonlinear_arith)
        requires
            two == (-2) as real,
    ;
    assert(v(log) <= 0 as real) by {
        let zero = T::zero_spec();
        assert(v(log.exp_spec()) == v(u));
        assert(v(zero.exp_spec()) == 1 as real);
        if v(log) > 0 as real {
            assert(v(zero.exp_spec()) < v(log.exp_spec()));
        }
    }
    let radius = v(square.sqrt_spec());
    assert(radius * radius == v(square));
    assert forall|e: T| v(e) + v(e) == -(radius * radius) implies #[trigger] v(e.exp_spec()) == v(
        u,
    ) by {
        assert(v(e) == v(log));
    }
    radius
}

/// The process jumps: its deviate falls below one less the exponential of minus the
/// intensity times the step.
pub open spec fn jumps<T: Real>(v: spec_fn(T) -> real, rate: T, dt: T, key: u64, c: int) -> bool {
    let u = unit_open_spec::<T>(splitmix64_spec(key ^ (c as u64)));
    forall|e: T|
        v(e) == -(v(rate) * v(dt)) ==> v(u) + #[trigger] v(e.exp_spec()) < 1 as real
}

/// In exact arithmetic a jump process fires with probability `1 - exp(-rate dt)`: where
/// its deviate falls below it. A process without intensity never does, and what fires
/// goes on firing at a higher intensity or over a longer step.
pub proof fn jumps_fire_by_their_intensity<T: Real>(
    v: spec_fn(T) -> real,
    rate: T,
    dt: T,
    higher: T,
    longer: T,
    key: u64,
    c: int,
)
    requires
        exact(v),
        order_exact(v),
        growth_exact(v),
        growth_less_one_exact(v),
        v(dt) >= 0 as real,
        v(rate) <= v(higher),
        v(dt) <= v(longer),
    ensures
        fires(rate, dt, key, c) <==> jumps(v, rate, dt, key, c),
        v(rate) <= 0 as real || v(dt) == 0 as real ==> !fires(rate, dt, key, c),
        fires(rate, dt, key, c) ==> fires(higher, dt, key, c) && fires(rate, longer, key, c),
{
    let u = unit_open_spec::<T>(splitmix64_spec(key ^ (c as u64)));
    unit_deviates_fill_the_interval::<T>(v, splitmix64_spec(key ^ (c as u64)));
    lemma_fires(v, rate, dt, key, c);
    lemma_fires(v, higher, dt, key, c);
    lemma_fires(v, rate, longer, key, c);
    let a = rate.neg_spec().mul_spec(dt);
    let b = higher.neg_spec().mul_spec(dt);
    let d = rate.neg_spec().mul_spec(longer);
    let (r, s, h, l) = (v(rate), v(dt), v(higher), v(longer));
    assert(r <= 0 as real ==> (-r) * s >= 0 as real) by (nonlinear_arith)
        requires
            s >= 0 as real,
    ;
    assert((-r) * (0 as real) == 0 as real) by (nonlinear_arith);
    let zero = T::zero_spec();
    assert(v(zero.exp_spec()) == 1 as real);
    if r <= 0 as real || s == 0 as real {
        assert(v(a) >= 0 as real);
        if v(a) > 0 as real {
            assert(v(zero.exp_spec()) < v(a.exp_spec()));
        }
    }
    if fires(rate, dt, key, c) {
        assert((-h) * s <= (-r) * s) by (nonlinear_arith)
            requires
                r <= h,
                s >= 0 as real,
        ;
        assert((-r) * l <= (-r) * s) by (nonlinear_arith)
            requires
                s <= l,
                r > 0 as real,
        ;
        lemma_exp_order(v, b, a);
        lemma_exp_order(v, d, a);
    }
}

proof fn lemma_exp_order<T: Real>(v: spec_fn(T) -> real, a: T, b: T)
    requires
        exact(v),
        growth_exact(v),
        v(a) <= v(b),
    ensures
        v(a.exp_spec()) <= v(b.exp_spec()),
{
    if v(a) == v(b) {
        let zero = T::zero_spec();
        assert(v(zero.exp_spec()) == 1 as real);
        assert(v(b) == v(a) + v(zero));
        assert(v(b.exp_spec()) == v(a.exp_spec()) * v(zero.exp_spec()));
        let x = v(a.exp_spec());
        assert(x * (1 as real) == x) by (nonlinear_arith);
    }
}

/// Firing, in terms of the exponential.
proof fn lemma_fires<T: Real>(v: spec_fn(T) -> real, rate: T, dt: T, key: u64, c: int)
    requires
        exact(v),
        order_exact(v),
        growth_exact(v),
        growth_less_one_exact(v),
        v(dt) >= 0 as real,
    ensures
        ({
            let u = unit_open_spec::<T>(splitmix64_spec(key ^ (c as u64)));
            let a = rate.neg_spec().mul_spec(dt);
            &&& fires(rate, dt, key, c) <==> v(u) + v(a.exp_spec()) < 1 as real
            &&& fires(rate, dt, key, c) <==> jumps(v, rate, dt, key, c)
            &&& fires(rate, dt, key, c) ==> v(rate) > 0 as real
        }),
{
    let u = unit_open_spec::<T>(splitmix64_spec(key ^ (c as u64)));
    let a = rate.neg_spec().mul_spec(dt);
    unit_deviates_fill_the_interval::<T>(v, splitmix64_spec(key ^ (c as u64)));
    let (r, s) = (v(rate), v(dt));
    lemma_negates(r, s);
    assert(v(a) == -(r * s));
    let zero = T::zero_spec();
    assert(v(zero.exp_spec()) == 1 as real);
    if v(u) + v(a.exp_spec()) < 1 as real && r <= 0 as real {
        assert((-r) * s >= 0 as real) by (nonlinear_arith)
            requires
                r <= 0 as real,
                s >= 0 as real,
        ;
        lemma_exp_order(v, zero, a);
    }
    assert forall|e: T| v(e) == -(r * s) implies #[trigger] v(e.exp_spec()) == v(a.exp_spec()) by {
        lemma_exp_order(v, e, a);
        lemma_exp_order(v, a, e);
    }
}

/// What a driver adds to one entry over a step, in exact arithmetic: the clock `dt`
/// times its field; a Wiener process the root of `dt` times its field times the cell's
/// normal deviate; a jump process its field where it jumps. The random drivers leave
/// ghosts alone.
pub open spec fn increment<T: Real>(
    v: spec_fn(T) -> real,
    driver: Driver,
    cell: Option<int>,
    key: u64,
    dt: T,
    root: real,
    rate: Seq<T>,
    amp: T,
) -> real {
    match driver {
        Driver::Time => v(dt) * v(amp),
        Driver::Wiener(_) => match cell {
            Some(c) => root * v(amp) * v(
                standard_normal_spec::<T>(splitmix64_spec(key ^ (c as u64))),
            ),
            None => 0 as real,
        },
        Driver::Jump(_) => match cell {
            Some(c) => if jumps(v, rate[c], dt, key, c) {
                v(amp)
            } else {
                0 as real
            },
            None => 0 as real,
        },
    }
}

proof fn lemma_same_root(a: real, b: real)
    requires
        a >= 0 as real,
        b >= 0 as real,
        a * a == b * b,
    ensures
        a == b,
{
    if a != b {
        assert(a < b ==> a * a < b * b) by (nonlinear_arith)
            requires
                a >= 0 as real,
                b >= 0 as real,
        ;
        assert(b < a ==> b * b < a * a) by (nonlinear_arith)
            requires
                a >= 0 as real,
                b >= 0 as real,
        ;
    }
}

/// In exact arithmetic a driver adds its increment to every entry of a slab, and
/// nothing else.
pub proof fn drivers_add_their_increments<T: Real>(
    v: spec_fn(T) -> real,
    driver: Driver,
    ext: Seq<int>,
    g: int,
    b: int,
    dt: T,
    root: real,
    seed: u64,
    salt: u64,
    rate: Seq<T>,
    amp: Seq<T>,
    x: Seq<T>,
    i: int,
)
    requires
        exact(v),
        order_exact(v),
        equality_exact(v),
        growth_exact(v),
        growth_less_one_exact(v),
        roots_exact(v),
        v(dt) >= 0 as real,
        root >= 0 as real,
        root * root == v(dt),
        0 <= i < x.len(),
    ensures
        v(driven(driver, ext, g, b, dt, seed, salt, rate, amp, x)[i]) == v(x[i]) + increment(
            v,
            driver,
            interior_key(ext, g, i),
            driver.block_key(seed, salt, b),
            dt,
            root,
            rate,
            amp[i],
        ),
{
    let key = driver.block_key(seed, salt, b);
    lemma_same_root(v(dt.sqrt_spec()), root);
    match interior_key(ext, g, i) {
        Some(c) => {
            if driver is Wiener {
                let z = v(standard_normal_spec::<T>(splitmix64_spec(key ^ (c as u64))));
                assert((root * (0 as real)) * z == 0 as real) by (nonlinear_arith);
            }
            if driver is Jump {
                lemma_fires(v, rate[c], dt, key, c);
            }
        },
        None => {},
    }
}

/// In exact arithmetic scattered noise adds to every interior entry the scale times its
/// amplitude times the normal deviate of its cell, and leaves ghosts alone.
pub proof fn scattered_noise_is_scaled<T: Real>(
    v: spec_fn(T) -> real,
    ext: Seq<int>,
    g: int,
    scale: T,
    key: u64,
    amp: Seq<T>,
    x: Seq<T>,
    i: int,
)
    requires
        exact(v),
        equality_exact(v),
        0 <= i < x.len(),
    ensures
        v(scattered(ext, g, scale, key, amp, x)[i]) == v(x[i]) + match interior_key(ext, g, i) {
            Some(c) => v(scale) * v(amp[i]) * v(
                standard_normal_spec::<T>(splitmix64_spec(key ^ (c as u64))),
            ),
            None => 0 as real,
        },
{
    if let Some(c) = interior_key(ext, g, i) {
        let z = v(standard_normal_spec::<T>(splitmix64_spec(key ^ (c as u64))));
        let s = v(scale);
        assert(s * (0 as real) == 0 as real && 0 as real * z == 0 as real) by (nonlinear_arith);
    }
}

} // verus!
