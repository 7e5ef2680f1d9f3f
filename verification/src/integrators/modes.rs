//! What the explicit schemes make of an eigenmode.
//!
//! A linear model multiplies its eigenmodes by a rate, so a scheme multiplies them by a
//! factor per step: the polynomial in rate times step that approximates the
//! exponential.
use vstd::prelude::*;

use crate::engine::driver::{Driver, NoNoise};
use crate::engine::exact::{exact, lemma_associates, lemma_commutes, lemma_distributes};
use crate::engine::state::{axpy_block, axpy_slab, axpy_values, BlockValues, FieldSpec};
use crate::engine::storage::Real;
use crate::geometry::grid::Grid;
use crate::integrators::euler::ForwardEuler;
use crate::integrators::rk4::{slope, slopes, RungeKutta4};
use crate::integrators::scheme::{evaluated, stage_ready, Integrator, StageKind};
use crate::physics::model::Model;

verus! {

/// A mode: a value at every entry of a set of entries, given by block, field and
/// offset.
pub struct Mode {
    /// The entries the mode lives on.
    pub inside: spec_fn(int, int, int) -> bool,
    /// The mode's value at an entry.
    pub shape: spec_fn(int, int, int) -> real,
}

/// The contents are `a` times the mode, wherever it lives.
pub open spec fn carries<T: Real>(
    w: spec_fn(T) -> real,
    mode: Mode,
    a: real,
    u: Seq<BlockValues<T>>,
) -> bool {
    forall|b: int, f: int, i: int| #[trigger]
        (mode.inside)(b, f, i) ==> {
            &&& 0 <= b < u.len()
            &&& 0 <= f < u[b].fields.len()
            &&& 0 <= i < u[b].fields[f].len()
            &&& w(u[b].fields[f][i]) == a * (mode.shape)(b, f, i)
        }
}

/// The mode is an eigenmode of the model at this rate: filling ghosts keeps every
/// multiple of it, and the drift is the rate times the multiple.
pub open spec fn is_eigenmode<T: Real, G: Grid<T, D>, P, M: Model<T, G, P, D>, const D: usize>(
    w: spec_fn(T) -> real,
    mode: Mode,
    rate: real,
    model: &M,
    grid: &G,
    disc: &P,
    fields: Seq<FieldSpec>,
) -> bool {
    &&& forall|u: Seq<BlockValues<T>>, t: T, a: real|
        #![trigger carries(w, mode, a, u), model.filled(grid, fields, u, t)]
        carries(w, mode, a, u) ==> carries(w, mode, a, model.filled(grid, fields, u, t))
    &&& forall|u: Seq<BlockValues<T>>, out: Seq<BlockValues<T>>, t: T, a: real|
        #![trigger carries(w, mode, a, u), evaluated::<T, G, P, M, D>(model, Driver::Time, grid, disc, t, fields, u, out, false, None)]
        carries(w, mode, a, u) && stage_ready::<T, G, D>(
            StageKind::Tendency(Driver::Time),
            fields,
            grid,
            out,
        ) ==> carries(
            w,
            mode,
            rate * a,
            evaluated::<T, G, P, M, D>(
                model,
                Driver::Time,
                grid,
                disc,
                t,
                fields,
                u,
                out,
                false,
                None,
            ),
        )
}

/// Adding a multiple of a buffer adds the multiples of the mode.
proof fn lemma_carries_axpy<T: Real>(
    w: spec_fn(T) -> real,
    mode: Mode,
    a: real,
    u: Seq<BlockValues<T>>,
    alpha: T,
    b: real,
    k: Seq<BlockValues<T>>,
)
    requires
        exact(w),
        carries(w, mode, a, u),
        carries(w, mode, b, k),
    ensures
        carries(w, mode, a + w(alpha) * b, axpy_values(u, alpha, k)),
{
    let v = axpy_values(u, alpha, k);
    assert forall|c: int, f: int, i: int| #[trigger] (mode.inside)(c, f, i) implies {
        &&& 0 <= c < v.len()
        &&& 0 <= f < v[c].fields.len()
        &&& 0 <= i < v[c].fields[f].len()
        &&& w(v[c].fields[f][i]) == (a + w(alpha) * b) * (mode.shape)(c, f, i)
    } by {
        let e = (mode.shape)(c, f, i);
        assert(v[c] == axpy_block(u[c], alpha, k[c]));
        assert(v[c].fields[f] == axpy_slab(u[c].fields[f], alpha, k[c].fields[f]));
        assert(v[c].fields[f][i] == u[c].fields[f][i].add_spec(
            alpha.mul_spec(k[c].fields[f][i]),
        ));
        lemma_distributes(e, a, w(alpha) * b);
        lemma_associates(w(alpha), b, e);
    }
}

/// In exact arithmetic a forward Euler step multiplies an eigenmode by one plus the rate
/// times the step.
pub proof fn euler_amplifies_modes_linearly<
    T: Real,
    G: Grid<T, D>,
    P: Sync,
    M: Model<T, G, P, D, Drivers = NoNoise>,
    const D: usize,
>(
    w: spec_fn(T) -> real,
    mode: Mode,
    rate: real,
    model: &M,
    grid: &G,
    disc: &P,
    fields: Seq<FieldSpec>,
    state: Seq<BlockValues<T>>,
    stages: Seq<Seq<BlockValues<T>>>,
    t: T,
    dt: T,
)
    requires
        exact(w),
        is_eigenmode::<T, G, P, M, D>(w, mode, rate, model, grid, disc, fields),
        carries(w, mode, 1 as real, state),
        stage_ready::<T, G, D>(StageKind::Tendency(Driver::Time), fields, grid, stages[0]),
    ensures
        carries(
            w,
            mode,
            1 as real + rate * w(dt),
            Integrator::<T, G, P, M, D>::advanced(
                &ForwardEuler,
                model,
                grid,
                disc,
                fields,
                state,
                stages,
                t,
                dt,
            ).state,
        ),
{
    let y = model.filled(grid, fields, state, t);
    let k = evaluated::<T, G, P, M, D>(
        model,
        Driver::Time,
        grid,
        disc,
        t,
        fields,
        y,
        stages[0],
        false,
        None,
    );
    assert(carries(w, mode, 1 as real, y));
    assert(carries(w, mode, rate * (1 as real), k));
    assert(rate * (1 as real) == rate) by (nonlinear_arith);
    lemma_carries_axpy(w, mode, 1 as real, y, dt, rate, k);
    lemma_commutes(rate, w(dt));
}

/// The fourth-order Taylor polynomial of the exponential.
pub open spec fn quartic(z: real) -> real {
    1 as real + z + z * z / (2 as real) + z * (z * z) / (6 as real) + z * (z * (z * z)) / (
    24 as real)
}

/// The weights of the scheme, over the reals.
proof fn lemma_weights(
    c: real,
    h: real,
    half: real,
    sixth: real,
    third: real,
    m2: real,
    m3: real,
    m4: real,
)
    requires
        half + half == 1 as real,
        sixth * (6 as real) == h,
        third * (3 as real) == h,
        m2 == 1 as real + (half * h) * c,
        m3 == 1 as real + (half * h) * (c * m2),
        m4 == 1 as real + h * (c * m3),
    ensures
        1 as real + sixth * c + third * (c * m2) + third * (c * m3) + sixth * (c * m4) == quartic(
            c * h,
        ),
{
    let z = c * h;
    lemma_commutes(c, h);
    let g = half * h;
    assert(g + g == h) by {
        lemma_distributes(h, half, half);
        assert(1 as real * h == h) by (nonlinear_arith);
    }
    assert(2 as real * (g * c) == z) by {
        lemma_distributes(c, g, g);
    }
    assert(2 as real * m2 == 2 as real + z);
    let z2 = z * z;
    let z3 = z * z2;
    let z4 = z * z3;
    assert(2 as real * (g * (c * m2)) == z * m2) by {
        lemma_associates(g, c, m2);
        lemma_distributes(m2, g * c, g * c);
    }
    assert(2 as real * (z * m2) == 2 as real * z + z2) by {
        lemma_distributes(z, m2, m2);
        lemma_distributes(z, 2 as real, z);
        lemma_commutes(z, 2 as real);
    }
    assert(4 as real * m3 == 4 as real + 2 as real * z + z2);
    assert(h * (c * m3) == z * m3) by {
        lemma_associates(h, c, m3);
    }
    assert(4 as real * (z * m3) == 4 as real * z + 2 as real * z2 + z3) by {
        let m = m3 + m3;
        lemma_distributes(z, m3, m3);
        lemma_distributes(z, m, m);
        lemma_distributes(z, 4 as real + 2 as real * z, z2);
        lemma_distributes(z, 4 as real, 2 as real * z);
        lemma_commutes(z, 4 as real);
        lemma_distributes(z, z, z);
    }
    assert(4 as real * (z * m4) == 4 as real * z + 4 as real * z2 + 2 as real * z3 + z4) by {
        let m = m4 + m4;
        lemma_distributes(z, m4, m4);
        lemma_distributes(z, m, m);
        let a = 4 as real + 4 as real * z;
        let b = 2 as real * z2;
        assert(m + m == a + b + z3);
        lemma_distributes(z, a + b, z3);
        lemma_distributes(z, a, b);
        lemma_distributes(z, 4 as real, 4 as real * z);
        lemma_commutes(z, 4 as real);
        lemma_distributes(z, z + z, z + z);
        lemma_distributes(z, z, z);
        lemma_distributes(z, z2, z2);
    }
    let q = c;
    assert(6 as real * (sixth * q) == z) by {
        let s = sixth;
        lemma_distributes(q, s, s);
        lemma_distributes(q, s + s, s + s);
        lemma_distributes(q, s + s + (s + s), s + s);
        assert(s * (6 as real) == s + s + (s + s) + (s + s));
    }
    assert(6 as real * (sixth * (c * m4)) == z * m4) by {
        lemma_associates(sixth, c, m4);
        let s = sixth * c;
        lemma_distributes(m4, s, s);
        lemma_distributes(m4, s + s, s + s);
        lemma_distributes(m4, s + s + (s + s), s + s);
    }
    assert(3 as real * (third * c) == z) by {
        let s = third;
        lemma_distributes(c, s, s);
        lemma_distributes(c, s + s, s);
        assert(s * (3 as real) == s + s + s);
    }
    assert(3 as real * (third * (c * m2)) == z * m2) by {
        lemma_associates(third, c, m2);
        let s = third * c;
        lemma_distributes(m2, s, s);
        lemma_distributes(m2, s + s, s);
    }
    assert(3 as real * (third * (c * m3)) == z * m3) by {
        lemma_associates(third, c, m3);
        let s = third * c;
        lemma_distributes(m3, s, s);
        lemma_distributes(m3, s + s, s);
    }
}

/// In exact arithmetic a Runge-Kutta step multiplies an eigenmode by the fourth-order
/// Taylor polynomial of the exponential of the rate times the step.
pub proof fn runge_kutta_amplifies_modes_to_fourth_order<
    T: Real,
    G: Grid<T, D>,
    P: Sync,
    M: Model<T, G, P, D, Drivers = NoNoise>,
    const D: usize,
>(
    w: spec_fn(T) -> real,
    mode: Mode,
    rate: real,
    model: &M,
    grid: &G,
    disc: &P,
    fields: Seq<FieldSpec>,
    state: Seq<BlockValues<T>>,
    stages: Seq<Seq<BlockValues<T>>>,
    t: T,
    dt: T,
)
    requires
        exact(w),
        is_eigenmode::<T, G, P, M, D>(w, mode, rate, model, grid, disc, fields),
        carries(w, mode, 1 as real, state),
        forall|i: int|
            0 <= i < 4 ==> stage_ready::<T, G, D>(
                StageKind::Tendency(Driver::Time),
                fields,
                grid,
                #[trigger] stages[i],
            ),
    ensures
        carries(
            w,
            mode,
            quartic(rate * w(dt)),
            Integrator::<T, G, P, M, D>::advanced(
                &RungeKutta4,
                model,
                grid,
                disc,
                fields,
                state,
                stages,
                t,
                dt,
            ).state,
        ),
{
    let one = 1 as real;
    let h = w(dt);
    let half = T::half_spec().mul_spec(dt);
    let sixth = dt.div_spec(T::from_u64_spec(6));
    let third = dt.div_spec(T::from_u64_spec(3));
    let y = model.filled(grid, fields, state, t);
    let k = slopes::<T, G, P, M, D>(model, grid, disc, fields, y, stages, t, dt);
    assert(stage_ready::<T, G, D>(
        StageKind::Tendency(Driver::Time),
        fields,
        grid,
        stages[0],
    ));
    assert(carries(w, mode, one, y));
    assert(carries(w, mode, rate * one, k.k1));
    assert(rate * one == rate) by (nonlinear_arith)
        requires
            one == 1 as real,
    ;
    let m2 = one + w(half) * rate;
    let y2 = axpy_values(y, half, k.k1);
    lemma_carries_axpy(w, mode, one, y, half, rate, k.k1);
    let mid = T::half_spec().mul_add_spec(dt, t);
    assert(carries(w, mode, m2, model.filled(grid, fields, y2, mid)));
    assert(stage_ready::<T, G, D>(
        StageKind::Tendency(Driver::Time),
        fields,
        grid,
        stages[1],
    ));
    assert(k.k2 == slope::<T, G, P, M, D>(model, grid, disc, fields, y2, stages[1], mid));
    assert(carries(w, mode, rate * m2, k.k2));
    let m3 = one + w(half) * (rate * m2);
    let y3 = axpy_values(y, half, k.k2);
    lemma_carries_axpy(w, mode, one, y, half, rate * m2, k.k2);
    assert(carries(w, mode, m3, model.filled(grid, fields, y3, mid)));
    assert(stage_ready::<T, G, D>(
        StageKind::Tendency(Driver::Time),
        fields,
        grid,
        stages[2],
    ));
    assert(k.k3 == slope::<T, G, P, M, D>(model, grid, disc, fields, y3, stages[2], mid));
    assert(carries(w, mode, rate * m3, k.k3));
    let m4 = one + h * (rate * m3);
    let y4 = axpy_values(y, dt, k.k3);
    let end = t.add_spec(dt);
    lemma_carries_axpy(w, mode, one, y, dt, rate * m3, k.k3);
    assert(carries(w, mode, m4, model.filled(grid, fields, y4, end)));
    assert(stage_ready::<T, G, D>(
        StageKind::Tendency(Driver::Time),
        fields,
        grid,
        stages[3],
    ));
    assert(k.k4 == slope::<T, G, P, M, D>(model, grid, disc, fields, y4, stages[3], end));
    assert(carries(w, mode, rate * m4, k.k4));
    let s1 = one + w(sixth) * rate;
    let v1 = axpy_values(y, sixth, k.k1);
    lemma_carries_axpy(w, mode, one, y, sixth, rate, k.k1);
    let s2 = s1 + w(third) * (rate * m2);
    let v2 = axpy_values(v1, third, k.k2);
    lemma_carries_axpy(w, mode, s1, v1, third, rate * m2, k.k2);
    let s3 = s2 + w(third) * (rate * m3);
    let v3 = axpy_values(v2, third, k.k3);
    lemma_carries_axpy(w, mode, s2, v2, third, rate * m3, k.k3);
    lemma_carries_axpy(w, mode, s3, v3, sixth, rate * m4, k.k4);
    assert(w(T::from_u64_spec(6)) == 6 as real);
    assert(w(T::from_u64_spec(3)) == 3 as real);
    lemma_weights(rate, h, w(T::half_spec()), w(sixth), w(third), m2, m3, m4);
}

} // verus!
