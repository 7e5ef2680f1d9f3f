//! What an implicit-explicit step solves.
use vstd::prelude::*;

use crate::engine::driver::{Driver, NoNoise};
use crate::engine::exact::exact;
use crate::engine::state::{allocated_on, full_block, BlockValues, FieldSpec};
use crate::engine::storage::Real;
use crate::geometry::cartesian::CartesianGrid;
use crate::geometry::grid::{ghosted, lemma_spread, Grid};
use crate::geometry::halo::field_slabs;
use crate::geometry::index::volume;
use crate::integrators::imex::{
    any_stiff, dominant, dominant_systems_are_solved, explicit_part, field_line, imex_field,
    imex_line, imex_values, lemma_imex_field_of, lemma_line_blocks, lemma_line_cell,
    lemma_run_slab, line_len, line_value, magnitude, run_len, solution, stiff_line, zero_row,
    ImexEuler,
};
use crate::integrators::scheme::{evaluated, Integrator};
use crate::physics::model::Model;

verus! {

/// The value a field holds at position `i` of the line, zero beyond its ends.
pub open spec fn held<T: Real>(
    v: spec_fn(T) -> real,
    grid: &CartesianGrid<T, 1>,
    fields: Seq<FieldSpec>,
    s: Seq<BlockValues<T>>,
    f: int,
    i: int,
) -> real {
    let n = grid.tile()[0];
    if 0 <= i < grid.domain()[0] {
        v(s[i / n].fields[f][i % n + fields[f].halo])
    } else {
        0 as real
    }
}

/// Coefficient `d` of the model's stiff row at position `i` of the line: 0 couples to
/// the position before, 1 to the position itself, 2 to the one after. A block without
/// stiff rows couples to nothing.
pub open spec fn coupling<T: Real, P, M: Model<T, CartesianGrid<T, 1>, P, 1>>(
    v: spec_fn(T) -> real,
    model: &M,
    grid: &CartesianGrid<T, 1>,
    f: int,
    i: int,
    d: int,
) -> real {
    let n = grid.tile()[0];
    match model.stiff_part(grid, i / n, f) {
        Some(rows) => v(rows[i % n][d]),
        None => 0 as real,
    }
}

/// The model's stiff operator applied to what a field holds, at position `i`.
pub open spec fn stiff_rate<T: Real, P, M: Model<T, CartesianGrid<T, 1>, P, 1>>(
    v: spec_fn(T) -> real,
    model: &M,
    grid: &CartesianGrid<T, 1>,
    fields: Seq<FieldSpec>,
    s: Seq<BlockValues<T>>,
    f: int,
    i: int,
) -> real {
    coupling::<T, P, M>(v, model, grid, f, i, 0) * held(v, grid, fields, s, f, i - 1) + coupling::<
        T,
        P,
        M,
    >(v, model, grid, f, i, 1) * held(v, grid, fields, s, f, i) + coupling::<T, P, M>(
        v,
        model,
        grid,
        f,
        i,
        2,
    ) * held(v, grid, fields, s, f, i + 1)
}

/// At position `i` the implicit part is strictly diagonally dominant: one less the step
/// times the own coefficient outweighs the step times the couplings on the line.
pub open spec fn outweighs<T: Real, P, M: Model<T, CartesianGrid<T, 1>, P, 1>>(
    v: spec_fn(T) -> real,
    model: &M,
    grid: &CartesianGrid<T, 1>,
    f: int,
    dt: T,
    i: int,
) -> bool {
    let below = if i > 0 {
        magnitude(v(dt) * coupling::<T, P, M>(v, model, grid, f, i, 0))
    } else {
        0 as real
    };
    let above = if i + 1 < grid.domain()[0] {
        magnitude(v(dt) * coupling::<T, P, M>(v, model, grid, f, i, 2))
    } else {
        0 as real
    };
    below + above < magnitude(1 as real - v(dt) * coupling::<T, P, M>(v, model, grid, f, i, 1))
}

/// The drift of the model at a state, over the whole grid.
pub open spec fn drift_at<T: Real, P, M: Model<T, CartesianGrid<T, 1>, P, 1>>(
    model: &M,
    grid: &CartesianGrid<T, 1>,
    disc: &P,
    t: T,
    fields: Seq<FieldSpec>,
    y: Seq<BlockValues<T>>,
    buffer: Seq<BlockValues<T>>,
) -> Seq<BlockValues<T>> {
    Seq::new(
        grid.blocks() as nat,
        |b: int| model.vector_field(Driver::Time, grid, disc, t, b, fields, y, buffer[b]),
    )
}

/// A row of the line holds the couplings.
proof fn lemma_row<T: Real, P, M: Model<T, CartesianGrid<T, 1>, P, 1>>(
    v: spec_fn(T) -> real,
    model: &M,
    grid: &CartesianGrid<T, 1>,
    f: int,
    i: int,
)
    requires
        exact(v),
        0 <= i < line_len(grid),
    ensures
        v(stiff_line::<T, P, M>(model, grid, f)[i][0]) == coupling::<T, P, M>(
            v,
            model,
            grid,
            f,
            i,
            0,
        ),
        v(stiff_line::<T, P, M>(model, grid, f)[i][1]) == coupling::<T, P, M>(
            v,
            model,
            grid,
            f,
            i,
            1,
        ),
        v(stiff_line::<T, P, M>(model, grid, f)[i][2]) == coupling::<T, P, M>(
            v,
            model,
            grid,
            f,
            i,
            2,
        ),
{
    lemma_zero_row::<T>();
}

proof fn lemma_zero_row<T: Real>()
    ensures
        zero_row::<T>()[0] == T::zero_spec(),
        zero_row::<T>()[1] == T::zero_spec(),
        zero_row::<T>()[2] == T::zero_spec(),
{
    let a: [T; 3] = [T::zero_spec(), T::zero_spec(), T::zero_spec()];
    lemma_spread::<T, 3>(a, |d: int| T::zero_spec());
}

/// The line a step leaves, position by position.
proof fn lemma_stepped_line<T: Real, P, M: Model<T, CartesianGrid<T, 1>, P, 1>>(
    model: &M,
    grid: &CartesianGrid<T, 1>,
    fields: Seq<FieldSpec>,
    y: Seq<BlockValues<T>>,
    k: Seq<BlockValues<T>>,
    dt: T,
    f: int,
    i: int,
)
    requires
        grid.valid(),
        allocated_on::<T, T, CartesianGrid<T, 1>, 1>(fields, grid, y),
        0 <= f < fields.len(),
        fields[f].moved_by(Driver::Time),
        0 <= i < line_len(grid),
    ensures
        ({
            let g = fields[f].halo as int;
            let n = run_len(grid);
            imex_values::<T, P, M>(model, grid, fields, y, k, dt, fields.len())[i
                / n].fields[f][i % n + g] == imex_line::<T, P, M>(
                model,
                grid,
                f,
                field_line(grid, g, field_slabs(y, f)),
                field_line(grid, g, field_slabs(k, f)),
                dt,
            )[i]
        }),
{
    let g = fields[f].halo as int;
    let n = run_len(grid);
    let b = i / n;
    let j = i % n;
    lemma_line_blocks(grid);
    vstd::arithmetic::div_mod::lemma_fundamental_div_mod(i, n);
    assert(0 <= j < n) by {
        vstd::arithmetic::div_mod::lemma_mod_bound(i, n);
    }
    assert(n * b == b * n) by (nonlinear_arith);
    assert(0 <= b < grid.blocks()) by (nonlinear_arith)
        requires
            b * n + j == i,
            0 <= j < n,
            0 <= i < grid.blocks() * n,
    ;
    lemma_line_cell(grid, b, j);
    lemma_run_slab(grid, g);
    lemma_imex_field_of::<T, P, M>(model, grid, fields, y, k, dt, fields.len(), f, b);
    assert(full_block(fields, grid.extent_of(b), y[b]));
    assert(y[b].fields[f].len() == volume(ghosted(grid.extent_of(b), g)));
    let stepped = imex_field::<T, P, M>(
        model,
        grid,
        f,
        g,
        field_slabs(y, f),
        field_slabs(k, f),
        dt,
    );
    assert(stepped[b].len() == n + 2 * g);
}

/// In exact arithmetic an implicit-explicit step solves
/// `(I - dt L) Y' = Y + dt (V(Y) - L Y)` along the line, where the implicit part is
/// diagonally dominant: `L` is the model's stiff part, `V` its drift, and `Y` the state
/// with its ghosts filled. A field the clock does not move is left alone.
pub proof fn imex_steps_solve_the_split_equation<
    T: Real,
    P: Sync,
    M: Model<T, CartesianGrid<T, 1>, P, 1, Drivers = NoNoise>,
>(
    v: spec_fn(T) -> real,
    model: &M,
    grid: &CartesianGrid<T, 1>,
    disc: &P,
    fields: Seq<FieldSpec>,
    state: Seq<BlockValues<T>>,
    stages: Seq<Seq<BlockValues<T>>>,
    t: T,
    dt: T,
    f: int,
    i: int,
)
    requires
        exact(v),
        grid.valid(),
        allocated_on::<T, T, CartesianGrid<T, 1>, 1>(
            fields,
            grid,
            model.filled(grid, fields, state, t),
        ),
        stages.len() > 0,
        stages[0].len() == grid.blocks(),
        0 <= f < fields.len(),
        0 <= i < grid.domain()[0],
        forall|j: int|
            0 <= j < grid.domain()[0] ==> #[trigger] outweighs::<T, P, M>(
                v,
                model,
                grid,
                f,
                dt,
                j,
            ),
    ensures
        ({
            let y = model.filled(grid, fields, state, t);
            let k = drift_at::<T, P, M>(model, grid, disc, t, fields, y, stages[0]);
            let x = ImexEuler.advanced(model, grid, disc, fields, state, stages, t, dt).state;
            if fields[f].moved_by(Driver::Time) {
                held(v, grid, fields, x, f, i) - v(dt) * stiff_rate::<T, P, M>(
                    v,
                    model,
                    grid,
                    fields,
                    x,
                    f,
                    i,
                ) == held(v, grid, fields, y, f, i) + v(dt) * (held(v, grid, fields, k, f, i)
                    - stiff_rate::<T, P, M>(v, model, grid, fields, y, f, i))
            } else {
                held(v, grid, fields, x, f, i) == held(v, grid, fields, y, f, i)
            }
        }),
{
    let y = model.filled(grid, fields, state, t);
    let k = drift_at::<T, P, M>(model, grid, disc, t, fields, y, stages[0]);
    assert(evaluated::<T, CartesianGrid<T, 1>, P, M, 1>(
        model,
        Driver::Time,
        grid,
        disc,
        t,
        fields,
        y,
        stages[0],
        false,
        None,
    ) =~= k);
    let x = imex_values::<T, P, M>(model, grid, fields, y, k, dt, fields.len());
    let g = fields[f].halo as int;
    let line = field_line(grid, g, field_slabs(y, f));
    let slope = field_line(grid, g, field_slabs(k, f));
    let rows = stiff_line::<T, P, M>(model, grid, f);
    let n = run_len(grid);
    lemma_line_blocks(grid);
    assert forall|j: int| 0 <= j < line_len(grid) implies 0 <= #[trigger] (j / n) < grid.blocks() by {
        vstd::arithmetic::div_mod::lemma_fundamental_div_mod(j, n);
        vstd::arithmetic::div_mod::lemma_mod_bound(j, n);
        let q = j / n;
        assert(n * q == q * n) by (nonlinear_arith);
        let r = j % n;
        assert(0 <= q < grid.blocks()) by (nonlinear_arith)
            requires
                q * n + r == j,
                0 <= r < n,
                0 <= j < grid.blocks() * n,
        ;
    }
    if !fields[f].moved_by(Driver::Time) {
        lemma_imex_field_of::<T, P, M>(model, grid, fields, y, k, dt, fields.len(), f, i / n);
    } else {
        assert forall|j: int| 0 <= j < line_len(grid) implies held(v, grid, fields, y, f, j) == v(
            #[trigger] line[j],
        ) by {}
        assert forall|j: int| 0 <= j < line_len(grid) implies held(v, grid, fields, k, f, j) == v(
            #[trigger] slope[j],
        ) by {}
        let next = imex_line::<T, P, M>(model, grid, f, line, slope, dt);
        assert forall|j: int| 0 <= j < line_len(grid) implies held(v, grid, fields, x, f, j) == v(
            #[trigger] next[j],
        ) by {
            lemma_stepped_line::<T, P, M>(model, grid, fields, y, k, dt, f, j);
        }
        assert(held(v, grid, fields, x, f, i) == v(next[i]));
        assert(held(v, grid, fields, y, f, i) == v(line[i]));
        assert(held(v, grid, fields, k, f, i) == v(slope[i]));
        if i > 0 {
            assert(held(v, grid, fields, x, f, i - 1) == v(next[i - 1]));
            assert(held(v, grid, fields, y, f, i - 1) == v(line[i - 1]));
        }
        if i + 1 < line_len(grid) {
            assert(held(v, grid, fields, x, f, i + 1) == v(next[i + 1]));
            assert(held(v, grid, fields, y, f, i + 1) == v(line[i + 1]));
        }
        lemma_row::<T, P, M>(v, model, grid, f, i);
        if any_stiff::<T, P, M>(model, grid, f) {
            let rhs = explicit_part(rows, line, slope, dt);
            assert forall|j: int| 0 <= j < rows.len() implies #[trigger] dominant(
                v,
                rows,
                dt,
                j,
            ) by {
                lemma_row::<T, P, M>(v, model, grid, f, j);
                assert(outweighs::<T, P, M>(v, model, grid, f, dt, j));
            }
            dominant_systems_are_solved(v, rows, dt, rhs, i);
            let sol = Seq::new(rhs.len(), |j: int| solution(rows, dt, rhs, j));
            assert(next =~= sol);
            assert(line_value(v, next, i - 1) == held(v, grid, fields, x, f, i - 1));
            assert(line_value(v, next, i + 1) == held(v, grid, fields, x, f, i + 1));
            assert(v(rhs[i]) == v(dt) * (v(slope[i]) - stiff_rate::<T, P, M>(
                v,
                model,
                grid,
                fields,
                y,
                f,
                i,
            )) + v(line[i]));
        } else {
            assert(model.stiff_part(grid, i / n, f) is None);
            assert(0 as real * held(v, grid, fields, x, f, i - 1) == 0 as real && 0 as real * held(
                v,
                grid,
                fields,
                x,
                f,
                i,
            ) == 0 as real && 0 as real * held(v, grid, fields, x, f, i + 1) == 0 as real)
                by (nonlinear_arith);
            assert(0 as real * held(v, grid, fields, y, f, i - 1) == 0 as real && 0 as real * held(
                v,
                grid,
                fields,
                y,
                f,
                i,
            ) == 0 as real && 0 as real * held(v, grid, fields, y, f, i + 1) == 0 as real)
                by (nonlinear_arith);
            assert(v(dt) * (0 as real) == 0 as real) by (nonlinear_arith);
            assert(v(next[i]) == v(line[i]) + v(dt) * v(slope[i]));
        }
    }
}

} // verus!
