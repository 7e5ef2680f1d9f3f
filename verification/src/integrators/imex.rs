//! Implicit-explicit Euler for models with a stiff tridiagonal part.
use vstd::prelude::*;

use crate::engine::driver::{Driver, NoNoise};
use crate::engine::exact::{
    exact, lemma_associates, lemma_commutes, lemma_distributes, lemma_negates,
};
use crate::engine::scheduler::Scheduler;
use crate::engine::state::{
    all_values, allocated_on, axpy_values, full_block, interiors_fit, tailored, BlockValues,
    FieldHandle, FieldSpec, State,
};
use crate::engine::storage::{Allocator, Real, StorageBackend};
use crate::geometry::cartesian::CartesianGrid;
use crate::geometry::grid::{finest_array, ghosted, lemma_spread, spread, BlockId, Grid};
use crate::geometry::halo::{field_slabs, with_field};
use crate::geometry::index::volume;
use crate::integrators::euler::{finest_spacing_of, ForwardEuler};
use crate::integrators::scheme::{
    eval_drift, evaluated, stage_ready, Advanced, Integrator, StageKind, StageLayout, StepCtx,
};
use crate::physics::model::Model;

verus! {

/// A row without coefficients.
pub open spec fn zero_row<T: Real>() -> [T; 3] {
    spread::<T, 3>(|d: int| T::zero_spec())
}

/// The stiff operator of a field applied to a line at cell `i`; beyond the ends
/// the line is zero.
pub open spec fn stiff_apply<T: Real>(rows: Seq<[T; 3]>, line: Seq<T>, i: int) -> T {
    let lo = if i > 0 {
        line[i - 1]
    } else {
        T::zero_spec()
    };
    let hi = if i + 1 < line.len() {
        line[i + 1]
    } else {
        T::zero_spec()
    };
    rows[i][0].mul_add_spec(lo, rows[i][1].mul_add_spec(line[i], rows[i][2].mul_spec(hi)))
}

/// Right-hand side of the implicit solve: the line plus `dt` times the nonstiff
/// remainder of the drift.
pub open spec fn explicit_part<T: Real>(
    rows: Seq<[T; 3]>,
    line: Seq<T>,
    drift: Seq<T>,
    dt: T,
) -> Seq<T> {
    Seq::new(
        line.len(),
        |i: int| dt.mul_add_spec(drift[i].sub_spec(stiff_apply(rows, line, i)), line[i]),
    )
}

/// Pivot of row `i` in forward elimination of `I - dt L`.
pub open spec fn pivot<T: Real>(rows: Seq<[T; 3]>, dt: T, i: nat) -> T
    decreases i, 0int,
{
    let diagonal = dt.mul_add_spec(rows[i as int][1].neg_spec(), T::one_spec());
    if i == 0 {
        diagonal
    } else {
        dt.neg_spec().mul_spec(rows[i as int][0]).mul_add_spec(
            upper(rows, dt, (i - 1) as nat).neg_spec(),
            diagonal,
        )
    }
}

/// Eliminated upper coefficient of row `i`.
pub open spec fn upper<T: Real>(rows: Seq<[T; 3]>, dt: T, i: nat) -> T
    decreases i, 1int,
{
    dt.neg_spec().mul_spec(rows[i as int][2]).div_spec(pivot(rows, dt, i))
}

/// Eliminated right-hand side of row `i`.
pub open spec fn reduced<T: Real>(rows: Seq<[T; 3]>, dt: T, rhs: Seq<T>, i: nat) -> T
    decreases i,
{
    if i == 0 {
        rhs[0].div_spec(pivot(rows, dt, 0))
    } else {
        dt.neg_spec().mul_spec(rows[i as int][0]).mul_add_spec(
            reduced(rows, dt, rhs, (i - 1) as nat).neg_spec(),
            rhs[i as int],
        ).div_spec(pivot(rows, dt, i))
    }
}

/// Solution of `(I - dt L) x = rhs` at row `i`, by back substitution.
pub open spec fn solution<T: Real>(rows: Seq<[T; 3]>, dt: T, rhs: Seq<T>, i: int) -> T
    decreases rhs.len() - i,
{
    if i + 1 >= rhs.len() {
        reduced(rows, dt, rhs, i as nat)
    } else {
        upper(rows, dt, i as nat).mul_add_spec(
            solution(rows, dt, rhs, i + 1).neg_spec(),
            reduced(rows, dt, rhs, i as nat),
        )
    }
}

/// The value of the line at `i`, zero beyond its ends.
pub open spec fn line_value<T: Real>(v: spec_fn(T) -> real, x: Seq<T>, i: int) -> real {
    if 0 <= i < x.len() {
        v(x[i])
    } else {
        0 as real
    }
}

/// One row of the elimination, over the reals.
proof fn lemma_eliminated_row(
    h: real,
    lo: real,
    c: real,
    up: real,
    prev: real,
    xi: real,
    next: real,
    d: real,
    cp: real,
    dp: real,
    cpp: real,
    dpp: real,
    r: real,
)
    requires
        prev == cpp * (-xi) + dpp,
        d == ((-h) * lo) * (-cpp) + (h * (-c) + 1 as real),
        dp * d == ((-h) * lo) * (-dpp) + r,
        cp * d == (-h) * up,
        xi == cp * (-next) + dp,
    ensures
        xi - h * (lo * prev + c * xi + up * next) == r,
{
    let m = h * lo;
    lemma_negates(h, lo);
    lemma_negates(h, c);
    lemma_negates(h, up);
    lemma_negates(m, cpp);
    lemma_negates(m, dpp);
    lemma_negates(cpp, xi);
    lemma_negates(cp, next);
    assert(((-h) * lo) * (-cpp) == m * cpp) by {
        lemma_negates(-m, cpp);
        lemma_negates(m, cpp);
    }
    assert(((-h) * lo) * (-dpp) == m * dpp) by {
        lemma_negates(-m, dpp);
        lemma_negates(m, dpp);
    }
    assert(d == m * cpp - h * c + 1 as real);
    assert(dp * d == m * dpp + r);
    assert(cp * d == -(h * up));
    let inner = lo * prev + c * xi + up * next;
    assert(h * inner == m * prev + (h * c) * xi + (h * up) * next) by {
        lemma_distributes(h, lo * prev + c * xi, up * next);
        lemma_distributes(h, lo * prev, c * xi);
        lemma_associates(h, lo, prev);
        lemma_associates(h, c, xi);
        lemma_associates(h, up, next);
    }
    assert(m * prev == m * dpp - (m * cpp) * xi) by {
        lemma_distributes(m, -(cpp * xi), dpp);
        lemma_negates(m, cpp * xi);
        lemma_associates(m, cpp, xi);
    }
    assert(d * xi == (m * cpp) * xi - (h * c) * xi + xi) by {
        lemma_distributes(xi, m * cpp - h * c, 1 as real);
        lemma_distributes(xi, m * cpp, -(h * c));
        lemma_negates(h * c, xi);
        assert(1 as real * xi == xi) by (nonlinear_arith);
    }
    assert((h * up) * next == -(d * (cp * next))) by {
        lemma_commutes(cp, d);
        lemma_associates(d, cp, next);
        lemma_negates(d * cp, next);
        lemma_negates(h * up, next);
    }
    assert(d * xi == d * dp - d * (cp * next)) by {
        lemma_distributes(d, -(cp * next), dp);
        lemma_negates(d, cp * next);
    }
    lemma_commutes(d, dp);
}

/// In exact arithmetic the elimination solves `(I - dt L) x = rhs`, row by row,
/// wherever no pivot vanishes.
pub proof fn elimination_solves_the_system<T: Real>(
    v: spec_fn(T) -> real,
    rows: Seq<[T; 3]>,
    dt: T,
    rhs: Seq<T>,
    i: int,
)
    requires
        exact(v),
        rows.len() == rhs.len(),
        0 <= i < rhs.len(),
        forall|k: nat| k < rhs.len() ==> v(#[trigger] pivot(rows, dt, k)) != 0 as real,
    ensures
        ({
            let x = Seq::new(rhs.len(), |k: int| solution(rows, dt, rhs, k));
            v(x[i]) - v(dt) * (v(rows[i][0]) * line_value(v, x, i - 1) + v(rows[i][1]) * v(x[i])
                + v(rows[i][2]) * line_value(v, x, i + 1)) == v(rhs[i])
        }),
{
    let x = Seq::new(rhs.len(), |k: int| solution(rows, dt, rhs, k));
    let h = v(dt);
    let (lo, c, up) = (v(rows[i][0]), v(rows[i][1]), v(rows[i][2]));
    let d = v(pivot(rows, dt, i as nat));
    let cp = v(upper(rows, dt, i as nat));
    let dp = v(reduced(rows, dt, rhs, i as nat));
    let xi = v(x[i]);
    let next = line_value(v, x, i + 1);
    let r = v(rhs[i]);
    assert(v(pivot(rows, dt, i as nat)) != 0 as real);
    assert(cp * d == (-h) * up);
    assert(xi == cp * (-next) + dp) by {
        if i + 1 >= rhs.len() {
            assert(cp * (-(0 as real)) == 0 as real) by (nonlinear_arith);
        } else {
            assert(x[i + 1] == solution(rows, dt, rhs, i + 1));
        }
    }
    let prev = line_value(v, x, i - 1);
    if i == 0 {
        lemma_eliminated_row(h, lo, c, up, prev, xi, next, d, cp, dp, 0 as real, 0 as real, r);
    } else {
        let cpp = v(upper(rows, dt, (i - 1) as nat));
        let dpp = v(reduced(rows, dt, rhs, (i - 1) as nat));
        assert(x[i - 1] == solution(rows, dt, rhs, i - 1));
        lemma_eliminated_row(h, lo, c, up, prev, xi, next, d, cp, dp, cpp, dpp, r);
    }
}

/// Magnitude of a real.
pub open spec fn magnitude(x: real) -> real {
    if x < 0 as real {
        -x
    } else {
        x
    }
}

/// Row `i` of `I - dt L` is strictly diagonally dominant: the diagonal outweighs the
/// couplings to the neighbors on the line.
pub open spec fn dominant<T: Real>(v: spec_fn(T) -> real, rows: Seq<[T; 3]>, dt: T, i: int) -> bool {
    let below = if i > 0 {
        magnitude(v(dt) * v(rows[i][0]))
    } else {
        0 as real
    };
    let above = if i + 1 < rows.len() {
        magnitude(v(dt) * v(rows[i][2]))
    } else {
        0 as real
    };
    below + above < magnitude(1 as real - v(dt) * v(rows[i][1]))
}

proof fn lemma_damped(x: real, y: real)
    requires
        magnitude(y) <= 1 as real,
    ensures
        magnitude(x * y) <= magnitude(x),
{
    if x >= 0 as real {
        assert(-x <= x * y <= x) by (nonlinear_arith)
            requires
                x >= 0 as real,
                -(1 as real) <= y <= 1 as real,
        ;
    } else {
        assert(x <= x * y <= -x) by (nonlinear_arith)
            requires
                x < 0 as real,
                -(1 as real) <= y <= 1 as real,
        ;
    }
}

proof fn lemma_small_quotient(q: real, d: real, w: real)
    requires
        q * d == w,
        magnitude(w) < magnitude(d),
    ensures
        magnitude(q) <= 1 as real,
{
    if q > 1 as real || q < -(1 as real) {
        if d > 0 as real {
            assert(q > 1 as real ==> q * d >= d) by (nonlinear_arith)
                requires
                    d > 0 as real,
            ;
            assert(q < -(1 as real) ==> q * d <= -d) by (nonlinear_arith)
                requires
                    d > 0 as real,
            ;
        } else {
            assert(q > 1 as real ==> q * d <= d) by (nonlinear_arith)
                requires
                    d <= 0 as real,
            ;
            assert(q < -(1 as real) ==> q * d >= -d) by (nonlinear_arith)
                requires
                    d <= 0 as real,
            ;
        }
    }
}

/// In exact arithmetic a strictly diagonally dominant matrix is eliminated without
/// pivoting: no pivot vanishes, and no eliminated coefficient exceeds one.
pub proof fn dominance_keeps_the_pivots<T: Real>(
    v: spec_fn(T) -> real,
    rows: Seq<[T; 3]>,
    dt: T,
    k: nat,
)
    requires
        exact(v),
        k < rows.len(),
        forall|i: int| 0 <= i < rows.len() ==> #[trigger] dominant(v, rows, dt, i),
    ensures
        v(pivot(rows, dt, k)) != 0 as real,
        k + 1 < rows.len() ==> magnitude(v(upper(rows, dt, k))) <= 1 as real,
    decreases k,
{
    let h = v(dt);
    let (lo, c, up) = (v(rows[k as int][0]), v(rows[k as int][1]), v(rows[k as int][2]));
    let d = v(pivot(rows, dt, k));
    assert(dominant(v, rows, dt, k as int));
    lemma_negates(h, c);
    lemma_negates(h, lo);
    lemma_negates(h, up);
    if k > 0 {
        dominance_keeps_the_pivots(v, rows, dt, (k - 1) as nat);
        let u = v(upper(rows, dt, (k - 1) as nat));
        lemma_damped(-(h * lo), -u);
        assert(d == (-(h * lo)) * (-u) + (1 as real - h * c));
    }
    if k + 1 < rows.len() {
        let q = v(upper(rows, dt, k));
        assert(q * d == -(h * up));
        lemma_small_quotient(q, d, -(h * up));
    }
}

/// In exact arithmetic elimination solves every strictly diagonally dominant system.
pub proof fn dominant_systems_are_solved<T: Real>(
    v: spec_fn(T) -> real,
    rows: Seq<[T; 3]>,
    dt: T,
    rhs: Seq<T>,
    i: int,
)
    requires
        exact(v),
        rows.len() == rhs.len(),
        0 <= i < rhs.len(),
        forall|k: int| 0 <= k < rows.len() ==> #[trigger] dominant(v, rows, dt, k),
    ensures
        ({
            let x = Seq::new(rhs.len(), |k: int| solution(rows, dt, rhs, k));
            v(x[i]) - v(dt) * (v(rows[i][0]) * line_value(v, x, i - 1) + v(rows[i][1]) * v(x[i])
                + v(rows[i][2]) * line_value(v, x, i + 1)) == v(rhs[i])
        }),
{
    assert forall|k: nat| k < rhs.len() implies v(#[trigger] pivot(rows, dt, k)) != 0 as real by {
        dominance_keeps_the_pivots(v, rows, dt, k);
    }
    elimination_solves_the_system(v, rows, dt, rhs, i);
}

/// Solve `(I - dt L) x = rhs` in place by elimination without pivoting: the
/// sign structure of the operators this is for makes the matrix strictly
/// diagonally dominant.
pub fn solve_tridiagonal<T: Real>(rows: &Vec<[T; 3]>, dt: T, rhs: &mut Vec<T>)
    requires
        rows@.len() == old(rhs)@.len(),
        rows@.len() > 0,
    ensures
        final(rhs)@ == Seq::new(old(rhs)@.len(), |i: int| solution(rows@, dt, old(rhs)@, i)),
{
    let ghost b = rhs@;
    let ghost r = rows@;
    let n = rows.len();
    let mut cp: Vec<T> = Vec::new();
    let denom = dt.mul_add(rows[0][1].neg(), T::one());
    cp.push(dt.neg().mul(rows[0][2]).div(denom));
    let first = rhs[0].div(denom);
    rhs[0] = first;
    let mut i: usize = 1;
    while i < n
        invariant
            1 <= i <= n,
            n == rows@.len(),
            r == rows@,
            rhs@.len() == n,
            b.len() == n,
            cp@.len() == i,
            forall|j: int| 0 <= j < i ==> #[trigger] cp@[j] == upper(r, dt, j as nat),
            forall|j: int| 0 <= j < i ==> #[trigger] rhs@[j] == reduced(r, dt, b, j as nat),
            forall|j: int| i <= j < n ==> #[trigger] rhs@[j] == b[j],
        decreases n - i,
    {
        let sub = dt.neg().mul(rows[i][0]);
        let p = sub.mul_add(cp[i - 1].neg(), dt.mul_add(rows[i][1].neg(), T::one()));
        proof {
            assert(cp@[i - 1] == upper(r, dt, (i - 1) as nat));
            assert(rhs@[i - 1] == reduced(r, dt, b, (i - 1) as nat));
            assert(rhs@[i as int] == b[i as int]);
            assert(p == pivot(r, dt, i as nat));
        }
        cp.push(dt.neg().mul(rows[i][2]).div(p));
        let x = sub.mul_add(rhs[i - 1].neg(), rhs[i]).div(p);
        rhs[i] = x;
        i += 1;
    }
    let mut k: usize = n - 1;
    while k > 0
        invariant
            k < n,
            n == rows@.len(),
            r == rows@,
            rhs@.len() == n,
            b.len() == n,
            cp@.len() == n,
            forall|j: int| 0 <= j < n ==> #[trigger] cp@[j] == upper(r, dt, j as nat),
            forall|j: int| 0 <= j < k ==> #[trigger] rhs@[j] == reduced(r, dt, b, j as nat),
            forall|j: int| k <= j < n ==> #[trigger] rhs@[j] == solution(r, dt, b, j),
        decreases k,
    {
        let x = cp[k - 1].mul_add(rhs[k].neg(), rhs[k - 1]);
        rhs[k - 1] = x;
        k -= 1;
    }
    proof {
        assert(rhs@ =~= Seq::new(n as nat, |i: int| solution(r, dt, b, i)));
    }
}

/// Number of cells of a line.
pub open spec fn line_len<T: Real>(grid: &CartesianGrid<T, 1>) -> int {
    grid.domain()[0]
}

/// Cells per block of a line.
pub open spec fn run_len<T: Real>(grid: &CartesianGrid<T, 1>) -> int {
    grid.tile()[0]
}

/// The stiff rows of a field along the whole line; zero on blocks without a stiff
/// part.
pub open spec fn stiff_line<T: Real, P, M: Model<T, CartesianGrid<T, 1>, P, 1>>(
    model: &M,
    grid: &CartesianGrid<T, 1>,
    f: int,
) -> Seq<[T; 3]> {
    Seq::new(
        line_len(grid) as nat,
        |i: int|
            match model.stiff_part(grid, i / run_len(grid), f) {
                Some(rows) => rows[i % run_len(grid)],
                None => zero_row(),
            },
    )
}

/// The field has a stiff part on some block.
pub open spec fn any_stiff<T: Real, P, M: Model<T, CartesianGrid<T, 1>, P, 1>>(
    model: &M,
    grid: &CartesianGrid<T, 1>,
    f: int,
) -> bool {
    exists|b: int| 0 <= b < grid.blocks() && (#[trigger] model.stiff_part(grid, b, f)) is Some
}

/// The interior values of a field along the whole line.
pub open spec fn field_line<T: Real>(
    grid: &CartesianGrid<T, 1>,
    g: int,
    slabs: Seq<Seq<T>>,
) -> Seq<T> {
    Seq::new(
        line_len(grid) as nat,
        |i: int| slabs[i / run_len(grid)][i % run_len(grid) + g],
    )
}

/// The slabs with their interiors replaced by a line.
pub open spec fn with_line<T: Real>(
    grid: &CartesianGrid<T, 1>,
    g: int,
    slabs: Seq<Seq<T>>,
    line: Seq<T>,
) -> Seq<Seq<T>> {
    Seq::new(
        slabs.len(),
        |b: int|
            Seq::new(
                slabs[b].len(),
                |j: int|
                    if g <= j < g + run_len(grid) {
                        line[b * run_len(grid) + (j - g)]
                    } else {
                        slabs[b][j]
                    },
            ),
    )
}

/// A field's line after the step.
pub open spec fn imex_line<T: Real, P, M: Model<T, CartesianGrid<T, 1>, P, 1>>(
    model: &M,
    grid: &CartesianGrid<T, 1>,
    f: int,
    line: Seq<T>,
    drift: Seq<T>,
    dt: T,
) -> Seq<T> {
    if any_stiff::<T, P, M>(model, grid, f) {
        let rows = stiff_line::<T, P, M>(model, grid, f);
        let rhs = explicit_part(rows, line, drift, dt);
        Seq::new(line.len(), |i: int| solution(rows, dt, rhs, i))
    } else {
        Seq::new(line.len(), |i: int| line[i].add_spec(dt.mul_spec(drift[i])))
    }
}

/// The slabs of one field after the step.
pub open spec fn imex_field<T: Real, P, M: Model<T, CartesianGrid<T, 1>, P, 1>>(
    model: &M,
    grid: &CartesianGrid<T, 1>,
    f: int,
    g: int,
    slabs: Seq<Seq<T>>,
    drift: Seq<Seq<T>>,
    dt: T,
) -> Seq<Seq<T>> {
    with_line(
        grid,
        g,
        slabs,
        imex_line::<T, P, M>(
            model,
            grid,
            f,
            field_line(grid, g, slabs),
            field_line(grid, g, drift),
            dt,
        ),
    )
}

/// The state with the first `n` fields advanced.
pub open spec fn imex_values<T: Real, P, M: Model<T, CartesianGrid<T, 1>, P, 1>>(
    model: &M,
    grid: &CartesianGrid<T, 1>,
    fields: Seq<FieldSpec>,
    y: Seq<BlockValues<T>>,
    k: Seq<BlockValues<T>>,
    dt: T,
    n: nat,
) -> Seq<BlockValues<T>>
    decreases n,
{
    if n == 0 {
        y
    } else {
        let before = imex_values::<T, P, M>(model, grid, fields, y, k, dt, (n - 1) as nat);
        let f = n - 1;
        if fields[f].moved_by(Driver::Time) {
            with_field(
                before,
                f,
                imex_field::<T, P, M>(
                    model,
                    grid,
                    f,
                    fields[f].halo as int,
                    field_slabs(before, f),
                    field_slabs(k, f),
                    dt,
                ),
            )
        } else {
            before
        }
    }
}

/// Cell `j` of block `b` is position `b c + j` of the line.
pub proof fn lemma_line_cell<T: Real>(grid: &CartesianGrid<T, 1>, b: int, j: int)
    requires
        grid.valid(),
        0 <= b < grid.blocks(),
        0 <= j < run_len(grid),
    ensures
        ({
            let i = b * run_len(grid) + j;
            &&& 0 <= i < line_len(grid)
            &&& i / run_len(grid) == b
            &&& i % run_len(grid) == j
        }),
{
    let c = run_len(grid);
    let nb = grid.tiling()[0];
    lemma_line_blocks(grid);
    vstd::arithmetic::div_mod::lemma_fundamental_div_mod_converse(b * c + j, c, b, j);
    assert(0 <= b * c + j < nb * c) by (nonlinear_arith)
        requires
            0 <= b < nb,
            0 <= j < c,
    ;
}

/// The blocks of a line cover it end to end.
pub proof fn lemma_line_blocks<T: Real>(grid: &CartesianGrid<T, 1>)
    requires
        grid.valid(),
    ensures
        grid.blocks() == grid.tiling()[0],
        run_len(grid) > 0,
        grid.tiling()[0] > 0,
        line_len(grid) == grid.tiling()[0] * run_len(grid),
        line_len(grid) <= usize::MAX,
        line_len(grid) > 0,
        volume(grid.tile()) == run_len(grid),
{
    let t = grid.tiling();
    let e = grid.tile();
    assert(t.drop_first() =~= Seq::<int>::empty());
    assert(e.drop_first() =~= Seq::<int>::empty());
    assert(volume(t) == t[0] * volume(t.drop_first()));
    assert(volume(e) == e[0] * volume(e.drop_first()));
    assert(t[0] > 0 && e[0] > 0);
    assert(grid.domain()[0] == t[0] * e[0]);
    assert(t[0] * e[0] > 0) by (nonlinear_arith)
        requires
            t[0] > 0,
            e[0] > 0,
    ;
}

/// Length of a line's slabs.
pub proof fn lemma_run_slab<T: Real>(grid: &CartesianGrid<T, 1>, g: int)
    requires
        grid.valid(),
        g >= 0,
    ensures
        volume(ghosted(grid.tile(), g)) == run_len(grid) + 2 * g,
{
    let e = ghosted(grid.tile(), g);
    assert(e.drop_first() =~= Seq::<int>::empty());
    assert(volume(e) == e[0] * volume(e.drop_first()));
}

/// Every slab of the field has interior and ghosts.
spec fn line_slabs<T: Real>(grid: &CartesianGrid<T, 1>, g: int, slabs: Seq<Seq<T>>) -> bool {
    &&& slabs.len() == grid.blocks()
    &&& forall|b: int| 0 <= b < slabs.len() ==> (#[trigger] slabs[b]).len() == run_len(grid) + 2 * g
}

/// Gather the stiff rows of a field, block by block.
fn gather_rows<T: Real, P, M: Model<T, CartesianGrid<T, 1>, P, 1>>(
    model: &M,
    grid: &CartesianGrid<T, 1>,
    disc: &P,
    handle: FieldHandle<T>,
) -> (r: (Vec<[T; 3]>, bool))
    requires
        grid.valid(),
        interiors_fit::<T, CartesianGrid<T, 1>, 1>(grid),
    ensures
        r.0@ == stiff_line::<T, P, M>(model, grid, handle.pos()),
        r.1 == any_stiff::<T, P, M>(model, grid, handle.pos()),
{
    let ghost f = handle.pos();
    let ghost c = run_len(grid);
    let ghost want = stiff_line::<T, P, M>(model, grid, f);
    proof {
        lemma_line_blocks(grid);
        grid.lemma_blocks();
    }
    let nb = grid.num_blocks();
    let bc = grid.block_cells()[0];
    let none: [T; 3] = [T::zero(), T::zero(), T::zero()];
    proof {
        lemma_spread::<T, 3>(none, |d: int| T::zero_spec());
    }
    let mut rows: Vec<[T; 3]> = Vec::new();
    let mut any = false;
    let mut b: usize = 0;
    while b < nb
        invariant
            b <= nb,
            nb == grid.blocks(),
            nb <= u32::MAX,
            grid.valid(),
            interiors_fit::<T, CartesianGrid<T, 1>, 1>(grid),
            f == handle.pos(),
            c == run_len(grid),
            bc == c,
            none == zero_row::<T>(),
            want == stiff_line::<T, P, M>(model, grid, f),
            rows@.len() == b * bc,
            forall|i: int| 0 <= i < rows@.len() ==> #[trigger] rows@[i] == want[i],
            any == exists|q: int| 0 <= q < b && (#[trigger] model.stiff_part(grid, q, f)) is Some,
        decreases nb - b,
    {
        let mut seg: Vec<[T; 3]> = Vec::new();
        while seg.len() < bc
            invariant
                seg@.len() <= bc,
            decreases bc - seg.len(),
        {
            seg.push(none);
        }
        proof {
            lemma_line_blocks(grid);
        }
        let stiff = model.stiff_rows(grid, disc, BlockId(b as u32), handle, seg.as_mut_slice());
        let ghost part = model.stiff_part(grid, b as int, f);
        if stiff {
            any = true;
        }
        let mut i: usize = 0;
        while i < bc
            invariant
                i <= bc,
                b < nb,
                nb == grid.blocks(),
                grid.valid(),
                c == run_len(grid),
                bc == c,
                none == zero_row::<T>(),
                want == stiff_line::<T, P, M>(model, grid, f),
                part == model.stiff_part(grid, b as int, f),
                stiff <==> part is Some,
                seg@.len() == bc,
                part matches Some(s) ==> seg@ == s,
                rows@.len() == b * bc + i,
                forall|j: int| 0 <= j < rows@.len() ==> #[trigger] rows@[j] == want[j],
            decreases bc - i,
        {
            let row = if stiff {
                seg[i]
            } else {
                none
            };
            proof {
                lemma_line_cell(grid, b as int, i as int);
            }
            rows.push(row);
            i += 1;
        }
        proof {
            assert((b + 1) * bc == b * bc + bc) by (nonlinear_arith);
            if stiff {
                assert(model.stiff_part(grid, b as int, f) is Some);
            }
        }
        b += 1;
    }
    proof {
        assert(nb * bc == line_len(grid));
        assert(rows@ =~= want);
    }
    (rows, any)
}

/// Gather the interior values of a field along the line.
fn gather_line<T: Real, S: StorageBackend<T>>(
    grid: &CartesianGrid<T, 1>,
    state: &State<T, S>,
    handle: FieldHandle<T>,
    g: usize,
) -> (r: Vec<T>)
    requires
        grid.valid(),
        0 <= handle.pos(),
        forall|b: int|
            0 <= b < state.values().len() ==> handle.pos() < (
            #[trigger] state.values()[b]).fields.len(),
        line_slabs(grid, g as int, field_slabs(state.values(), handle.pos())),
    ensures
        r@ == field_line(grid, g as int, field_slabs(state.values(), handle.pos())),
{
    let ghost f = handle.pos();
    let ghost slabs = field_slabs(state.values(), f);
    let ghost want = field_line(grid, g as int, slabs);
    proof {
        lemma_line_blocks(grid);
        grid.lemma_blocks();
    }
    let nb = grid.num_blocks();
    let bc = grid.block_cells()[0];
    let mut line: Vec<T> = Vec::new();
    let mut b: usize = 0;
    while b < nb
        invariant
            b <= nb,
            nb == grid.blocks(),
            nb <= u32::MAX,
            grid.valid(),
            f == handle.pos(),
            0 <= f,
            bc == run_len(grid),
            slabs == field_slabs(state.values(), f),
            forall|b: int|
                0 <= b < state.values().len() ==> f < (#[trigger] state.values()[b]).fields.len(),
            line_slabs(grid, g as int, slabs),
            want == field_line(grid, g as int, slabs),
            line@.len() == b * bc,
            forall|i: int| 0 <= i < line@.len() ==> #[trigger] line@[i] == want[i],
        decreases nb - b,
    {
        proof {
            assert(slabs[b as int].len() == bc + 2 * g);
        }
        let slab = state.slab(BlockId(b as u32), handle);
        let total = slab.len();
        let mut i: usize = 0;
        while i < bc
            invariant
                i <= bc,
                b < nb,
                nb == grid.blocks(),
                grid.valid(),
                bc == run_len(grid),
                slab@ == slabs[b as int],
                slab@.len() == total,
                total == bc + 2 * g,
                want == field_line(grid, g as int, slabs),
                line@.len() == b * bc + i,
                forall|j: int| 0 <= j < line@.len() ==> #[trigger] line@[j] == want[j],
            decreases bc - i,
        {
            proof {
                lemma_line_cell(grid, b as int, i as int);
            }
            line.push(slab[i + g]);
            i += 1;
        }
        proof {
            assert((b + 1) * bc == b * bc + bc) by (nonlinear_arith);
        }
        b += 1;
    }
    proof {
        assert(nb * bc == line_len(grid));
        assert(line@ =~= want);
    }
    line
}

/// The slabs of the first `n` blocks replaced.
spec fn partly<T>(from: Seq<Seq<T>>, to: Seq<Seq<T>>, n: int) -> Seq<Seq<T>> {
    Seq::new(
        from.len(),
        |b: int|
            if b < n {
                to[b]
            } else {
                from[b]
            },
    )
}

/// Write a run of a line into the interior of one slab.
fn write_run<T: Real>(slab: &mut [T], g: usize, bc: usize, line: &Vec<T>, start: usize)
    requires
        old(slab)@.len() == bc + 2 * g,
        start + bc <= line@.len(),
    ensures
        final(slab)@ == Seq::new(
            old(slab)@.len(),
            |j: int|
                if g <= j < g + bc {
                    line@[start + (j - g)]
                } else {
                    old(slab)@[j]
                },
        ),
{
    let ghost before = slab@;
    let total = slab.len();
    let whole = line.len();
    let mut i: usize = 0;
    while i < bc
        invariant
            i <= bc,
            total == bc + 2 * g,
            slab@.len() == total,
            before.len() == total,
            start + bc <= whole,
            whole == line@.len(),
            forall|j: int|
                0 <= j < total ==> #[trigger] slab@[j] == (if g <= j < g + i {
                    line@[start + (j - g)]
                } else {
                    before[j]
                }),
        decreases bc - i,
    {
        slab[i + g] = line[start + i];
        i += 1;
    }
    proof {
        assert(slab@ =~= Seq::new(
            before.len(),
            |j: int|
                if g <= j < g + bc {
                    line@[start + (j - g)]
                } else {
                    before[j]
                },
        ));
    }
}

/// Scatter a line into the interiors of a field.
fn scatter_line<T: Real, S: StorageBackend<T>>(
    grid: &CartesianGrid<T, 1>,
    state: &mut State<T, S>,
    handle: FieldHandle<T>,
    g: usize,
    line: &Vec<T>,
)
    requires
        grid.valid(),
        0 <= handle.pos(),
        line@.len() == line_len(grid),
        forall|b: int|
            0 <= b < old(state).values().len() ==> handle.pos() < (
            #[trigger] old(state).values()[b]).fields.len(),
        line_slabs(grid, g as int, field_slabs(old(state).values(), handle.pos())),
    ensures
        final(state).fields() == old(state).fields(),
        final(state).values() == with_field(
            old(state).values(),
            handle.pos(),
            with_line(
                grid,
                g as int,
                field_slabs(old(state).values(), handle.pos()),
                line@,
            ),
        ),
{
    let ghost f = handle.pos();
    let ghost all = state.values();
    let ghost slabs = field_slabs(all, f);
    let ghost want = with_line(grid, g as int, slabs, line@);
    proof {
        lemma_line_blocks(grid);
        grid.lemma_blocks();
        assert(with_field(all, f, partly(slabs, want, 0)) =~~= all);
    }
    let nb = grid.num_blocks();
    let bc = grid.block_cells()[0];
    let total = line.len();
    let mut b: usize = 0;
    let mut start: usize = 0;
    while b < nb
        invariant
            b <= nb,
            nb == grid.blocks(),
            nb <= u32::MAX,
            grid.valid(),
            f == handle.pos(),
            0 <= f,
            bc == run_len(grid),
            start == b * bc,
            total == line@.len(),
            total == line_len(grid),
            total == nb * bc,
            all == old(state).values(),
            slabs == field_slabs(all, f),
            want == with_line(grid, g as int, slabs, line@),
            forall|b: int| 0 <= b < all.len() ==> f < (#[trigger] all[b]).fields.len(),
            line_slabs(grid, g as int, slabs),
            state.fields() == old(state).fields(),
            state.values() == with_field(all, f, partly(slabs, want, b as int)),
        decreases nb - b,
    {
        proof {
            assert(slabs[b as int].len() == bc + 2 * g);
            assert((b + 1) * bc == b * bc + bc) by (nonlinear_arith);
            assert((b + 1) * bc <= nb * bc) by (nonlinear_arith)
                requires
                    b + 1 <= nb,
            ;
            assert(f < all[b as int].fields.len());
        }
        let slab = state.slab_mut(BlockId(b as u32), handle);
        write_run(slab, g, bc, line, start);
        proof {
            let now = partly(slabs, want, b as int);
            let next = partly(slabs, want, b + 1);
            assert(state.values() =~~= with_field(all, f, next));
        }
        start = start + bc;
        b += 1;
    }
    proof {
        assert(partly(slabs, want, nb as int) =~= want);
    }
}

/// Advance one field by the implicit-explicit step.
fn step_field<T: Real, S: StorageBackend<T>, P, M: Model<T, CartesianGrid<T, 1>, P, 1>>(
    model: &M,
    grid: &CartesianGrid<T, 1>,
    disc: &P,
    state: &mut State<T, S>,
    drift: &State<T, S>,
    handle: FieldHandle<T>,
    g: usize,
    dt: T,
)
    requires
        grid.valid(),
        interiors_fit::<T, CartesianGrid<T, 1>, 1>(grid),
        0 <= handle.pos(),
        forall|b: int|
            0 <= b < old(state).values().len() ==> handle.pos() < (
            #[trigger] old(state).values()[b]).fields.len(),
        line_slabs(grid, g as int, field_slabs(old(state).values(), handle.pos())),
        forall|b: int|
            0 <= b < drift.values().len() ==> handle.pos() < (
            #[trigger] drift.values()[b]).fields.len(),
        line_slabs(grid, g as int, field_slabs(drift.values(), handle.pos())),
    ensures
        final(state).fields() == old(state).fields(),
        final(state).values() == with_field(
            old(state).values(),
            handle.pos(),
            imex_field::<T, P, M>(
                model,
                grid,
                handle.pos(),
                g as int,
                field_slabs(old(state).values(), handle.pos()),
                field_slabs(drift.values(), handle.pos()),
                dt,
            ),
        ),
{
    let ghost f = handle.pos();
    proof {
        lemma_line_blocks(grid);
    }
    let line = gather_line(grid, &*state, handle, g);
    let slope = gather_line(grid, drift, handle, g);
    let (rows, stiff) = gather_rows::<T, P, M>(model, grid, disc, handle);
    let n = line.len();
    let mut next: Vec<T> = Vec::new();
    if stiff {
        let mut i: usize = 0;
        while i < n
            invariant
                i <= n,
                n == line@.len(),
                slope@.len() == n,
                rows@.len() == n,
                next@.len() == i,
                forall|j: int|
                    0 <= j < i ==> #[trigger] next@[j] == explicit_part(rows@, line@, slope@, dt)[j],
            decreases n - i,
        {
            let lo = if i > 0 {
                line[i - 1]
            } else {
                T::zero()
            };
            let hi = if i + 1 < n {
                line[i + 1]
            } else {
                T::zero()
            };
            let row = rows[i];
            let lu = row[0].mul_add(lo, row[1].mul_add(line[i], row[2].mul(hi)));
            next.push(dt.mul_add(slope[i].sub(lu), line[i]));
            i += 1;
        }
        proof {
            assert(next@ =~= explicit_part(rows@, line@, slope@, dt));
        }
        solve_tridiagonal(&rows, dt, &mut next);
    } else {
        let mut i: usize = 0;
        while i < n
            invariant
                i <= n,
                n == line@.len(),
                slope@.len() == n,
                next@.len() == i,
                forall|j: int|
                    0 <= j < i ==> #[trigger] next@[j] == line@[j].add_spec(dt.mul_spec(slope@[j])),
            decreases n - i,
        {
            next.push(line[i].add(dt.mul(slope[i])));
            i += 1;
        }
    }
    proof {
        assert(next@ =~= imex_line::<T, P, M>(model, grid, f, line@, slope@, dt));
    }
    scatter_line(grid, state, handle, g, &next);
}

/// First-order implicit-explicit (forward-backward) Euler on a 1D Cartesian grid:
/// `(I - dt L) Y' = Y + dt (V_0(Y) - L Y)`.
///
/// The model's stiff linear tridiagonal part `L` is integrated implicitly by an
/// elimination per field line, so the timestep is bounded by the *nonstiff
/// remainder* alone. The model still defines its dynamics once: the scheme
/// evaluates the full drift and subtracts `L Y` itself, so the split cannot drift
/// out of sync with the physics. Fields with no stiff rows take the plain
/// explicit update.
#[derive(Debug, Clone, Copy, Default)]
pub struct ImexEuler;

/// Advancing fields keeps the allocation.
proof fn lemma_imex_allocated<T: Real, P, M: Model<T, CartesianGrid<T, 1>, P, 1>>(
    model: &M,
    grid: &CartesianGrid<T, 1>,
    fields: Seq<FieldSpec>,
    y: Seq<BlockValues<T>>,
    k: Seq<BlockValues<T>>,
    dt: T,
    n: nat,
)
    requires
        allocated_on::<T, T, CartesianGrid<T, 1>, 1>(fields, grid, y),
        n <= fields.len(),
    ensures
        allocated_on::<T, T, CartesianGrid<T, 1>, 1>(
            fields,
            grid,
            imex_values::<T, P, M>(model, grid, fields, y, k, dt, n),
        ),
        forall|b: int, f: int|
            #![trigger imex_values::<T, P, M>(model, grid, fields, y, k, dt, n)[b].fields[f]]
            0 <= b < y.len() && n <= f < fields.len() ==> imex_values::<T, P, M>(
                model,
                grid,
                fields,
                y,
                k,
                dt,
                n,
            )[b].fields[f] == y[b].fields[f],
    decreases n,
{
    if n > 0 {
        lemma_imex_allocated::<T, P, M>(model, grid, fields, y, k, dt, (n - 1) as nat);
        let before = imex_values::<T, P, M>(model, grid, fields, y, k, dt, (n - 1) as nat);
        let w = imex_values::<T, P, M>(model, grid, fields, y, k, dt, n);
        assert forall|b: int| 0 <= b < w.len() implies full_block(
            fields,
            grid.extent_of(b),
            #[trigger] w[b],
        ) by {
            assert(full_block(fields, grid.extent_of(b), before[b]));
            assert forall|f: int| 0 <= f < fields.len() implies (#[trigger] w[b].fields[f]).len()
                == volume(ghosted(grid.extent_of(b), fields[f].halo as int)) by {
                assert(before[b].fields[f].len() == volume(
                    ghosted(grid.extent_of(b), fields[f].halo as int),
                ));
            }
        }
        assert forall|b: int, f: int|
            #![trigger w[b].fields[f]]
            0 <= b < y.len() && n <= f < fields.len() implies w[b].fields[f]
            == y[b].fields[f] by {
            assert(full_block(fields, grid.extent_of(b), before[b]));
            assert(before[b].fields[f] == y[b].fields[f]);
        }
    }
}

/// Slabs of a fully allocated field are lines.
proof fn lemma_line_slabs<T: Real>(
    grid: &CartesianGrid<T, 1>,
    fields: Seq<FieldSpec>,
    v: Seq<BlockValues<T>>,
    f: int,
)
    requires
        grid.valid(),
        0 <= f < fields.len(),
        v.len() == grid.blocks(),
        forall|b: int|
            0 <= b < v.len() ==> f < (#[trigger] v[b]).fields.len() && v[b].fields[f].len()
                == volume(ghosted(grid.extent_of(b), fields[f].halo as int)),
    ensures
        line_slabs(grid, fields[f].halo as int, field_slabs(v, f)),
{
    lemma_run_slab(grid, fields[f].halo as int);
    let slabs = field_slabs(v, f);
    assert forall|b: int| 0 <= b < slabs.len() implies (#[trigger] slabs[b]).len() == run_len(grid)
        + 2 * fields[f].halo as int by {
        assert(v[b].fields[f].len() == volume(ghosted(grid.extent_of(b), fields[f].halo as int)));
    }
}

impl<
    T: Real,
    P: Sync,
    M: Model<T, CartesianGrid<T, 1>, P, 1, Drivers = NoNoise>,
> Integrator<T, CartesianGrid<T, 1>, P, M, 1> for ImexEuler {
    open spec fn stages_of(&self, grid: &CartesianGrid<T, 1>) -> Seq<StageKind> {
        seq![StageKind::Tendency(Driver::Time)]
    }

    /// The solve does not support a periodic dimension: the matrix would be
    /// cyclic.
    open spec fn admits(
        &self,
        model: &M,
        grid: &CartesianGrid<T, 1>,
        fields: Seq<FieldSpec>,
    ) -> bool {
        forall|f: int|
            0 <= f < fields.len() && (#[trigger] fields[f]).moved_by(Driver::Time) && any_stiff::<
                T,
                P,
                M,
            >(model, grid, f) ==> !grid.wraps(0)
    }

    open spec fn advanced(
        &self,
        model: &M,
        grid: &CartesianGrid<T, 1>,
        disc: &P,
        fields: Seq<FieldSpec>,
        state: Seq<BlockValues<T>>,
        stages: Seq<Seq<BlockValues<T>>>,
        t: T,
        dt: T,
    ) -> Advanced<T> {
        let y = model.filled(grid, fields, state, t);
        let k = evaluated::<T, CartesianGrid<T, 1>, P, M, 1>(
            model,
            Driver::Time,
            grid,
            disc,
            t,
            fields,
            y,
            stages[0],
            false,
            None,
        );
        Advanced {
            state: imex_values::<T, P, M>(model, grid, fields, y, k, dt, fields.len()),
            stages: stages.update(0, k),
        }
    }

    /// The nonstiff-remainder bound when the model declares one, falling back to
    /// the explicit bound otherwise.
    open spec fn suggested(&self, model: &M, grid: &CartesianGrid<T, 1>) -> Option<T> {
        let h = finest_array::<T, CartesianGrid<T, 1>, 1>(grid);
        match model.nonstiff_limit(h) {
            Some(dt) => Some(dt),
            None => model.explicit_limit(h),
        }
    }

    fn stage_layout(&self, grid: &CartesianGrid<T, 1>) -> (r: StageLayout) {
        let mut stages: Vec<StageKind> = Vec::new();
        stages.push(StageKind::Tendency(Driver::Time));
        StageLayout { stages }
    }

    fn step<S: StorageBackend<T>, Sch: Scheduler, A: Allocator<T, Storage = S>>(
        &self,
        ctx: &StepCtx<'_, T, S, CartesianGrid<T, 1>, P, M, Sch, A>,
        state: &mut State<T, S>,
        stages: &mut [State<T, S>],
        t: T,
        dt: T,
    ) {
        let ghost fields = state.fields();
        let ghost before = all_values(stages@);
        proof {
            assert(stages@[0].fields() == fields);
        }
        eval_drift(ctx, state, &mut stages[0], t);
        let ghost y = state.values();
        let ghost k = stages@[0].values();
        let nf = state.layout().num_fields();
        let mut f: usize = 0;
        while f < nf
            invariant
                f <= nf,
                nf == fields.len(),
                ctx.grid.valid(),
                allocated_on::<T, T, CartesianGrid<T, 1>, 1>(fields, ctx.grid, y),
                stages@.len() == 1,
                k == stages@[0].values(),
                stages@[0].fields() == fields,
                stage_ready::<T, CartesianGrid<T, 1>, 1>(
                    StageKind::Tendency(Driver::Time),
                    fields,
                    ctx.grid,
                    k,
                ),
                state.fields() == fields,
                state.values() == imex_values::<T, P, M>(
                    ctx.model,
                    ctx.grid,
                    fields,
                    y,
                    k,
                    dt,
                    f as nat,
                ),
            decreases nf - f,
        {
            let spec = &state.layout().specs()[f];
            let moved = spec.is_driven_by(Driver::Time);
            let width = spec.halo as usize;
            proof {
                lemma_imex_allocated::<T, P, M>(ctx.model, ctx.grid, fields, y, k, dt, f as nat);
            }
            if moved {
                let ghost cur = state.values();
                proof {
                    assert forall|b: int| 0 <= b < cur.len() implies f < (
                    #[trigger] cur[b]).fields.len() && cur[b].fields[f as int].len() == volume(
                        ghosted(ctx.grid.extent_of(b), fields[f as int].halo as int),
                    ) by {
                        assert(full_block(fields, ctx.grid.extent_of(b), cur[b]));
                    }
                    lemma_line_slabs(ctx.grid, fields, cur, f as int);
                    assert forall|b: int| 0 <= b < k.len() implies f < (
                    #[trigger] k[b]).fields.len() && k[b].fields[f as int].len() == volume(
                        ghosted(ctx.grid.extent_of(b), fields[f as int].halo as int),
                    ) by {
                        assert(tailored(fields, ctx.grid.extent_of(b), Driver::Time, k[b]));
                    }
                    lemma_line_slabs(ctx.grid, fields, k, f as int);
                }
                step_field::<T, S, P, M>(
                    ctx.model,
                    ctx.grid,
                    ctx.disc,
                    state,
                    &stages[0],
                    State::<T, S>::handle_at(f),
                    width,
                    dt,
                );
            }
            f += 1;
        }
        proof {
            lemma_imex_allocated::<T, P, M>(ctx.model, ctx.grid, fields, y, k, dt, nf as nat);
            assert(all_values(stages@) =~= before.update(0, k));
        }
    }

    fn suggested_dt(&self, model: &M, grid: &CartesianGrid<T, 1>) -> (r: Option<T>) {
        let h = finest_spacing_of(grid);
        match model.stable_dt_nonstiff(h) {
            Some(dt) => Some(dt),
            None => model.stable_dt(h),
        }
    }
}

/// A field without stiff rows takes the forward-Euler update: in every interior
/// cell the line becomes `u + dt k`.
pub proof fn fields_without_stiff_rows_step_explicitly<
    T: Real,
    P,
    M: Model<T, CartesianGrid<T, 1>, P, 1>,
>(
    model: &M,
    grid: &CartesianGrid<T, 1>,
    f: int,
    g: int,
    slabs: Seq<Seq<T>>,
    drift: Seq<Seq<T>>,
    dt: T,
    b: int,
    j: int,
)
    requires
        grid.valid(),
        !any_stiff::<T, P, M>(model, grid, f),
        0 <= g,
        slabs.len() == grid.blocks(),
        0 <= b < slabs.len(),
        slabs[b].len() == volume(ghosted(grid.extent_of(b), g)),
        0 <= j < run_len(grid),
    ensures
        imex_field::<T, P, M>(model, grid, f, g, slabs, drift, dt)[b][g + j]
            == slabs[b][g + j].add_spec(dt.mul_spec(drift[b][g + j])),
{
    lemma_run_slab(grid, g);
    lemma_line_cell(grid, b, j);
}

/// What the step makes of one field: its line advanced, or nothing if the clock does
/// not move it.
pub proof fn lemma_imex_field_of<T: Real, P, M: Model<T, CartesianGrid<T, 1>, P, 1>>(
    model: &M,
    grid: &CartesianGrid<T, 1>,
    fields: Seq<FieldSpec>,
    y: Seq<BlockValues<T>>,
    k: Seq<BlockValues<T>>,
    dt: T,
    n: nat,
    f: int,
    b: int,
)
    requires
        allocated_on::<T, T, CartesianGrid<T, 1>, 1>(fields, grid, y),
        0 <= f < n <= fields.len(),
        0 <= b < y.len(),
    ensures
        imex_values::<T, P, M>(model, grid, fields, y, k, dt, n)[b].fields[f] == (
        if fields[f].moved_by(Driver::Time) {
            imex_field::<T, P, M>(
                model,
                grid,
                f,
                fields[f].halo as int,
                field_slabs(y, f),
                field_slabs(k, f),
                dt,
            )[b]
        } else {
            y[b].fields[f]
        }),
    decreases n,
{
    let m = (n - 1) as nat;
    let before = imex_values::<T, P, M>(model, grid, fields, y, k, dt, m);
    lemma_imex_allocated::<T, P, M>(model, grid, fields, y, k, dt, m);
    assert(full_block(fields, grid.extent_of(b), before[b]));
    if f < m {
        lemma_imex_field_of::<T, P, M>(model, grid, fields, y, k, dt, m, f, b);
    } else {
        assert(before[b].fields[f] == y[b].fields[f]);
        assert forall|c: int| 0 <= c < y.len() implies field_slabs(before, f)[c]
            == field_slabs(y, f)[c] by {
            assert(before[c].fields[f] == y[c].fields[f]);
        }
        assert(field_slabs(before, f) =~= field_slabs(y, f));
    }
}

/// Without stiff rows the implicit-explicit step *is* the forward-Euler step: from the
/// same state, time and buffers, every interior cell of every field comes out bit for
/// bit the same, and so do the buffers. The filled state and the evaluated drift, which
/// the two share, are allocated as evaluation leaves them.
pub proof fn imex_without_stiff_rows_is_forward_euler<
    T: Real,
    P: Sync,
    M: Model<T, CartesianGrid<T, 1>, P, 1, Drivers = NoNoise>,
>(
    model: &M,
    grid: &CartesianGrid<T, 1>,
    disc: &P,
    fields: Seq<FieldSpec>,
    state: Seq<BlockValues<T>>,
    stages: Seq<Seq<BlockValues<T>>>,
    t: T,
    dt: T,
)
    requires
        grid.valid(),
        forall|f: int| 0 <= f < fields.len() ==> !#[trigger] any_stiff::<T, P, M>(model, grid, f),
        allocated_on::<T, T, CartesianGrid<T, 1>, 1>(
            fields,
            grid,
            model.filled(grid, fields, state, t),
        ),
        stage_ready::<T, CartesianGrid<T, 1>, 1>(
            StageKind::Tendency(Driver::Time),
            fields,
            grid,
            evaluated::<T, CartesianGrid<T, 1>, P, M, 1>(
                model,
                Driver::Time,
                grid,
                disc,
                t,
                fields,
                model.filled(grid, fields, state, t),
                stages[0],
                false,
                None,
            ),
        ),
    ensures
        ({
            let imex = ImexEuler.advanced(model, grid, disc, fields, state, stages, t, dt);
            let euler = ForwardEuler.advanced(model, grid, disc, fields, state, stages, t, dt);
            &&& imex.stages == euler.stages
            &&& imex.state.len() == euler.state.len()
            &&& forall|b: int, f: int, j: int|
                #![trigger imex.state[b].fields[f][fields[f].halo + j]]
                0 <= b < imex.state.len() && 0 <= f < fields.len() && 0 <= j < run_len(grid)
                    ==> imex.state[b].fields[f][fields[f].halo + j]
                    == euler.state[b].fields[f][fields[f].halo + j]
        }),
{
    let y = model.filled(grid, fields, state, t);
    let k = evaluated::<T, CartesianGrid<T, 1>, P, M, 1>(
        model,
        Driver::Time,
        grid,
        disc,
        t,
        fields,
        y,
        stages[0],
        false,
        None,
    );
    let n = fields.len();
    let imex = imex_values::<T, P, M>(model, grid, fields, y, k, dt, n);
    let euler = axpy_values(y, dt, k);
    lemma_imex_allocated::<T, P, M>(model, grid, fields, y, k, dt, n);
    assert forall|b: int, f: int, j: int|
        #![trigger imex[b].fields[f][fields[f].halo + j]]
        0 <= b < imex.len() && 0 <= f < n && 0 <= j < run_len(grid) implies
        imex[b].fields[f][fields[f].halo + j] == euler[b].fields[f][fields[f].halo + j] by {
        let g = fields[f].halo as int;
        lemma_imex_field_of::<T, P, M>(model, grid, fields, y, k, dt, n, f, b);
        assert(full_block(fields, grid.extent_of(b), y[b]));
        assert(tailored(fields, grid.extent_of(b), Driver::Time, k[b]));
        assert(y[b].fields[f].len() == volume(ghosted(grid.extent_of(b), g)));
        lemma_run_slab(grid, g);
        if fields[f].moved_by(Driver::Time) {
            fields_without_stiff_rows_step_explicitly::<T, P, M>(
                model,
                grid,
                f,
                g,
                field_slabs(y, f),
                field_slabs(k, f),
                dt,
                b,
                j,
            );
        }
    }
}

} // verus!
