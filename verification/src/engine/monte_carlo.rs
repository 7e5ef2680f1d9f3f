//! A generic Monte Carlo path ensemble.
//!
//! An ensemble is a [`Simulation`] in which every interior cell is an
//! **independent sample path**. This module adds the two things such a run needs
//! on top of the simulation loop, and nothing model-specific: [`MonteCarlo`] drives
//! any simulation forward, and [`ensemble_stats`] reduces a per-path functional
//! over the whole ensemble to summary [`Stats`].

use vstd::prelude::*;

use crate::engine::exact::{
    exact, lemma_associates, lemma_commutes, lemma_distributes, lemma_negates, minima_exact,
    order_exact, roots_exact,
};
use crate::engine::observer::{Observer, Sighting};
use crate::engine::scheduler::Scheduler;
use crate::engine::simulation::{integrated, Simulation, Static};
use crate::engine::state::{allocated_on, BlockValues, FieldHandle, FieldSpec, State};
use crate::engine::storage::{Allocator, Real, StorageBackend};
use crate::geometry::cartesian::{dimension_error, CartesianGrid};
use crate::geometry::error::GridError;
use crate::geometry::grid::{slab_at, BlockId, Grid};
use crate::geometry::index::{
    delin, in_box, in_ext, isizes, lemma_lin_zero, lemma_rank, lin, minus, next_index, origin,
    positive, rank, usizes, volume,
};
use crate::integrators::scheme::{Advanced, Integrator};
use crate::physics::model::Model;

verus! {

/// A 1-D grid of `paths` independent paths, tiled by `block`-sized blocks (the
/// parallel work unit). Paths do not couple, so the domain coordinates are
/// arbitrary: they are those of the unit interval.
///
/// Fails if `paths` is not a positive multiple of `block`.
pub fn path_grid<R: Real>(paths: usize, block: usize) -> (r: Result<
    CartesianGrid<R, 1>,
    GridError<R>,
>)
    ensures
        r is Ok <==> dimension_error([paths], [block], [path_step::<R>(paths)], 0) is None,
        r matches Ok(grid) ==> grid.tiled() && grid.domain() == seq![paths as int] && grid.tile()
            == seq![block as int] && grid.corner(0) == R::zero_spec() && grid.step(0)
            == path_step::<R>(paths) && !grid.wraps(0),
        r matches Err(err) ==> dimension_error([paths], [block], [path_step::<R>(paths)], 0)
            == Some(err),
{
    let step = R::one().div(R::from_u64(paths as u64));
    let r = CartesianGrid::new([paths], [block], [R::zero()], [step]);
    proof {
        if r is Ok {
            let grid = r->Ok_0;
            assert(grid.domain() =~= seq![paths as int]);
            assert(grid.tile() =~= seq![block as int]);
            assert(grid.corner(0) == R::zero_spec());
            assert(grid.step(0) == path_step::<R>(paths));
            assert(!grid.wraps(0));
        }
    }
    r
}

/// The share of one of `paths` cells in the unit interval.
pub open spec fn path_step<R: Real>(paths: usize) -> R {
    R::one_spec().div_spec(R::from_u64_spec(paths as u64))
}

/// Summary statistics of a per-path functional over an ensemble.
#[derive(Debug, Clone, Copy, PartialEq)]
pub struct Stats<T> {
    /// Number of paths reduced.
    pub count: u64,
    /// Ensemble mean.
    pub mean: T,
    /// Ensemble variance (population: divided by `count`).
    pub variance: T,
    /// Smallest per-path value.
    pub min: T,
    /// Largest per-path value.
    pub max: T,
}

impl<T: Real> Stats<T> {
    /// The root of the variance.
    pub open spec fn deviates(self) -> T {
        self.variance.sqrt_spec()
    }

    /// Ensemble standard deviation.
    pub fn std_dev(&self) -> (r: T)
        ensures
            r == self.deviates(),
    {
        self.variance.sqrt()
    }
}

/// Sum of the values, in order.
pub open spec fn sum_of<T: Real>(vals: Seq<T>) -> T
    decreases vals.len(),
{
    if vals.len() == 0 {
        T::zero_spec()
    } else {
        sum_of(vals.drop_last()).add_spec(vals.last())
    }
}

/// Sum of the squared values, in order.
pub open spec fn squares_of<T: Real>(vals: Seq<T>) -> T
    decreases vals.len(),
{
    if vals.len() == 0 {
        T::zero_spec()
    } else {
        vals.last().mul_add_spec(vals.last(), squares_of(vals.drop_last()))
    }
}

/// The smallest value, infinity if there is none.
pub open spec fn least_of<T: Real>(vals: Seq<T>) -> T
    decreases vals.len(),
{
    if vals.len() == 0 {
        T::infinity_spec()
    } else {
        least_of(vals.drop_last()).min_spec(vals.last())
    }
}

/// The largest value, minus infinity if there is none.
pub open spec fn greatest_of<T: Real>(vals: Seq<T>) -> T
    decreases vals.len(),
{
    if vals.len() == 0 {
        T::infinity_spec().neg_spec()
    } else {
        greatest_of(vals.drop_last()).max_spec(vals.last())
    }
}

/// The summary of a list of values. A variance that cancellation pushed below
/// zero counts as zero.
pub open spec fn stats_of<T: Real>(vals: Seq<T>) -> Stats<T> {
    let count = T::from_u64_spec(vals.len() as u64);
    let mean = sum_of(vals).div_spec(count);
    Stats {
        count: vals.len() as u64,
        mean,
        variance: mean.mul_add_spec(mean.neg_spec(), squares_of(vals).div_spec(count)).max_spec(
            T::zero_spec(),
        ),
        min: least_of(vals),
        max: greatest_of(vals),
    }
}

/// The sum of the values, over the reals.
pub open spec fn total<T: Real>(v: spec_fn(T) -> real, vals: Seq<T>) -> real
    decreases vals.len(),
{
    if vals.len() == 0 {
        0 as real
    } else {
        total(v, vals.drop_last()) + v(vals.last())
    }
}

/// The sum of the squared deviations from `m`, over the reals.
pub open spec fn deviation<T: Real>(v: spec_fn(T) -> real, vals: Seq<T>, m: real) -> real
    decreases vals.len(),
{
    if vals.len() == 0 {
        0 as real
    } else {
        deviation(v, vals.drop_last(), m) + (v(vals.last()) - m) * (v(vals.last()) - m)
    }
}

proof fn lemma_moments<T: Real>(v: spec_fn(T) -> real, vals: Seq<T>, m: real)
    requires
        exact(v),
    ensures
        v(sum_of(vals)) == total(v, vals),
        deviation(v, vals, m) == v(squares_of(vals)) - 2 as real * (m * total(v, vals)) + (
        vals.len() as int as real) * (m * m),
        deviation(v, vals, m) >= 0 as real,
    decreases vals.len(),
{
    let n = vals.len() as int as real;
    if vals.len() == 0 {
        assert(m * (0 as real) == 0 as real) by (nonlinear_arith);
        assert((0 as real) * (m * m) == 0 as real) by (nonlinear_arith);
    } else {
        let head = vals.drop_last();
        lemma_moments(v, head, m);
        let x = v(vals.last());
        let t = total(v, head);
        let k = head.len() as int as real;
        assert(n == k + 1 as real);
        assert((x - m) * (x - m) == x * x - 2 as real * (m * x) + m * m) by (nonlinear_arith);
        assert((x - m) * (x - m) >= 0 as real) by (nonlinear_arith);
        lemma_distributes(m, t, x);
        lemma_distributes(m * m, k, 1 as real);
        assert(1 as real * (m * m) == m * m) by (nonlinear_arith);
    }
}

/// In exact arithmetic the summary is that of the ensemble: the mean times the count is
/// the sum, and the variance times the count the sum of squared deviations from it.
pub proof fn stats_are_the_moments<T: Real>(v: spec_fn(T) -> real, vals: Seq<T>)
    requires
        exact(v),
        order_exact(v),
        0 < vals.len() <= u64::MAX,
    ensures
        ({
            let s = stats_of(vals);
            let n = vals.len() as int as real;
            &&& v(s.mean) * n == total(v, vals)
            &&& v(s.variance) * n == deviation(v, vals, v(s.mean))
        }),
{
    let s = stats_of(vals);
    let n = vals.len() as int as real;
    let m = v(s.mean);
    let count = T::from_u64_spec(vals.len() as u64);
    lemma_moments(v, vals, m);
    assert(v(count) == n);
    assert(m * n == total(v, vals));
    let q = v(squares_of(vals).div_spec(count));
    assert(q * n == v(squares_of(vals)));
    let raw = m * (-m) + q;
    assert(raw * n == deviation(v, vals, m)) by {
        lemma_distributes(n, m * (-m), q);
        lemma_negates(m, m);
        lemma_negates(m * m, n);
        lemma_associates(m, m, n);
        lemma_commutes(m * m, n);
    }
    assert(raw >= 0 as real) by (nonlinear_arith)
        requires
            raw * n >= 0 as real,
            n > 0 as real,
    ;
    assert(v(s.variance) == raw);
}

/// One path's state: field access at a single interior cell, handed to the
/// functional reduced by [`ensemble_stats`].
#[verifier::reject_recursive_types(T)]
#[verifier::reject_recursive_types(S)]
pub struct PathSample<'a, T: Real, S: StorageBackend<T>, const D: usize> {
    grid: &'a CartesianGrid<T, D>,
    state: &'a State<T, S>,
    block: BlockId,
    idx: [isize; D],
}

impl<'a, T: Real, S: StorageBackend<T>, const D: usize> PathSample<'a, T, S, D> {
    /// The sample shows path number `k` of a state: block by block, and within a
    /// block dimension 0 fastest.
    pub closed spec fn shows(
        &self,
        grid: &CartesianGrid<T, D>,
        state: &State<T, S>,
        k: int,
    ) -> bool {
        &&& *self.grid == *grid
        &&& *self.state == *state
        &&& self.block.id() == k / volume(grid.tile())
        &&& isizes(self.idx) == delin(k % volume(grid.tile()), grid.tile())
    }

    /// The state the sample is taken from is allocated on its grid.
    pub closed spec fn sound(&self) -> bool {
        &&& self.grid.valid()
        &&& allocated_on::<T, T, CartesianGrid<T, D>, D>(
            self.state.fields(),
            self.grid,
            self.state.values(),
        )
        &&& self.block.id() < self.grid.blocks()
        &&& in_ext(isizes(self.idx), self.grid.tile())
    }

    /// What the path holds of a field.
    pub closed spec fn value_of(&self, f: int) -> T {
        path_value(
            self.grid,
            self.state.fields(),
            self.state.values(),
            self.block.id(),
            isizes(self.idx),
            f,
        )
    }

    /// Number of fields of the state.
    pub closed spec fn width(&self) -> nat {
        self.state.fields().len()
    }

    /// A sample shows what its state holds.
    pub proof fn lemma_shows(&self, grid: &CartesianGrid<T, D>, state: &State<T, S>, k: int)
        requires
            self.shows(grid, state, k),
            grid.valid(),
            allocated_on::<T, T, CartesianGrid<T, D>, D>(state.fields(), grid, state.values()),
            0 <= k < paths_of(grid),
        ensures
            self.sound(),
            self.width() == state.fields().len(),
            forall|f: int| #[trigger]
                self.value_of(f) == path_value(
                    grid,
                    state.fields(),
                    state.values(),
                    k / volume(grid.tile()),
                    delin(k % volume(grid.tile()), grid.tile()),
                    f,
                ),
    {
        crate::geometry::index::lemma_volume_positive(grid.tile());
        let v = volume(grid.tile());
        let n = grid.blocks() as int;
        assert(0 <= k / v < n && 0 <= k % v < v) by (nonlinear_arith)
            requires
                0 <= k < n * v,
                v >= 1,
        ;
        crate::geometry::index::lemma_lin_delin(k % v, grid.tile());
    }

    /// This path's value of the field `handle`.
    pub fn get(&self, handle: FieldHandle<T>) -> (r: T)
        requires
            self.sound(),
            0 <= handle.pos() < self.width(),
        ensures
            r == self.value_of(handle.pos()),
    {
        let view = self.state.view(self.grid, self.block, handle);
        proof {
            crate::geometry::grid::lemma_interior_in_slab(
                isizes(self.idx),
                view.ext(),
                view.width(),
            );
        }
        view.get(self.idx)
    }
}

/// What a path holds of field `f`.
pub open spec fn path_value<T: Real, const D: usize>(
    grid: &CartesianGrid<T, D>,
    fields: Seq<FieldSpec>,
    values: Seq<BlockValues<T>>,
    b: int,
    idx: Seq<int>,
    f: int,
) -> T {
    values[b].fields[f][slab_at(idx, grid.tile(), fields[f].halo as int)]
}

/// Number of interior cells of a grid: one path each.
pub open spec fn paths_of<T: Real, const D: usize>(grid: &CartesianGrid<T, D>) -> int {
    grid.blocks() * volume(grid.tile())
}

/// `v` is what the functional may give for path number `k`.
pub open spec fn sampled<
    'a,
    T: Real,
    S: StorageBackend<T>,
    F: Fn(&PathSample<'a, T, S, D>) -> T,
    const D: usize,
>(f: F, grid: &CartesianGrid<T, D>, state: &State<T, S>, k: int, v: T) -> bool {
    exists|p: &PathSample<'a, T, S, D>| #[trigger] p.shows(grid, state, k) && call_ensures(f, (p,), v)
}

/// The statistics summarize one value of the functional per path, in path order.
pub open spec fn summarizes<
    'a,
    T: Real,
    S: StorageBackend<T>,
    F: Fn(&PathSample<'a, T, S, D>) -> T,
    const D: usize,
>(
    r: Stats<T>,
    vals: Seq<T>,
    f: F,
    grid: &CartesianGrid<T, D>,
    state: &State<T, S>,
) -> bool {
    &&& vals.len() == paths_of(grid)
    &&& r == stats_of(vals)
    &&& forall|k: int|
        0 <= k < vals.len() ==> #[trigger] sampled::<T, S, F, D>(f, grid, state, k, vals[k])
}

/// Reduce a per-path functional over an ensemble to summary [`Stats`].
///
/// `f` is evaluated once per interior cell (path) of `state`; it reads that path's
/// fields through its [`PathSample`] and returns the payoff whose distribution is
/// summarized.
pub fn ensemble_stats<
    'a,
    T: Real,
    S: StorageBackend<T>,
    F: Fn(&PathSample<'a, T, S, D>) -> T,
    const D: usize,
>(grid: &'a CartesianGrid<T, D>, state: &'a State<T, S>, f: F) -> (r: Stats<T>)
    requires
        grid.valid(),
        allocated_on::<T, T, CartesianGrid<T, D>, D>(state.fields(), grid, state.values()),
        crate::geometry::grid::slab_fits(grid.tile(), 0),
        paths_of(grid) <= u64::MAX,
        forall|p: &PathSample<'a, T, S, D>, k: int|
            0 <= k < paths_of(grid) && #[trigger] p.shows(grid, state, k) ==> call_requires(
                f,
                (p,),
            ),
    ensures
        exists|vals: Seq<T>| #[trigger] summarizes::<T, S, F, D>(r, vals, f, grid, state),
{
    let ghost ext = grid.tile();
    let ghost v = volume(ext);
    let ghost mut vals: Seq<T> = Seq::empty();
    let mut sum = T::zero();
    let mut sum2 = T::zero();
    let mut count: u64 = 0;
    let mut min = T::infinity();
    let mut max = T::infinity().neg();
    let n = grid.num_blocks();
    let lo = [0isize; D];
    let hi = interior_end(grid);
    let ghost l = isizes(lo);
    proof {
        grid.lemma_blocks();
        assert(grid.extent_of(0) == ext);
        crate::geometry::index::lemma_volume_positive(ext);
        assert(minus(ext, l) =~= ext);
        assert(in_box(l, l, ext)) by {
            assert forall|e: int| 0 <= e < l.len() implies l[e] <= #[trigger] l[e] < ext[e] by {
                assert(ext[e] > 0);
            }
        }
        lemma_lin_zero(minus(l, l), ext);
        assert(0 * v == 0);
    }
    let mut b: usize = 0;
    while b < n
        invariant
            b <= n,
            n == grid.blocks(),
            n <= u32::MAX,
            grid.valid(),
            allocated_on::<T, T, CartesianGrid<T, D>, D>(state.fields(), grid, state.values()),
            paths_of(grid) <= u64::MAX,
            forall|p: &PathSample<'a, T, S, D>, k: int|
                0 <= k < paths_of(grid) && #[trigger] p.shows(grid, state, k) ==> call_requires(
                    f,
                    (p,),
                ),
            ext == grid.tile(),
            v == volume(ext),
            v >= 1,
            positive(ext),
            l == isizes(lo),
            l == origin(D as nat),
            ext == isizes(hi),
            minus(ext, l) == ext,
            in_box(l, l, ext),
            lin(minus(l, l), ext) == 0,
            vals.len() == b * v,
            count == vals.len(),
            sum == sum_of(vals),
            sum2 == squares_of(vals),
            min == least_of(vals),
            max == greatest_of(vals),
            forall|k: int|
                0 <= k < vals.len() ==> #[trigger] sampled::<T, S, F, D>(
                    f,
                    grid,
                    state,
                    k,
                    vals[k],
                ),
        decreases n - b,
    {
        let block = BlockId(b as u32);
        let mut idx = lo;
        let mut more = true;
        let ghost mut j: int = 0;
        while more
            invariant
                b < n,
                n == grid.blocks(),
                n <= u32::MAX,
                block.id() == b,
                grid.valid(),
                allocated_on::<T, T, CartesianGrid<T, D>, D>(state.fields(), grid, state.values()),
                paths_of(grid) <= u64::MAX,
                forall|p: &PathSample<'a, T, S, D>, k: int|
                    0 <= k < paths_of(grid) && #[trigger] p.shows(grid, state, k) ==> call_requires(
                        f,
                        (p,),
                    ),
                ext == grid.tile(),
                v == volume(ext),
                v >= 1,
                positive(ext),
                l == isizes(lo),
                l == origin(D as nat),
                ext == isizes(hi),
                minus(ext, l) == ext,
                0 <= j <= v,
                more ==> in_box(isizes(idx), l, ext) && rank(isizes(idx), l, ext) == j,
                !more ==> j == v,
                vals.len() == b * v + j,
                count == vals.len(),
                sum == sum_of(vals),
                sum2 == squares_of(vals),
                min == least_of(vals),
                max == greatest_of(vals),
                forall|k: int|
                    0 <= k < vals.len() ==> #[trigger] sampled::<T, S, F, D>(
                        f,
                        grid,
                        state,
                        k,
                        vals[k],
                    ),
            decreases v - j,
        {
            let sample = PathSample { grid, state, block, idx };
            let ghost k = b * v + j;
            proof {
                let c = isizes(idx);
                lemma_rank(c, l, ext);
                assert(minus(c, l) =~= c);
                assert(j < v);
                assert(k / v == b && k % v == j && k < n * v && 0 <= k) by (nonlinear_arith)
                    requires
                        k == b * v + j,
                        0 <= j < v,
                        0 <= b < n,
                ;
                assert(in_ext(c, ext)) by {
                    assert forall|e: int| 0 <= e < ext.len() implies 0 <= #[trigger] c[e]
                        < ext[e] by {
                        assert(l[e] <= c[e] < ext[e]);
                    }
                }
                crate::geometry::index::lemma_delin_lin(c, ext);
                assert(sample.shows(grid, state, k));
            }
            let value = f(&sample);
            let ghost old_vals = vals;
            proof {
                vals = vals.push(value);
                assert(vals.drop_last() =~= old_vals);
                assert(sampled::<T, S, F, D>(f, grid, state, k, value));
                assert forall|i: int| 0 <= i < vals.len() implies #[trigger] sampled::<T, S, F, D>(
                    f,
                    grid,
                    state,
                    i,
                    vals[i],
                ) by {
                    if i < old_vals.len() {
                        assert(vals[i] == old_vals[i]);
                        assert(sampled::<T, S, F, D>(f, grid, state, i, old_vals[i]));
                    }
                }
            }
            sum = sum.add(value);
            sum2 = value.mul_add(value, sum2);
            count += 1;
            min = min.min(value);
            max = max.max(value);
            proof {
                j = j + 1;
            }
            more = next_index(&mut idx, &lo, &hi);
        }
        assert((b + 1) * v == b * v + v) by (nonlinear_arith);
        b += 1;
    }
    let total = T::from_u64(count);
    let mean = sum.div(total);
    let variance = mean.mul_add(mean.neg(), sum2.div(total)).max(T::zero());
    let r = Stats { count, mean, variance, min, max };
    proof {
        assert(summarizes::<T, S, F, D>(r, vals, f, grid, state));
    }
    r
}

/// One past the last interior cell of a block, per axis.
fn interior_end<T: Real, const D: usize>(grid: &CartesianGrid<T, D>) -> (r: [isize; D])
    requires
        grid.valid(),
        crate::geometry::grid::slab_fits(grid.tile(), 0),
    ensures
        isizes(r) == grid.tile(),
{
    let ghost ext = grid.tile();
    proof {
        crate::geometry::index::lemma_volume_positive(grid.tiling());
    }
    let cells = grid.block_extent(BlockId(0));
    let mut hi = [0isize; D];
    let mut d: usize = 0;
    proof {
        crate::geometry::grid::lemma_extent_fits(ext, 0);
    }
    while d < D
        invariant
            d <= D,
            ext == usizes(cells),
            forall|k: int| 0 <= k < D ==> (#[trigger] ext[k]) + 2 * 0 <= isize::MAX,
            forall|e: int| 0 <= e < d ==> #[trigger] hi[e] == cells[e],
        decreases D - d,
    {
        assert(ext[d as int] + 2 * 0 <= isize::MAX);
        hi[d] = cells[d] as isize;
        d += 1;
    }
    assert(isizes(hi) =~= ext);
    hi
}

/// State, stage buffers and time after `n` steps of size `dt` on a fixed grid.
pub open spec fn after_steps<
    T: Real,
    G: Grid<T, D>,
    P: Sync,
    M: Model<T, G, P, D>,
    I: Integrator<T, G, P, M, D>,
    const D: usize,
>(
    model: &M,
    integrator: &I,
    grid: &G,
    disc: &P,
    fields: Seq<FieldSpec>,
    start: Advanced<T>,
    t: T,
    dt: T,
    n: nat,
) -> (Advanced<T>, T)
    decreases n,
{
    if n == 0 {
        (start, t)
    } else {
        let (a, s) = after_steps::<T, G, P, M, I, D>(
            model,
            integrator,
            grid,
            disc,
            fields,
            start,
            t,
            dt,
            (n - 1) as nat,
        );
        (
            integrated::<T, G, P, M, I, D>(
                model,
                integrator,
                grid,
                disc,
                fields,
                a.state,
                a.stages,
                s,
                dt,
            ),
            s.add_spec(dt),
        )
    }
}

/// A Monte Carlo ensemble: a thin driver around a [`Simulation`] whose cells are
/// independent paths.
///
/// Generic over the model, discretization, integrator, scheduler and allocator;
/// construct the simulation as usual (typically over a [`path_grid`]) and wrap it.
#[verifier::reject_recursive_types(T)]
#[verifier::reject_recursive_types(A)]
#[verifier::reject_recursive_types(D)]
pub struct MonteCarlo<T: Real, P, M, I, Sch, A: Allocator<T>, const D: usize> {
    sim: Simulation<T, CartesianGrid<T, D>, P, M, I, Sch, A, Static, D>,
}

impl<
    T: Real,
    P: Sync,
    M: Model<T, CartesianGrid<T, D>, P, D>,
    I: Integrator<T, CartesianGrid<T, D>, P, M, D>,
    Sch: Scheduler,
    A: Allocator<T>,
    const D: usize,
> MonteCarlo<T, P, M, I, Sch, A, D> {
    /// The wrapped simulation.
    pub closed spec fn inner(&self) -> Simulation<
        T,
        CartesianGrid<T, D>,
        P,
        M,
        I,
        Sch,
        A,
        Static,
        D,
    > {
        self.sim
    }

    /// What observers are shown after `k` more steps of size `dt`.
    pub open spec fn scene_after(&self, dt: T, k: nat) -> Sighting<CartesianGrid<T, D>, T> {
        let sim = self.inner();
        let (reached, t) = after_steps::<T, CartesianGrid<T, D>, P, M, I, D>(
            &sim.dynamics(),
            &sim.scheme(),
            &sim.mesh(),
            &sim.policy(),
            sim.fields(),
            (Advanced { state: sim.values(), stages: sim.buffers() }),
            sim.now(),
            dt,
            k,
        );
        Sighting {
            step: (sim.steps() + k) as u64,
            t,
            epoch: sim.generation(),
            grid: sim.mesh(),
            fields: sim.fields(),
            values: reached.state,
        }
    }

    /// The observers, from one step to the next: each stays in its place and is shown
    /// the scene of every step once, in order.
    pub open spec fn told(
        &self,
        acts: Seq<Seq<Box<dyn Observer<CartesianGrid<T, D>, T, A::Storage>>>>,
        dt: T,
        steps: nat,
    ) -> bool {
        &&& acts.len() == steps + 1
        &&& acts[0] == self.inner().audience()
        &&& forall|k: int|
            0 <= k <= steps ==> (#[trigger] acts[k]).len() == self.inner().audience().len()
        &&& forall|k: int, i: int|
            #![trigger acts[k][i]]
            0 < k <= steps && 0 <= i < self.inner().audience().len() ==> acts[k][i].memory()
                == acts[k - 1][i].recalls(self.scene_after(dt, k as nat))
    }

    /// Wrap a constructed simulation as a path ensemble.
    pub fn new(
        sim: Simulation<T, CartesianGrid<T, D>, P, M, I, Sch, A, Static, D>,
    ) -> (r: Self)
        ensures
            r.inner() == sim,
    {
        MonteCarlo { sim }
    }

    /// The wrapped simulation (read access: grid, state, model).
    pub fn simulation(&self) -> (r: &Simulation<
        T,
        CartesianGrid<T, D>,
        P,
        M,
        I,
        Sch,
        A,
        Static,
        D,
    >)
        ensures
            *r == self.inner(),
    {
        &self.sim
    }

    /// The wrapped simulation mutably: for initial conditions, observers, and
    /// anything else the ensemble does not itself provide.
    pub fn simulation_mut(&mut self) -> (r: &mut Simulation<
        T,
        CartesianGrid<T, D>,
        P,
        M,
        I,
        Sch,
        A,
        Static,
        D,
    >)
        ensures
            *r == old(self).inner(),
            final(self).inner() == *final(r),
    {
        &mut self.sim
    }

    /// Advance every path `steps` steps of size `dt`.
    pub fn run(&mut self, steps: usize, dt: T)
        requires
            old(self).inner().ready(),
            old(self).inner().steps() + steps <= u64::MAX,
            old(self).inner().generation() < u64::MAX,
        ensures
            final(self).inner().ready(),
            final(self).inner().mesh() == old(self).inner().mesh(),
            final(self).inner().policy() == old(self).inner().policy(),
            final(self).inner().dynamics() == old(self).inner().dynamics(),
            final(self).inner().scheme() == old(self).inner().scheme(),
            final(self).inner().fields() == old(self).inner().fields(),
            final(self).inner().generation() == old(self).inner().generation(),
            final(self).inner().steps() == old(self).inner().steps() + steps,
            ((Advanced {
                state: final(self).inner().values(),
                stages: final(self).inner().buffers(),
            }), final(self).inner().now()) == after_steps::<
                T,
                CartesianGrid<T, D>,
                P,
                M,
                I,
                D,
            >(
                &old(self).inner().dynamics(),
                &old(self).inner().scheme(),
                &old(self).inner().mesh(),
                &old(self).inner().policy(),
                old(self).inner().fields(),
                (Advanced {
                    state: old(self).inner().values(),
                    stages: old(self).inner().buffers(),
                }),
                old(self).inner().now(),
                dt,
                steps as nat,
            ),
            exists|acts: Seq<Seq<Box<dyn Observer<CartesianGrid<T, D>, T, A::Storage>>>>| #[trigger]
                old(self).told(acts, dt, steps as nat) && acts.last()
                    == final(self).inner().audience(),
    {
        let ghost s = self.sim;
        let ghost start = *self;
        let ghost mut acts: Seq<Seq<Box<dyn Observer<CartesianGrid<T, D>, T, A::Storage>>>> =
            seq![s.audience()];
        let mut i: usize = 0;
        while i < steps
            invariant
                i <= steps,
                s == old(self).inner(),
                self.sim.ready(),
                self.sim.mesh() == s.mesh(),
                self.sim.policy() == s.policy(),
                self.sim.dynamics() == s.dynamics(),
                self.sim.scheme() == s.scheme(),
                self.sim.fields() == s.fields(),
                self.sim.generation() == s.generation(),
                s.generation() < u64::MAX,
                s.steps() + steps <= u64::MAX,
                self.sim.steps() == s.steps() + i,
                ((Advanced { state: self.sim.values(), stages: self.sim.buffers() }), self.sim.now())
                    == after_steps::<T, CartesianGrid<T, D>, P, M, I, D>(
                    &s.dynamics(),
                    &s.scheme(),
                    &s.mesh(),
                    &s.policy(),
                    s.fields(),
                    (Advanced { state: s.values(), stages: s.buffers() }),
                    s.now(),
                    dt,
                    i as nat,
                ),
                start == *old(self),
                start.told(acts, dt, i as nat),
                acts[i as int] == self.sim.audience(),
            decreases steps - i,
        {
            self.sim.step(dt);
            i += 1;
            proof {
                assert(self.sim.scene() == start.scene_after(dt, i as nat));
                acts = acts.push(self.sim.audience());
            }
        }
    }

    /// Reduce a per-path functional over the ensemble to summary [`Stats`] (see
    /// [`ensemble_stats`]).
    pub fn stats<'a, F: Fn(&PathSample<'a, T, A::Storage, D>) -> T>(&'a self, f: F) -> (r: Stats<
        T,
    >)
        requires
            self.inner().ready(),
            crate::geometry::grid::slab_fits(self.inner().mesh().tile(), 0),
            paths_of(&self.inner().mesh()) <= u64::MAX,
            forall|p: &PathSample<'a, T, A::Storage, D>| #[trigger] p.sound() && p.width()
                == self.inner().fields().len() ==> call_requires(f, (p,)),
        ensures
            exists|vals: Seq<T>, state: &State<T, A::Storage>|
                state.fields() == self.inner().fields() && state.values() == self.inner().values()
                    && #[trigger] summarizes::<T, A::Storage, F, D>(
                    r,
                    vals,
                    f,
                    &self.inner().mesh(),
                    state,
                ),
    {
        let grid = self.sim.grid();
        let state = self.sim.state();
        proof {
            self.sim.lemma_ready();
            assert forall|p: &PathSample<'a, T, A::Storage, D>, k: int|
                0 <= k < paths_of(grid) && #[trigger] p.shows(grid, state, k) implies call_requires(
                f,
                (p,),
            ) by {
                p.lemma_shows(grid, state, k);
            }
        }
        ensemble_stats(grid, state, f)
    }
}

proof fn lemma_extremes<T: Real>(v: spec_fn(T) -> real, vals: Seq<T>)
    requires
        order_exact(v),
        minima_exact(v),
    ensures
        forall|i: int| 0 <= i < vals.len() ==> v(least_of(vals)) <= v(#[trigger] vals[i]),
        forall|i: int| 0 <= i < vals.len() ==> v(greatest_of(vals)) >= v(#[trigger] vals[i]),
        v(least_of(vals)) == v(T::infinity_spec()) || exists|i: int|
            0 <= i < vals.len() && v(#[trigger] vals[i]) == v(least_of(vals)),
        v(greatest_of(vals)) == v(T::infinity_spec().neg_spec()) || exists|i: int|
            0 <= i < vals.len() && v(#[trigger] vals[i]) == v(greatest_of(vals)),
    decreases vals.len(),
{
    if vals.len() > 0 {
        let t = vals.drop_last();
        let n = vals.len() - 1;
        lemma_extremes(v, t);
        assert(vals[n] == vals.last());
        assert forall|i: int| 0 <= i < vals.len() implies v(least_of(vals)) <= v(
            #[trigger] vals[i],
        ) && v(greatest_of(vals)) >= v(vals[i]) by {
            if i < n {
                assert(t[i] == vals[i]);
            }
        }
        if v(least_of(vals)) == v(least_of(t)) && v(least_of(t)) != v(T::infinity_spec()) {
            let i = choose|i: int| 0 <= i < t.len() && v(#[trigger] t[i]) == v(least_of(t));
            assert(vals[i] == t[i]);
        }
        if v(greatest_of(vals)) == v(greatest_of(t)) && v(greatest_of(t)) != v(
            T::infinity_spec().neg_spec(),
        ) {
            let i = choose|i: int| 0 <= i < t.len() && v(#[trigger] t[i]) == v(greatest_of(t));
            assert(vals[i] == t[i]);
        }
    }
}

/// In exact arithmetic the extremes of a summary are those of the ensemble: no value is
/// beyond them, and both are values of it, where none is beyond infinity. The count is
/// the number of values, and the standard deviation squares to the variance.
pub proof fn stats_bound_the_ensemble<T: Real>(v: spec_fn(T) -> real, vals: Seq<T>)
    requires
        exact(v),
        order_exact(v),
        minima_exact(v),
        roots_exact(v),
        0 < vals.len() <= u64::MAX,
        forall|i: int|
            0 <= i < vals.len() ==> v(T::infinity_spec().neg_spec()) < v(#[trigger] vals[i]) < v(
                T::infinity_spec(),
            ),
    ensures
        ({
            let s = stats_of(vals);
            &&& s.count == vals.len()
            &&& forall|i: int|
                0 <= i < vals.len() ==> v(s.min) <= v(#[trigger] vals[i]) <= v(s.max)
            &&& exists|i: int| 0 <= i < vals.len() && v(#[trigger] vals[i]) == v(s.min)
            &&& exists|i: int| 0 <= i < vals.len() && v(#[trigger] vals[i]) == v(s.max)
            &&& v(s.variance) >= 0 as real
            &&& v(s.deviates()) >= 0 as real
            &&& v(s.deviates()) * v(s.deviates()) == v(s.variance)
        }),
{
    lemma_extremes(v, vals);
    assert(v(vals[0]) < v(T::infinity_spec()));
}

/// In exact arithmetic the cells of a path grid share the unit interval equally.
pub proof fn paths_share_the_unit_interval<R: Real>(v: spec_fn(R) -> real, paths: usize)
    requires
        exact(v),
        paths > 0,
    ensures
        v(path_step::<R>(paths)) * paths as int as real == 1 as real,
{
    assert(v(R::from_u64_spec(paths as u64)) == paths as int as real);
}

/// In exact arithmetic `n` steps of size `dt` take `n dt`, and steps compose: `n` and then
/// `m` more, from where and when the first ended, are `n + m`.
pub proof fn steps_compose<
    T: Real,
    G: Grid<T, D>,
    P: Sync,
    M: Model<T, G, P, D>,
    I: Integrator<T, G, P, M, D>,
    const D: usize,
>(
    v: spec_fn(T) -> real,
    model: &M,
    integrator: &I,
    grid: &G,
    disc: &P,
    fields: Seq<FieldSpec>,
    start: Advanced<T>,
    t: T,
    dt: T,
    n: nat,
    m: nat,
)
    requires
        exact(v),
    ensures
        ({
            let first = after_steps::<T, G, P, M, I, D>(
                model,
                integrator,
                grid,
                disc,
                fields,
                start,
                t,
                dt,
                n,
            );
            &&& v(first.1) == v(t) + n as real * v(dt)
            &&& after_steps::<T, G, P, M, I, D>(
                model,
                integrator,
                grid,
                disc,
                fields,
                first.0,
                first.1,
                dt,
                m,
            ) == after_steps::<T, G, P, M, I, D>(
                model,
                integrator,
                grid,
                disc,
                fields,
                start,
                t,
                dt,
                n + m,
            )
        }),
    decreases n + m,
{
    let h = v(dt);
    if m > 0 {
        steps_compose::<T, G, P, M, I, D>(
            v,
            model,
            integrator,
            grid,
            disc,
            fields,
            start,
            t,
            dt,
            n,
            (m - 1) as nat,
        );
    } else if n > 0 {
        steps_compose::<T, G, P, M, I, D>(
            v,
            model,
            integrator,
            grid,
            disc,
            fields,
            start,
            t,
            dt,
            (n - 1) as nat,
            0,
        );
        lemma_distributes(h, (n - 1) as real, 1 as real);
        assert(1 as real * h == h) by (nonlinear_arith);
        assert(n as real == (n - 1) as real + 1 as real);
    } else {
        assert(0 as real * h == 0 as real) by (nonlinear_arith);
    }
}

} // verus!
