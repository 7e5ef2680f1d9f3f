//! Field statistics of a snapshot: smallest, largest and mean value over the
//! interior cells, and the share of cells above a threshold.

use vstd::prelude::*;

use crate::engine::exact::{exact, minima_exact, order_exact};
use crate::engine::monte_carlo::{path_value, paths_of, sum_of, total};
use crate::engine::state::{allocated_on, full_block, BlockValues, FieldHandle, FieldSpec, State};
use crate::engine::storage::{Real, StorageBackend};
use crate::geometry::cartesian::CartesianGrid;
use crate::geometry::grid::{lemma_interior_in_slab, slab_at, slab_fits, BlockId, Grid};
use crate::geometry::index::{
    delin, in_ext, isizes, lemma_delin_lin, lemma_lin_bounds, lemma_volume_positive, lin, volume,
};
use crate::io::table::row_cells;

verus! {

/// Which statistics to report for one field.
#[derive(Debug, Clone, Copy)]
pub struct FieldStat<T: Real> {
    /// Display name of the field.
    pub name: &'static str,
    /// Handle of the field to reduce over.
    pub handle: FieldHandle<T>,
    /// If set, additionally report the share of cells strictly above this
    /// threshold.
    pub fraction_above: Option<T>,
}

/// Statistics of one field over the interior cells.
#[derive(Debug, Clone, Copy)]
pub struct FieldSummary<T> {
    /// Smallest value.
    pub lo: T,
    /// Largest value.
    pub hi: T,
    /// Mean value.
    pub mean: T,
    /// Percentage of cells above the threshold, if one is set.
    pub percent_above: Option<T>,
}

/// The values of a field in row order.
pub open spec fn field_values<T: Real, const D: usize>(
    grid: &CartesianGrid<T, D>,
    fields: Seq<FieldSpec>,
    values: Seq<BlockValues<T>>,
    f: int,
) -> Seq<T> {
    Seq::new(
        paths_of(grid) as nat,
        |i: int|
            path_value(
                grid,
                fields,
                values,
                i / volume(grid.tile()),
                delin(i % volume(grid.tile()), grid.tile()),
                f,
            ),
    )
}

/// The smallest value, the largest finite number if there is none.
pub open spec fn floor_of<T: Real>(vals: Seq<T>) -> T
    decreases vals.len(),
{
    if vals.len() == 0 {
        T::largest_spec()
    } else {
        floor_of(vals.drop_last()).min_spec(vals.last())
    }
}

/// The largest value, the least finite number if there is none.
pub open spec fn ceiling_of<T: Real>(vals: Seq<T>) -> T
    decreases vals.len(),
{
    if vals.len() == 0 {
        T::largest_spec().neg_spec()
    } else {
        ceiling_of(vals.drop_last()).max_spec(vals.last())
    }
}

/// Number of values strictly above a threshold.
pub open spec fn above_of<T: Real>(vals: Seq<T>, threshold: T) -> nat
    decreases vals.len(),
{
    if vals.len() == 0 {
        0
    } else {
        above_of(vals.drop_last(), threshold) + (if threshold.lt_spec(vals.last()) {
            1nat
        } else {
            0nat
        })
    }
}

/// At least one.
pub open spec fn at_least_one(n: nat) -> u64 {
    if n == 0 {
        1
    } else {
        n as u64
    }
}

/// The summary of a list of values.
pub open spec fn summary_of<T: Real>(vals: Seq<T>, threshold: Option<T>) -> FieldSummary<T> {
    let count = T::from_u64_spec(at_least_one(vals.len()));
    FieldSummary {
        lo: floor_of(vals),
        hi: ceiling_of(vals),
        mean: sum_of(vals).div_spec(count),
        percent_above: match threshold {
            None => None,
            Some(t) => Some(
                T::from_u64_spec(100).mul_spec(
                    T::from_u64_spec(above_of(vals, t) as u64),
                ).div_spec(count),
            ),
        },
    }
}

/// Reduce one field over the interior cells of a state.
pub fn field_summary<T: Real, S: StorageBackend<T>, const D: usize>(
    grid: &CartesianGrid<T, D>,
    state: &State<T, S>,
    stat: &FieldStat<T>,
) -> (r: FieldSummary<T>)
    requires
        grid.valid(),
        slab_fits(grid.tile(), 0),
        allocated_on::<T, T, CartesianGrid<T, D>, D>(state.fields(), grid, state.values()),
        0 <= stat.handle.pos() < state.fields().len(),
        paths_of(grid) <= u64::MAX,
    ensures
        r == summary_of(
            field_values(grid, state.fields(), state.values(), stat.handle.pos()),
            stat.fraction_above,
        ),
{
    let ghost f = stat.handle.pos();
    let ghost ext = grid.tile();
    let ghost rows = volume(ext);
    let ghost fields = state.fields();
    let ghost g = fields[f].halo as int;
    let ghost all = field_values(grid, fields, state.values(), f);
    let cells = row_cells(grid);
    let n = grid.num_blocks();
    let mut lo = T::largest();
    let mut hi = T::largest().neg();
    let mut sum = T::zero();
    let mut above: u64 = 0;
    let mut count: u64 = 0;
    let mut b: usize = 0;
    proof {
        grid.lemma_blocks();
        crate::geometry::index::lemma_volume_positive(ext);
        assert(0 * rows == 0);
    }
    while b < n
        invariant
            b <= n,
            n == grid.blocks(),
            n <= u32::MAX,
            grid.valid(),
            allocated_on::<T, T, CartesianGrid<T, D>, D>(fields, grid, state.values()),
            fields == state.fields(),
            0 <= f < fields.len(),
            f == stat.handle.pos(),
            g == fields[f].halo,
            ext == grid.tile(),
            rows == volume(ext),
            rows >= 1,
            rows == cells@.len(),
            all == field_values(grid, fields, state.values(), f),
            paths_of(grid) <= u64::MAX,
            forall|k: int|
                0 <= k < cells@.len() ==> isizes(#[trigger] cells@[k]) == delin(k, ext) && in_ext(
                    isizes(cells@[k]),
                    ext,
                ),
            count == b * rows,
            lo == floor_of(all.take(count as int)),
            hi == ceiling_of(all.take(count as int)),
            sum == sum_of(all.take(count as int)),
            above <= count,
            stat.fraction_above matches Some(t) ==> above == above_of(all.take(count as int), t),
        decreases n - b,
    {
        let block = BlockId(b as u32);
        let ghost slab = state.values()[b as int].fields[f];
        proof {
            assert(grid.extent_of(b as int) == ext);
            assert(full_block(fields, ext, state.values()[b as int]));
            assert(slab_fits(ext, fields[f].halo as int));
        }
        let view = state.view(grid, block, stat.handle);
        let mut k: usize = 0;
        while k < cells.len()
            invariant
                k <= cells@.len(),
                b < n,
                n == grid.blocks(),
                fields == state.fields(),
                g == fields[f].halo,
                ext == grid.tile(),
                rows == volume(ext),
                rows >= 1,
                rows == cells@.len(),
                all == field_values(grid, fields, state.values(), f),
                paths_of(grid) <= u64::MAX,
                slab == state.values()[b as int].fields[f],
                view.valid(),
                view.ext() == ext,
                view.width() == g,
                view.data() == slab,
                forall|k: int|
                    0 <= k < cells@.len() ==> isizes(#[trigger] cells@[k]) == delin(k, ext)
                        && in_ext(isizes(cells@[k]), ext),
                count == b * rows + k,
                lo == floor_of(all.take(count as int)),
                hi == ceiling_of(all.take(count as int)),
                sum == sum_of(all.take(count as int)),
                above <= count,
                stat.fraction_above matches Some(t) ==> above == above_of(
                    all.take(count as int),
                    t,
                ),
            decreases cells.len() - k,
        {
            let ghost i = count as int;
            proof {
                assert(in_ext(isizes(cells@[k as int]), ext));
                lemma_interior_in_slab(isizes(cells@[k as int]), ext, g);
                assert(i / rows == b && i % rows == k && 0 <= i < n * rows) by (nonlinear_arith)
                    requires
                        i == b * rows + k,
                        0 <= k < rows,
                        0 <= b < n,
                ;
            }
            let x = view.get(cells[k]);
            proof {
                assert(x == all[i]);
                let more = all.take(i + 1);
                assert(more.drop_last() =~= all.take(i));
                assert(more.last() == x);
            }
            lo = lo.min(x);
            hi = hi.max(x);
            sum = sum.add(x);
            count += 1;
            if let Some(t) = stat.fraction_above {
                if t.lt(x) {
                    above += 1;
                }
            }
            k += 1;
        }
        assert((b + 1) * rows == b * rows + rows) by (nonlinear_arith);
        b += 1;
    }
    proof {
        assert(all.take(count as int) =~= all);
    }
    let total = T::from_u64(
        if count == 0 {
            1
        } else {
            count
        },
    );
    let percent_above = match stat.fraction_above {
        None => None,
        Some(t) => Some(T::from_u64(100).mul(T::from_u64(above)).div(total)),
    };
    FieldSummary { lo, hi, mean: sum.div(total), percent_above }
}

/// Number of values above a real.
pub open spec fn exceeding<T: Real>(v: spec_fn(T) -> real, vals: Seq<T>, x: real) -> int
    decreases vals.len(),
{
    if vals.len() == 0 {
        0
    } else {
        exceeding(v, vals.drop_last(), x) + (if v(vals.last()) > x {
            1int
        } else {
            0int
        })
    }
}

proof fn lemma_reduced<T: Real>(v: spec_fn(T) -> real, vals: Seq<T>, threshold: T)
    requires
        exact(v),
        order_exact(v),
        minima_exact(v),
    ensures
        forall|i: int|
            0 <= i < vals.len() ==> v(floor_of(vals)) <= v(#[trigger] vals[i]) <= v(
                ceiling_of(vals),
            ),
        v(floor_of(vals)) == v(T::largest_spec()) || exists|i: int|
            0 <= i < vals.len() && v(#[trigger] vals[i]) == v(floor_of(vals)),
        v(ceiling_of(vals)) == -v(T::largest_spec()) || exists|i: int|
            0 <= i < vals.len() && v(#[trigger] vals[i]) == v(ceiling_of(vals)),
        v(sum_of(vals)) == total(v, vals),
        above_of(vals, threshold) == exceeding(v, vals, v(threshold)),
        above_of(vals, threshold) <= vals.len(),
    decreases vals.len(),
{
    if vals.len() > 0 {
        let t = vals.drop_last();
        let n = vals.len() - 1;
        lemma_reduced(v, t, threshold);
        assert(vals[n] == vals.last());
        assert forall|i: int| 0 <= i < vals.len() implies v(floor_of(vals)) <= v(
            #[trigger] vals[i],
        ) <= v(ceiling_of(vals)) by {
            if i < n {
                assert(t[i] == vals[i]);
            }
        }
        if v(floor_of(vals)) == v(floor_of(t)) && v(floor_of(t)) != v(T::largest_spec()) {
            let i = choose|i: int| 0 <= i < t.len() && v(#[trigger] t[i]) == v(floor_of(t));
            assert(vals[i] == t[i]);
        }
        if v(ceiling_of(vals)) == v(ceiling_of(t)) && v(ceiling_of(t)) != -v(T::largest_spec()) {
            let i = choose|i: int| 0 <= i < t.len() && v(#[trigger] t[i]) == v(ceiling_of(t));
            assert(vals[i] == t[i]);
        }
    }
}

/// In exact arithmetic a summary is that of the values, where they are within the range
/// of the number type: none lies beyond its ends, which are two of them; the mean times
/// the count is their sum; and the percentage times the count is a hundred times the
/// number of values above the threshold.
pub proof fn summaries_are_of_the_values<T: Real>(
    v: spec_fn(T) -> real,
    vals: Seq<T>,
    threshold: T,
)
    requires
        exact(v),
        order_exact(v),
        minima_exact(v),
        0 < vals.len() <= u64::MAX,
        forall|i: int|
            0 <= i < vals.len() ==> -v(T::largest_spec()) < v(#[trigger] vals[i]) < v(
                T::largest_spec(),
            ),
    ensures
        ({
            let s = summary_of(vals, Some(threshold));
            let n = vals.len() as int as real;
            &&& forall|i: int|
                0 <= i < vals.len() ==> v(s.lo) <= v(#[trigger] vals[i]) <= v(s.hi)
            &&& exists|i: int| 0 <= i < vals.len() && v(#[trigger] vals[i]) == v(s.lo)
            &&& exists|i: int| 0 <= i < vals.len() && v(#[trigger] vals[i]) == v(s.hi)
            &&& v(s.mean) * n == total(v, vals)
            &&& v(s.percent_above->0) * n == 100 as real * exceeding(
                v,
                vals,
                v(threshold),
            ) as real
            &&& s.percent_above is Some
            &&& summary_of(vals, None).percent_above is None
        }),
{
    lemma_reduced(v, vals, threshold);
    assert(v(vals[0]) < v(T::largest_spec()));
    let count = T::from_u64_spec(at_least_one(vals.len()));
    assert(v(count) == vals.len() as int as real);
    let above = above_of(vals, threshold);
    assert(v(T::from_u64_spec(above as u64)) == above as int as real);
    assert(v(T::from_u64_spec(100)) == 100 as real);
}

/// A summary covers every interior cell once: there are as many values as cells, block by
/// block, and that of a cell stands at its block's place and its own within the block.
pub proof fn summaries_cover_every_cell<T: Real, const D: usize>(
    grid: &CartesianGrid<T, D>,
    fields: Seq<FieldSpec>,
    values: Seq<BlockValues<T>>,
    f: int,
    b: int,
    idx: Seq<int>,
)
    requires
        grid.valid(),
        0 <= b < grid.blocks(),
        in_ext(idx, grid.tile()),
    ensures
        ({
            let all = field_values(grid, fields, values, f);
            let n = volume(grid.tile());
            &&& all.len() == grid.blocks() * n
            &&& 0 <= b * n + lin(idx, grid.tile()) < all.len()
            &&& all[b * n + lin(idx, grid.tile())] == values[b].fields[f][slab_at(
                idx,
                grid.tile(),
                fields[f].halo as int,
            )]
        }),
{
    let ext = grid.tile();
    let n = volume(ext);
    let k = lin(idx, ext);
    let blocks = grid.blocks() as int;
    lemma_volume_positive(ext);
    lemma_lin_bounds(idx, ext);
    lemma_delin_lin(idx, ext);
    vstd::arithmetic::div_mod::lemma_fundamental_div_mod_converse(b * n + k, n, b, k);
    assert(0 <= b * n + k < blocks * n) by (nonlinear_arith)
        requires
            0 <= b < blocks,
            0 <= k < n,
    ;
}

} // verus!
