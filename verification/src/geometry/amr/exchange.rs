//! What levels of a hierarchy take from one another: ghosts from their own level or
//! the one below, coarse cells from the level above, and tags from steep cells.
use vstd::prelude::*;

use crate::engine::exact::{exact, lemma_commutes, lemma_distributes, order_exact};
use crate::engine::state::{allocated_on, full_block, BlockValues, FieldSpec};
use crate::engine::storage::Real;
use crate::geometry::amr::grid::AmrGrid;
use crate::geometry::amr::intergrid::{
    cell_of, ghost_fill_keeps_interiors, ghost_target, lemma_cell_of, lemma_local_interior,
    lemma_owner, level_filled, levels_filled, owner_at, patch_holds, same_interiors, slabs_fit,
};
use crate::geometry::amr::restriction::{
    child_mean, child_sum, end_child, first_child, lemma_child, lemma_child_mean_same, lies_under,
    refined_at, restricted, restricted_down, restriction_is_idempotent,
};
use crate::geometry::amr::sync::synchronized;
use crate::geometry::amr::tag::{
    moved, patch_tags, position_of, steepness, tags_before, GradientTagger, TagCells,
};
use crate::geometry::grid::{ghosted, lemma_slab_index, slab_at, slab_fits, slab_index, Grid};
use crate::geometry::halo::field_slabs;
use crate::geometry::index::{
    box_cells, in_box, in_ext, ints, lemma_rank, lemma_unrank, lemma_volume_positive, minus, plus,
    rank, volume,
};

verus! {

/// A ghost whose in-domain cell lies in a patch of its own level gets what that patch
/// holds there, whatever the time.
pub proof fn ghosts_copy_their_level<R: Real, T: Real, const D: usize>(
    grid: &AmrGrid<R, D>,
    g: int,
    v: Seq<Seq<T>>,
    interp: Option<(Seq<Seq<T>>, T)>,
    level: int,
    b: int,
    k: int,
    p: int,
)
    requires
        grid.sound(),
        0 <= b < v.len(),
        grid.level_of(b) == level,
        0 <= k < v[b].len(),
        !in_ext(slab_index(k, grid.extent_of(b), g), grid.extent_of(b)),
        patch_holds(
            grid,
            p,
            level,
            ghost_target(
                grid,
                level,
                plus(slab_index(k, grid.extent_of(b), g), ints(grid.patch_list()[b].bx.lo)),
            ),
        ),
    ensures
        ({
            let x = ghost_target(
                grid,
                level,
                plus(slab_index(k, grid.extent_of(b), g), ints(grid.patch_list()[b].bx.lo)),
            );
            level_filled(grid, g, v, interp, level)[b][k] == v[p][slab_at(
                minus(x, ints(grid.patch_list()[p].bx.lo)),
                grid.extent_of(p),
                g,
            )]
        }),
{
    let x = ghost_target(
        grid,
        level,
        plus(slab_index(k, grid.extent_of(b), g), ints(grid.patch_list()[b].bx.lo)),
    );
    lemma_owner(grid, p, level, x);
}

/// In exact arithmetic a ghost filled between an earlier field and the current one lies
/// that fraction of the way from what the earlier field alone would give it to what the
/// current one would. A ghost its own level holds is that of the current field.
pub proof fn ghosts_blend_in_time<R: Real, T: Real, const D: usize>(
    w: spec_fn(T) -> real,
    grid: &AmrGrid<R, D>,
    g: int,
    earlier: Seq<Seq<T>>,
    v: Seq<Seq<T>>,
    alpha: T,
    level: int,
    b: int,
    k: int,
)
    requires
        exact(w),
        earlier.len() == v.len(),
        0 <= b < v.len(),
        grid.level_of(b) == level,
        0 <= k < v[b].len(),
        earlier[b].len() == v[b].len(),
        !in_ext(slab_index(k, grid.extent_of(b), g), grid.extent_of(b)),
    ensures
        ({
            let x = plus(slab_index(k, grid.extent_of(b), g), ints(grid.patch_list()[b].bx.lo));
            let blend = w(level_filled(grid, g, v, Some((earlier, alpha)), level)[b][k]);
            let then = w(level_filled(grid, g, earlier, None, level)[b][k]);
            let now = w(level_filled(grid, g, v, None, level)[b][k]);
            if owner_at(grid, level, ghost_target(grid, level, x)) is Some {
                blend == now
            } else {
                blend == (1 as real - w(alpha)) * then + w(alpha) * now
            }
        }),
{
    let then = w(level_filled(grid, g, earlier, None, level)[b][k]);
    let now = w(level_filled(grid, g, v, None, level)[b][k]);
    lemma_commutes(then, 1 as real - w(alpha));
    lemma_commutes(now, w(alpha));
}

proof fn lemma_down_fits<R: Real, T: Real, const D: usize>(
    grid: &AmrGrid<R, D>,
    g: int,
    v: Seq<Seq<T>>,
    to: nat,
    levels: nat,
)
    requires
        slabs_fit(grid, g, v),
    ensures
        slabs_fit(grid, g, restricted_down(grid, g, v, to, levels)),
    decreases levels - to,
{
    if to + 1 < levels {
        lemma_down_fits(grid, g, v, (to + 1) as nat, levels);
        let w = restricted_down(grid, g, v, (to + 1) as nat, levels);
        let u = restricted_down(grid, g, v, to, levels);
        assert forall|p: int| 0 <= p < u.len() implies (#[trigger] u[p]).len() == w[p].len() by {}
    }
}

/// A field restricted from the finest level down is nested: restricting any level again
/// changes nothing. Every coarse cell beneath a patch holds the mean of its children in
/// the same field.
pub proof fn restricted_fields_are_nested<R: Real, T: Real, const D: usize>(
    grid: &AmrGrid<R, D>,
    g: int,
    v: Seq<Seq<T>>,
    to: nat,
    level: int,
)
    requires
        grid.sound(),
        slabs_fit(grid, g, v),
        to < level < grid.levels(),
    ensures
        restricted(
            grid,
            g,
            restricted_down(grid, g, v, to, grid.levels() as nat),
            level,
        ) == restricted_down(grid, g, v, to, grid.levels() as nat),
    decreases grid.levels() - to,
{
    let n = grid.levels() as nat;
    let next = (to + 1) as nat;
    let u = restricted_down(grid, g, v, next, n);
    let w = restricted_down(grid, g, v, to, n);
    lemma_down_fits(grid, g, v, next, n);
    if level == to + 1 {
        restriction_is_idempotent(grid, g, u, level);
    } else {
        restricted_fields_are_nested(grid, g, v, next, level);
        let again = restricted(grid, g, w, level);
        assert forall|p: int| 0 <= p < u.len() && grid.level_of(p) != to implies #[trigger] w[p]
            == u[p] by {
            assert(w[p] =~= u[p]);
        }
        assert forall|b: int| 0 <= b < u.len() implies #[trigger] again[b] == w[b] by {
            assert forall|k: int| 0 <= k < u[b].len() implies #[trigger] again[b][k] == w[b][k] by {
                let idx = slab_index(k, grid.extent_of(b), g);
                let c = plus(idx, ints(grid.patch_list()[b].bx.lo));
                if grid.level_of(b) == level - 1 && in_ext(idx, grid.extent_of(b)) && refined_at(
                    grid,
                    level,
                    c,
                ) {
                    let p = choose|p: int| lies_under(grid, p, level, c);
                    assert(grid.level_of(p) == level);
                    assert(w[p] == u[p]);
                    assert(w[b] == u[b]);
                    lemma_child_mean_same(grid, g, u, w, level, p, c);
                    assert(restricted(grid, g, u, level)[b][k] == u[b][k]);
                }
            }
            assert(again[b] =~= w[b]);
        }
        assert(again =~= w);
    }
}

/// Filling the ghosts of every level changes no interior.
pub proof fn filling_all_levels_keeps_interiors<R: Real, T: Real, const D: usize>(
    grid: &AmrGrid<R, D>,
    g: int,
    v: Seq<Seq<T>>,
    n: nat,
)
    requires
        slabs_fit(grid, g, v),
        g >= 0,
    ensures
        slabs_fit(grid, g, levels_filled(grid, g, v, n)),
        same_interiors(grid, g, v, levels_filled(grid, g, v, n)),
    decreases n,
{
    if n > 0 {
        filling_all_levels_keeps_interiors(grid, g, v, (n - 1) as nat);
        let u = levels_filled(grid, g, v, (n - 1) as nat);
        let w = levels_filled(grid, g, v, n);
        ghost_fill_keeps_interiors(grid, g, u, None, n - 1);
        assert forall|p: int, i: Seq<int>|
            #![trigger v[p][slab_at(i, grid.extent_of(p), g)]]
            #![trigger w[p][slab_at(i, grid.extent_of(p), g)]]
            0 <= p < grid.patch_list().len() && in_ext(i, grid.extent_of(p)) implies v[p][slab_at(
            i,
            grid.extent_of(p),
            g,
        )] == w[p][slab_at(i, grid.extent_of(p), g)] by {
            assert(u[p][slab_at(i, grid.extent_of(p), g)] == w[p][slab_at(
                i,
                grid.extent_of(p),
                g,
            )]);
        }
    }
}

/// How far apart the two neighbors of a cell are along an axis.
pub open spec fn rise<T: Real>(
    v: spec_fn(T) -> real,
    slab: Seq<T>,
    ext: Seq<int>,
    g: int,
    idx: Seq<int>,
    d: int,
) -> real {
    let x = v(slab[slab_at(moved(idx, d, 1), ext, g)]) - v(
        slab[slab_at(moved(idx, d, -1), ext, g)],
    );
    if x < 0 as real {
        -x
    } else {
        x
    }
}

/// In exact arithmetic the steepness of a cell is the largest half rise across it along
/// any axis.
pub proof fn steepness_is_the_largest_rise<T: Real>(
    v: spec_fn(T) -> real,
    slab: Seq<T>,
    ext: Seq<int>,
    g: int,
    idx: Seq<int>,
    n: nat,
)
    requires
        exact(v),
        order_exact(v),
    ensures
        v(steepness(slab, ext, g, idx, n)) >= 0 as real,
        forall|d: int|
            0 <= d < n ==> #[trigger] rise(v, slab, ext, g, idx, d) <= 2 as real * v(
                steepness(slab, ext, g, idx, n),
            ),
        v(steepness(slab, ext, g, idx, n)) == 0 as real || exists|d: int|
            0 <= d < n && #[trigger] rise(v, slab, ext, g, idx, d) == 2 as real * v(
                steepness(slab, ext, g, idx, n),
            ),
    decreases n,
{
    if n > 0 {
        let m = n - 1;
        steepness_is_the_largest_rise(v, slab, ext, g, idx, m as nat);
        let before = v(steepness(slab, ext, g, idx, m as nat));
        let after = v(steepness(slab, ext, g, idx, n));
        let diff = slab[slab_at(moved(idx, m, 1), ext, g)].sub_spec(
            slab[slab_at(moved(idx, m, -1), ext, g)],
        );
        let half = diff.mul_spec(T::half_spec());
        let (x, h) = (v(diff), v(T::half_spec()));
        lemma_distributes(x, h, h);
        assert(x * (1 as real) == x) by (nonlinear_arith);
        assert(v(half) + v(half) == x);
        assert(rise(v, slab, ext, g, idx, m) == 2 as real * v(half.abs_spec()));
        assert(after == (if before < v(half.abs_spec()) {
            v(half.abs_spec())
        } else {
            before
        }));
        if after == before && before != 0 as real {
            let d = choose|d: int|
                0 <= d < m && #[trigger] rise(v, slab, ext, g, idx, d) == 2 as real * before;
            assert(rise(v, slab, ext, g, idx, d) == 2 as real * after);
        }
    }
}

/// In exact arithmetic a cell of a patch is tagged if and only if, along some axis, the
/// values beside it differ by more than twice the threshold.
pub proof fn tags_mark_the_steep_cells<T: Real, const D: usize>(
    v: spec_fn(T) -> real,
    grid: &AmrGrid<T, D>,
    g: int,
    slab: Seq<T>,
    threshold: T,
    p: int,
    x: Seq<int>,
    k: nat,
)
    requires
        exact(v),
        order_exact(v),
        v(threshold) >= 0 as real,
        in_box(x, ints(grid.patch_list()[p].bx.lo), ints(grid.patch_list()[p].bx.hi)),
        k <= volume(
            minus(ints(grid.patch_list()[p].bx.hi), ints(grid.patch_list()[p].bx.lo)),
        ),
        k > rank(x, ints(grid.patch_list()[p].bx.lo), ints(grid.patch_list()[p].bx.hi)),
    ensures
        patch_tags(grid, g, slab, threshold, p, k).contains(cell_of::<D>(x)) <==> exists|d: int|
            0 <= d < D && #[trigger] rise(
                v,
                slab,
                grid.extent_of(p),
                g,
                minus(x, ints(grid.patch_list()[p].bx.lo)),
                d,
            ) > 2 as real * v(threshold),
{
    let lo = ints(grid.patch_list()[p].bx.lo);
    let idx = minus(x, lo);
    let ext = grid.extent_of(p);
    let s = v(steepness(slab, ext, g, idx, D as nat));
    steepness_is_the_largest_rise(v, slab, ext, g, idx, D as nat);
    lemma_tagged(v, grid, g, slab, threshold, p, x, k);
    if s > v(threshold) {
        let d = choose|d: int|
            0 <= d < D && #[trigger] rise(v, slab, ext, g, idx, d) == 2 as real * s;
        assert(rise(v, slab, ext, g, idx, d) > 2 as real * v(threshold));
    }
}

/// Tagging, in terms of the steepness.
proof fn lemma_tagged<T: Real, const D: usize>(
    v: spec_fn(T) -> real,
    grid: &AmrGrid<T, D>,
    g: int,
    slab: Seq<T>,
    threshold: T,
    p: int,
    x: Seq<int>,
    k: nat,
)
    requires
        order_exact(v),
        in_box(x, ints(grid.patch_list()[p].bx.lo), ints(grid.patch_list()[p].bx.hi)),
        k <= volume(
            minus(ints(grid.patch_list()[p].bx.hi), ints(grid.patch_list()[p].bx.lo)),
        ),
    ensures
        patch_tags(grid, g, slab, threshold, p, k).contains(cell_of::<D>(x)) <==> k > rank(
            x,
            ints(grid.patch_list()[p].bx.lo),
            ints(grid.patch_list()[p].bx.hi),
        ) && v(threshold) < v(
            steepness(
                slab,
                grid.extent_of(p),
                g,
                minus(x, ints(grid.patch_list()[p].bx.lo)),
                D as nat,
            ),
        ),
    decreases k,
{
    let lo = ints(grid.patch_list()[p].bx.lo);
    let hi = ints(grid.patch_list()[p].bx.hi);
    lemma_rank(x, lo, hi);
    let tags = patch_tags(grid, g, slab, threshold, p, k);
    if k > 0 {
        let before = patch_tags(grid, g, slab, threshold, p, (k - 1) as nat);
        lemma_tagged(v, grid, g, slab, threshold, p, x, (k - 1) as nat);
        let y = box_cells(lo, hi)[k - 1];
        lemma_unrank(k - 1, lo, hi);
        let here = threshold.lt_spec(
            steepness(slab, grid.extent_of(p), g, minus(y, lo), D as nat),
        );
        lemma_array_cell::<D>(lo, hi, x, grid.patch_list()[p].bx.lo, grid.patch_list()[p].bx.hi);
        lemma_array_cell::<D>(lo, hi, y, grid.patch_list()[p].bx.lo, grid.patch_list()[p].bx.hi);
        if here {
            assert(tags == before.push(cell_of::<D>(y)));
            assert(tags[tags.len() - 1] == cell_of::<D>(y));
            if before.contains(cell_of::<D>(x)) {
                let j = choose|j: int| 0 <= j < before.len() && before[j] == cell_of::<D>(x);
                assert(tags[j] == cell_of::<D>(x));
            }
            if tags.contains(cell_of::<D>(x)) && !before.contains(cell_of::<D>(x)) {
                let j = choose|j: int| 0 <= j < tags.len() && tags[j] == cell_of::<D>(x);
                if j < before.len() {
                    assert(before[j] == cell_of::<D>(x));
                }
                assert(cell_of::<D>(x) == cell_of::<D>(y));
                assert(x == y);
            }
            if x == y {
                assert(tags.contains(cell_of::<D>(x)));
            }
        }
        if rank(x, lo, hi) == k - 1 {
            assert(x == y);
        }
    }
}

proof fn lemma_array_cell<const D: usize>(
    lo: Seq<int>,
    hi: Seq<int>,
    x: Seq<int>,
    a: [i64; D],
    b: [i64; D],
)
    requires
        lo == ints(a),
        hi == ints(b),
        in_box(x, lo, hi),
    ensures
        ints(cell_of::<D>(x)) == x,
{
    assert forall|d: int| 0 <= d < D implies i64::MIN <= #[trigger] x[d] <= i64::MAX by {
        assert(lo[d] <= x[d] < hi[d]);
    }
    lemma_cell_of::<D>(x);
}

/// The tags of a level are those of its patches, one after the other.
pub proof fn level_tags_are_those_of_its_patches<T: Real, const D: usize>(
    grid: &AmrGrid<T, D>,
    g: int,
    v: Seq<Seq<T>>,
    threshold: T,
    level: int,
    n: int,
    c: [i64; D],
)
    ensures
        tags_before(grid, g, v, threshold, level, n).contains(c) <==> exists|p: int|
            grid.starts()[level] <= p < n && #[trigger] patch_tags(
                grid,
                g,
                v[p],
                threshold,
                p,
                volume(
                    minus(ints(grid.patch_list()[p].bx.hi), ints(grid.patch_list()[p].bx.lo)),
                ) as nat,
            ).contains(c),
    decreases n - grid.starts()[level],
{
    if n > grid.starts()[level] {
        level_tags_are_those_of_its_patches(grid, g, v, threshold, level, n - 1, c);
        let bx = grid.patch_list()[n - 1].bx;
        let before = tags_before(grid, g, v, threshold, level, n - 1);
        let here = patch_tags(
            grid,
            g,
            v[n - 1],
            threshold,
            n - 1,
            volume(minus(ints(bx.hi), ints(bx.lo))) as nat,
        );
        let all = tags_before(grid, g, v, threshold, level, n);
        assert(all == before + here);
        if before.contains(c) {
            let j = choose|j: int| 0 <= j < before.len() && before[j] == c;
            assert(all[j] == c);
        }
        if here.contains(c) {
            let j = choose|j: int| 0 <= j < here.len() && here[j] == c;
            assert(all[before.len() + j] == c);
        }
        if all.contains(c) {
            let j = choose|j: int| 0 <= j < all.len() && all[j] == c;
            if j < before.len() {
                assert(before[j] == c);
            } else {
                assert(here[j - before.len()] == c);
            }
        }
    }
}

/// The cells tagged on a level are the tags of the patches of that level, each examined
/// whole, and of no other patch.
pub proof fn every_patch_of_a_level_is_tagged<T: Real, const D: usize>(
    tagger: GradientTagger<T>,
    grid: &AmrGrid<T, D>,
    fields: Seq<FieldSpec>,
    values: Seq<BlockValues<T>>,
    level: int,
    c: [i64; D],
)
    requires
        grid.sound(),
        0 <= level < grid.levels(),
    ensures
        ({
            let f = position_of(fields, tagger.field@);
            let g = fields[f].halo as int;
            tagger.tagged(grid, fields, values, level).contains(c) <==> exists|p: int|
                0 <= p < grid.patch_list().len() && grid.patch_list()[p].level == level
                    && #[trigger] patch_tags(
                    grid,
                    g,
                    field_slabs(values, f)[p],
                    tagger.threshold,
                    p,
                    volume(
                        minus(ints(grid.patch_list()[p].bx.hi), ints(grid.patch_list()[p].bx.lo)),
                    ) as nat,
                ).contains(c)
        }),
{
    let f = position_of(fields, tagger.field@);
    let g = fields[f].halo as int;
    let v = field_slabs(values, f);
    let n = grid.starts()[level + 1] as int;
    level_tags_are_those_of_its_patches(grid, g, v, tagger.threshold, level, n, c);
    assert forall|p: int| grid.starts()[level] <= p < n implies 0 <= p < grid.patch_list().len()
        && (#[trigger] grid.patch_list()[p]).level == level by {
        grid.lemma_level_at(level, p);
    }
    assert forall|p: int|
        0 <= p < grid.patch_list().len() && (#[trigger] grid.patch_list()[p]).level
            == level implies grid.starts()[level] <= p < n by {}
}

proof fn lemma_mean_of_interiors<R: Real, T: Real, const D: usize>(
    grid: &AmrGrid<R, D>,
    g: int,
    v: Seq<Seq<T>>,
    w: Seq<Seq<T>>,
    level: int,
    p: int,
    c: Seq<int>,
    k: nat,
)
    requires
        grid.sound(),
        1 <= level < grid.levels(),
        lies_under(grid, p, level, c),
        same_interiors(grid, g, v, w),
        ({
            let r = grid.ratio_list()[level - 1] as int;
            k <= volume(minus(end_child(c, r), first_child(c, r)))
        }),
    ensures
        ({
            let r = grid.ratio_list()[level - 1] as int;
            child_sum(grid, g, v, level, c, r, k) == child_sum(grid, g, w, level, c, r, k)
        }),
    decreases k,
{
    let r = grid.ratio_list()[level - 1] as int;
    if k > 0 {
        lemma_mean_of_interiors(grid, g, v, w, level, p, c, (k - 1) as nat);
        lemma_child(grid, p, level, c, k - 1);
        let x = box_cells(first_child(c, r), end_child(c, r))[k - 1];
        assert(owner_at(grid, level, x) == Some(p));
        assert(patch_holds(grid, p, level, x));
        lemma_local_interior(grid, p, level, x);
        let i = minus(x, ints(grid.patch_list()[p].bx.lo));
        assert(v[p][slab_at(i, grid.extent_of(p), g)] == w[p][slab_at(i, grid.extent_of(p), g)]);
    }
}

/// A synchronized field is nested: in it, every interior cell beneath a patch holds the
/// mean of its children; and no other field is touched.
pub proof fn synchronized_fields_are_nested<T: Real, const D: usize>(
    grid: &AmrGrid<T, D>,
    fields: Seq<FieldSpec>,
    values: Seq<BlockValues<T>>,
    f: int,
    level: int,
    b: int,
    k: int,
)
    requires
        grid.sound(),
        allocated_on::<T, T, AmrGrid<T, D>, D>(fields, grid, values),
        0 <= f < fields.len(),
        1 <= level < grid.levels(),
        0 <= b < grid.blocks(),
        grid.level_of(b) == level - 1,
        0 <= k < volume(ghosted(grid.extent_of(b), fields[f].halo as int)),
        in_ext(slab_index(k, grid.extent_of(b), fields[f].halo as int), grid.extent_of(b)),
        refined_at(
            grid,
            level,
            plus(
                slab_index(k, grid.extent_of(b), fields[f].halo as int),
                ints(grid.patch_list()[b].bx.lo),
            ),
        ),
    ensures
        ({
            let g = fields[f].halo as int;
            let c = plus(slab_index(k, grid.extent_of(b), g), ints(grid.patch_list()[b].bx.lo));
            let next = synchronized(grid, fields, values, f);
            &&& next[b].fields[f][k] == child_mean(grid, g, field_slabs(next, f), level, c)
            &&& forall|e: int|
                0 <= e < fields.len() && e != f ==> #[trigger] next[b].fields[e]
                    == values[b].fields[e]
        }),
{
    let g = fields[f].halo as int;
    let n = grid.levels() as nat;
    let ext = grid.extent_of(b);
    let idx = slab_index(k, ext, g);
    let c = plus(idx, ints(grid.patch_list()[b].bx.lo));
    let v = field_slabs(values, f);
    assert(slabs_fit(grid, g, v)) by {
        assert forall|p: int| 0 <= p < v.len() implies #[trigger] slab_fits(
            grid.extent_of(p),
            g,
        ) by {
            assert(fields[f].halo == g);
        }
        assert forall|p: int| 0 <= p < v.len() implies (#[trigger] v[p]).len() == volume(
            ghosted(grid.extent_of(p), g),
        ) by {
            assert(full_block(fields, grid.extent_of(p), values[p]));
        }
    }
    let down = restricted_down(grid, g, v, 0, n);
    lemma_down_fits(grid, g, v, 0, n);
    restricted_fields_are_nested(grid, g, v, 0, level);
    let done = levels_filled(grid, g, down, n);
    filling_all_levels_keeps_interiors(grid, g, down, n);
    let next = synchronized(grid, fields, values, f);
    assert forall|p: int| 0 <= p < values.len() implies #[trigger] field_slabs(next, f)[p]
        == done[p] by {
        assert(full_block(fields, grid.extent_of(p), values[p]));
    }
    assert(field_slabs(next, f) =~= done);
    grid.lemma_patch(b);
    lemma_slab_index(k, ext, g);
    assert(down[b][slab_at(idx, ext, g)] == done[b][slab_at(idx, ext, g)]);
    assert(restricted(grid, g, down, level)[b][k] == down[b][k]);
    let p = choose|p: int| lies_under(grid, p, level, c);
    let r = grid.ratio_list()[level - 1] as int;
    let box_ext = minus(end_child(c, r), first_child(c, r));
    assert(grid.ratio_list()[level - 1] >= 2);
    assert forall|d: int| 0 <= d < box_ext.len() implies 0 < #[trigger] box_ext[d] by {}
    lemma_volume_positive(box_ext);
    lemma_mean_of_interiors(grid, g, down, done, level, p, c, volume(box_ext) as nat);
    assert(full_block(fields, ext, values[b]));
}

/// Synchronizing a field keeps the allocation.
pub proof fn lemma_synchronized_allocated<T: Real, const D: usize>(
    grid: &AmrGrid<T, D>,
    fields: Seq<FieldSpec>,
    values: Seq<BlockValues<T>>,
    f: int,
)
    requires
        grid.sound(),
        allocated_on::<T, T, AmrGrid<T, D>, D>(fields, grid, values),
        0 <= f < fields.len(),
    ensures
        allocated_on::<T, T, AmrGrid<T, D>, D>(
            fields,
            grid,
            synchronized(grid, fields, values, f),
        ),
        forall|b: int, e: int|
            #![trigger synchronized(grid, fields, values, f)[b].fields[e]]
            0 <= b < values.len() && 0 <= e < fields.len() && e != f ==> synchronized(
                grid,
                fields,
                values,
                f,
            )[b].fields[e] == values[b].fields[e],
{
    let g = fields[f].halo as int;
    let n = grid.levels() as nat;
    let v = field_slabs(values, f);
    assert(slabs_fit(grid, g, v)) by {
        assert forall|p: int| 0 <= p < v.len() implies #[trigger] slab_fits(
            grid.extent_of(p),
            g,
        ) by {
            assert(fields[f].halo == g);
        }
        assert forall|p: int| 0 <= p < v.len() implies (#[trigger] v[p]).len() == volume(
            ghosted(grid.extent_of(p), g),
        ) by {
            assert(full_block(fields, grid.extent_of(p), values[p]));
        }
    }
    let down = restricted_down(grid, g, v, 0, n);
    lemma_down_fits(grid, g, v, 0, n);
    let done = levels_filled(grid, g, down, n);
    filling_all_levels_keeps_interiors(grid, g, down, n);
    let next = synchronized(grid, fields, values, f);
    assert forall|b: int| 0 <= b < next.len() implies full_block(
        fields,
        grid.extent_of(b),
        #[trigger] next[b],
    ) by {
        assert(full_block(fields, grid.extent_of(b), values[b]));
        assert(done[b].len() == volume(ghosted(grid.extent_of(b), g)));
    }
    assert forall|b: int, e: int|
        #![trigger next[b].fields[e]]
        0 <= b < values.len() && 0 <= e < fields.len() && e != f implies next[b].fields[e]
        == values[b].fields[e] by {
        assert(full_block(fields, grid.extent_of(b), values[b]));
    }
}

} // verus!
