//! The adaptivity policy: tag, cluster, nest, migrate.
//!
//! At the regrid cadence [`BergerOliger`] flags cells through a [`TagCells`]
//! criterion, dilates the flags by the buffer zone, clusters them, rebuilds the
//! hierarchy **finest level first** (adding nesting flags so each level properly
//! contains the one above), and migrates the solution onto the new hierarchy.
//!
//! Everything here is a pure function of the state: tags, clustering, and
//! migration are deterministic, so adaptive runs remain reproducible. Stochastic
//! driver streams re-key across a regrid (block ids change).
use vstd::prelude::*;

use crate::engine::scheduler::Scheduler;
use crate::engine::simulation::{Adapt, Simulation};
use crate::engine::state::{
    allocated_on, full_block, interiors_fit, layout_fits, BlockValues, FieldSpec, State,
};
use crate::engine::storage::{Allocator, Real, StorageBackend};
use crate::geometry::amr::cluster::{CellBox, ClusterParams};
use crate::geometry::amr::grid::{
    boxes_below, hierarchies_are_their_boxes, lemma_domain_positive, lemma_trimmed, level_cells,
    level_views, levels_fit, ratios_ok, trimmed, AmrGrid,
};
use crate::geometry::amr::migrate::{kin, migrate, migrated};
use crate::geometry::amr::plan::{
    buffered, dilation, hierarchy_plan, lemma_level_plan_box, lemma_level_ready, level_plan,
    plan_level, planned_hierarchies_are_valid, plans_cover_the_buffered_tags,
};
use crate::geometry::amr::tag::TagCells;
use crate::geometry::amr::walk::{covered, covered_by, some_box_has};
use crate::geometry::grid::{ghosted, slab_fits, BlockId, Grid};
use crate::geometry::halo::field_slabs;
use crate::geometry::index::{in_ext, ints, positive, usizes, volume};
use crate::integrators::scheme::Integrator;
use crate::physics::model::Model;

verus! {

/// Knobs of the regrid loop.
#[derive(Debug, Clone, Copy)]
pub struct RegridPolicy<R> {
    /// Regrid every this many steps (the first call, step 0, always regrids:
    /// that is the initial refinement from the initial conditions).
    pub every: u64,
    /// Buffer zone in coarse cells: flags are dilated by this before
    /// clustering, so features stay inside their patches between regrids
    /// (buffer and cadence trade off directly).
    pub buffer: i64,
    /// Clustering knobs.
    pub cluster: ClusterParams<R>,
}

impl<R: Real> Default for RegridPolicy<R> {
    fn default() -> (r: Self)
        ensures
            r.every == 4,
            r.buffer == 2,
            r.cluster.efficiency == R::from_u64_spec(4).div_spec(R::from_u64_spec(5)),
            r.cluster.min_width == 4,
    {
        RegridPolicy { every: 4, buffer: 2, cluster: ClusterParams::default() }
    }
}

/// The adaptivity policy; see the module docs.
#[derive(Debug, Clone)]
pub struct BergerOliger<Tag, R> {
    tagger: Tag,
    policy: RegridPolicy<R>,
}

impl<Tag, R> BergerOliger<Tag, R> {
    /// The tagging criterion.
    pub closed spec fn criterion(&self) -> Tag {
        self.tagger
    }

    /// The regrid knobs.
    pub closed spec fn knobs(&self) -> RegridPolicy<R> {
        self.policy
    }

    /// Assemble the policy from a tagging criterion and regrid knobs.
    pub fn new(tagger: Tag, policy: RegridPolicy<R>) -> (r: Self)
        ensures
            r.criterion() == tagger,
            r.knobs() == policy,
    {
        BergerOliger { tagger, policy }
    }
}

/// Step `step` is a regrid step.
pub open spec fn regrid_due(step: u64, every: u64) -> bool {
    if every == 0 {
        step == 0
    } else {
        step % every == 0
    }
}

/// Total number of cells of the first `n` boxes.
pub open spec fn total_cells<const D: usize>(boxes: Seq<CellBox<D>>, n: nat) -> int
    decreases n,
{
    if n == 0 {
        0
    } else {
        total_cells(boxes, (n - 1) as nat) + boxes[n - 1].count()
    }
}

/// The current level may keep serving the proposed boxes: it covers them all
/// and is not over-refined beyond 3/2 of the proposal.
pub open spec fn level_acceptable<const D: usize>(
    proposed: Seq<CellBox<D>>,
    current: Seq<CellBox<D>>,
) -> bool {
    let p = total_cells(proposed, proposed.len());
    &&& total_cells(current, current.len()) <= p + p / 2
    &&& forall|k: int| 0 <= k < proposed.len() ==> covered(#[trigger] proposed[k], current)
}

/// The current hierarchy may keep serving the proposed one.
pub open spec fn acceptable<R: Real, const D: usize>(
    grid: &AmrGrid<R, D>,
    plan: Seq<Seq<CellBox<D>>>,
) -> bool {
    &&& plan.len() == grid.levels() - 1
    &&& forall|l: int|
        0 <= l < plan.len() ==> level_acceptable(#[trigger] plan[l], grid.level_boxes(l + 1))
}

/// The slabs of every field on a box can be addressed.
pub open spec fn box_usable<const D: usize>(bx: CellBox<D>, fields: Seq<FieldSpec>) -> bool {
    &&& slab_fits(bx.widths(), 0)
    &&& forall|f: int| 0 <= f < fields.len() ==> slab_fits(bx.widths(), (#[trigger] fields[f]).halo as int)
}

/// Block ids can number the plan's patches, and their slabs can be addressed.
pub open spec fn usable<R: Real, const D: usize>(
    grid: &AmrGrid<R, D>,
    fields: Seq<FieldSpec>,
    plan: Seq<Seq<CellBox<D>>>,
) -> bool {
    &&& grid.base_grid().blocks() + boxes_below(plan, plan.len() as int) < u32::MAX
    &&& forall|l: int, i: int|
        #![trigger plan[l][i]]
        0 <= l < plan.len() && 0 <= i < plan[l].len() ==> box_usable(plan[l][i], fields)
}

/// The tags of every level that may be refined.
pub open spec fn all_tags<T: Real, Tag: TagCells<T, D>, const D: usize>(
    tagger: &Tag,
    grid: &AmrGrid<T, D>,
    fields: Seq<FieldSpec>,
    values: Seq<BlockValues<T>>,
) -> Seq<Seq<[i64; D]>> {
    Seq::new(
        grid.ratio_list().len(),
        |l: int|
            if l < grid.levels() {
                tagger.tagged(grid, fields, values, l)
            } else {
                Seq::empty()
            },
    )
}

/// The hierarchy is planned on level domains that fit machine integers, buffer
/// zones included.
pub open spec fn plannable<R: Real, const D: usize>(
    grid: &AmrGrid<R, D>,
    policy: RegridPolicy<R>,
) -> bool {
    &&& grid.ratio_list().len() <= 255
    &&& ratios_ok(grid.ratio_list(), grid.ratio_list().len())
    &&& levels_fit(grid.base_grid().domain(), grid.ratio_list(), grid.ratio_list().len())
    &&& policy.cluster.min_width >= 1
    &&& forall|l: nat, d: int|
        #![trigger level_cells(grid.base_grid().domain(), grid.ratio_list(), l)[d]]
        l < grid.ratio_list().len() && 0 <= d < D ==> level_cells(
            grid.base_grid().domain(),
            grid.ratio_list(),
            l,
        )[d] + dilation(policy.buffer) <= i64::MAX
}

/// Collect the tags of every level that may be refined.
fn collect_tags<T: Real, S: StorageBackend<T>, Tag: TagCells<T, D>, const D: usize>(
    tagger: &Tag,
    grid: &AmrGrid<T, D>,
    state: &State<T, S>,
) -> (out: Vec<Vec<[i64; D]>>)
    requires
        grid.sound(),
        tagger.suits(grid.base_grid(), grid.ratio_list(), state.fields()),
        allocated_on::<T, T, AmrGrid<T, D>, D>(state.fields(), grid, state.values()),
        grid.ratio_list().len() <= 255,
    ensures
        out@.len() == grid.ratio_list().len(),
        forall|l: int|
            0 <= l < out@.len() ==> (#[trigger] out@[l])@ == all_tags(
                tagger,
                grid,
                state.fields(),
                state.values(),
            )[l],
        forall|l: int, i: int|
            #![trigger out@[l]@[i]]
            0 <= l < out@.len() && 0 <= i < out@[l]@.len() ==> in_ext(
                ints(out@[l]@[i]),
                grid.cells_at(l),
            ),
{
    let ghost want = all_tags(tagger, grid, state.fields(), state.values());
    let capacity = grid.ratios().len();
    let levels = grid.num_levels();
    let mut out: Vec<Vec<[i64; D]>> = Vec::new();
    let mut l: usize = 0;
    while l < capacity
        invariant
            l <= capacity,
            capacity == grid.ratio_list().len(),
            capacity <= 255,
            levels == grid.levels(),
            grid.sound(),
            tagger.suits(grid.base_grid(), grid.ratio_list(), state.fields()),
            allocated_on::<T, T, AmrGrid<T, D>, D>(state.fields(), grid, state.values()),
            want == all_tags(tagger, grid, state.fields(), state.values()),
            out@.len() == l,
            forall|k: int| 0 <= k < l ==> (#[trigger] out@[k])@ == want[k],
            forall|k: int, i: int|
                #![trigger out@[k]@[i]]
                0 <= k < l && 0 <= i < out@[k]@.len() ==> in_ext(
                    ints(out@[k]@[i]),
                    grid.cells_at(k),
                ),
        decreases capacity - l,
    {
        let mut flags: Vec<[i64; D]> = Vec::new();
        let ghost before = out@;
        if l < levels {
            tagger.tag_level(grid, state, l as u8, &mut flags);
            proof {
                assert(flags@ =~= want[l as int]);
            }
        } else {
            proof {
                assert(flags@ =~= want[l as int]);
            }
        }
        out.push(flags);
        proof {
            assert forall|k: int, i: int|
                #![trigger out@[k]@[i]]
                0 <= k < l + 1 && 0 <= i < out@[k]@.len() implies in_ext(
                ints(out@[k]@[i]),
                grid.cells_at(k),
            ) by {
                if k < l {
                    assert(out@[k] == before[k]);
                } else {
                    assert(out@[k]@[i] == want[l as int][i]);
                }
            }
        }
        l += 1;
    }
    out
}

/// Plan the refined levels, finest first, so nesting flags from each new fine
/// level land in the flags of the level being planned below it.
pub fn plan_hierarchy<R: Real, const D: usize>(
    grid: &AmrGrid<R, D>,
    tags: &Vec<Vec<[i64; D]>>,
    policy: &RegridPolicy<R>,
) -> (plan: Vec<Vec<CellBox<D>>>)
    requires
        grid.sound(),
        plannable(grid, *policy),
        tags@.len() == grid.ratio_list().len(),
        forall|l: int, i: int|
            #![trigger tags@[l]@[i]]
            0 <= l < tags@.len() && 0 <= i < tags@[l]@.len() ==> in_ext(
                ints(tags@[l]@[i]),
                grid.cells_at(l),
            ),
    ensures
        level_views(plan@) == hierarchy_plan(
            grid.base_grid().domain(),
            grid.ratio_list(),
            Seq::new(tags@.len(), |l: int| tags@[l]@),
            dilation(policy.buffer),
            policy.cluster,
        ),
{
    let ghost cells = grid.base_grid().domain();
    let ghost ratios = grid.ratio_list();
    let ghost ts = Seq::new(tags@.len(), |l: int| tags@[l]@);
    let ghost b = dilation(policy.buffer);
    let ghost full = Seq::new(
        ratios.len(),
        |l: int| level_plan(cells, ratios, ts, b, policy.cluster, l + 1),
    );
    let capacity = grid.ratios().len();
    let mut plan: Vec<Vec<CellBox<D>>> = Vec::new();
    while plan.len() < capacity
        invariant
            plan@.len() <= capacity,
        decreases capacity - plan.len(),
    {
        plan.push(Vec::new());
    }
    proof {
        lemma_domain_positive(&grid.base_grid());
    }
    let mut target: usize = capacity;
    while target > 0
        invariant
            target <= capacity,
            capacity == ratios.len(),
            capacity <= 255,
            plan@.len() == capacity,
            grid.sound(),
            plannable(grid, *policy),
            cells == grid.base_grid().domain(),
            cells.len() == D,
            positive(cells),
            ratios == grid.ratio_list(),
            tags@.len() == ratios.len(),
            ts == Seq::new(tags@.len(), |l: int| tags@[l]@),
            b == dilation(policy.buffer),
            forall|l: int, i: int|
                #![trigger tags@[l]@[i]]
                0 <= l < tags@.len() && 0 <= i < tags@[l]@.len() ==> in_ext(
                    ints(tags@[l]@[i]),
                    grid.cells_at(l),
                ),
            full == Seq::new(
                ratios.len(),
                |l: int| level_plan(cells, ratios, ts, b, policy.cluster, l + 1),
            ),
            forall|l: int| target <= l < capacity ==> (#[trigger] plan@[l])@ == full[l],
        decreases target,
    {
        let src: usize = target - 1;
        let ghost before = plan@;
        proof {
            lemma_level_ready(cells, ratios, src as nat);
        }
        let rs: i64 = grid.ratios()[src] as i64;
        let extent = level_extent(grid, src);
        proof {
            lemma_tags_fit(grid, *policy, tags@, src as int);
            assert(ts[src as int] == tags@[src as int]@);
            assert forall|d: int| 0 <= d < D implies (#[trigger] usizes(extent)[d]) * rs
                < i64::MAX by {
                assert(level_cells(cells, ratios, src as nat)[d] * ratios[src as int] < i64::MAX);
            }
        }
        let boxes = if target < capacity {
            let rf: i64 = grid.ratios()[target] as i64;
            let finer = &plan[target];
            proof {
                assert(plan@[target as int]@ == full[target as int]);
                assert(finer@ == full[target as int]);
                assert(ratios[target as int] >= 2);
                assert forall|k: int, d: int|
                    #![trigger finer@[k].lo[d]]
                    0 <= k < finer@.len() && 0 <= d < D implies 0 <= finer@[k].lo[d] && 0
                    <= finer@[k].hi[d] && finer@[k].hi[d] + 0x1_0000_0000 <= i64::MAX by {
                    lemma_level_plan_box(cells, ratios, ts, b, policy.cluster, target + 1, k);
                    let bx = level_plan(cells, ratios, ts, b, policy.cluster, target + 1)[k];
                    assert(bx == finer@[k]);
                    assert(0 <= bx.lo[d]);
                }
            }
            plan_level(
                tags[src].as_slice(),
                policy.buffer,
                finer,
                rf,
                rs,
                &extent,
                &policy.cluster,
            )
        } else {
            let none: Vec<CellBox<D>> = Vec::new();
            proof {
                assert(none@ =~= Seq::<CellBox<D>>::empty());
            }
            plan_level(
                tags[src].as_slice(),
                policy.buffer,
                &none,
                1,
                rs,
                &extent,
                &policy.cluster,
            )
        };
        proof {
            assert(boxes@ == full[src as int]);
        }
        plan[src] = boxes;
        target = src;
    }
    let ghost whole = plan@;
    proof {
        assert(level_views(plan@) =~= full);
    }
    while plan.len() > 0 && plan[plan.len() - 1].len() == 0
        invariant
            plan@.len() <= whole.len(),
            trimmed(level_views(plan@)) == trimmed(full),
        decreases plan.len(),
    {
        let ghost now = plan@;
        plan.pop();
        proof {
            assert(level_views(plan@) =~= level_views(now).drop_last());
            assert(level_views(now).last() == now[now.len() - 1]@);
        }
    }
    plan
}

/// Tags lie in their level's domain, with room for the buffer zone.
proof fn lemma_tags_fit<R: Real, const D: usize>(
    grid: &AmrGrid<R, D>,
    policy: RegridPolicy<R>,
    tags: Seq<Vec<[i64; D]>>,
    l: int,
)
    requires
        plannable(grid, policy),
        0 <= l < grid.ratio_list().len(),
        tags.len() == grid.ratio_list().len(),
        forall|l: int, i: int|
            #![trigger tags[l]@[i]]
            0 <= l < tags.len() && 0 <= i < tags[l]@.len() ==> in_ext(
                ints(tags[l]@[i]),
                grid.cells_at(l),
            ),
    ensures
        forall|i: int, d: int|
            0 <= i < tags[l]@.len() && 0 <= d < D ==> 0 <= #[trigger] tags[l]@[i][d]
                && tags[l]@[i][d] + dilation(policy.buffer) < i64::MAX,
{
    assert forall|i: int, d: int| 0 <= i < tags[l]@.len() && 0 <= d < D implies 0
        <= #[trigger] tags[l]@[i][d] && tags[l]@[i][d] + dilation(policy.buffer) < i64::MAX by {
        assert(in_ext(ints(tags[l]@[i]), grid.cells_at(l)));
        assert(0 <= ints(tags[l]@[i])[d] < grid.cells_at(l)[d]);
        assert(level_cells(grid.base_grid().domain(), grid.ratio_list(), l as nat)[d] + dilation(
            policy.buffer,
        ) <= i64::MAX);
    }
}

/// Cells per dimension of a level's domain.
fn level_extent<R: Real, const D: usize>(grid: &AmrGrid<R, D>, level: usize) -> (e: [usize; D])
    requires
        grid.sound(),
        level <= 254,
        level <= grid.ratio_list().len(),
        forall|d: int|
            0 <= d < D ==> (#[trigger] grid.cells_at(level as int)[d]) <= i64::MAX && grid.cells_at(
                level as int,
            )[d] <= usize::MAX && grid.cells_at(level as int)[d] > 0,
    ensures
        usizes(e) == grid.cells_at(level as int),
{
    let domain = grid.level_domain(level as u8);
    let mut e = [0usize; D];
    let mut d: usize = 0;
    while d < D
        invariant
            d <= D,
            forall|k: int| 0 <= k < D ==> #[trigger] domain.hi[k] == grid.cells_at(level as int)[k],
            forall|k: int|
                0 <= k < D ==> (#[trigger] grid.cells_at(level as int)[k]) <= i64::MAX
                    && grid.cells_at(level as int)[k] <= usize::MAX && grid.cells_at(
                    level as int,
                )[k] > 0,
            forall|k: int| 0 <= k < d ==> #[trigger] e[k] == grid.cells_at(level as int)[k],
        decreases D - d,
    {
        assert(grid.cells_at(level as int)[d as int] <= usize::MAX);
        e[d] = domain.hi[d] as usize;
        d += 1;
    }
    proof {
        assert(usizes(e) =~= grid.cells_at(level as int));
    }
    e
}

/// Total number of cells of a list of boxes.
fn count_cells<const D: usize>(boxes: &Vec<CellBox<D>>) -> (r: u128)
    requires
        forall|k: int| 0 <= k < boxes@.len() ==> (#[trigger] boxes@[k]).spans_fit(),
    ensures
        r == total_cells(boxes@, boxes@.len()),
{
    let mut total: u128 = 0;
    let mut k: usize = 0;
    while k < boxes.len()
        invariant
            k <= boxes@.len(),
            forall|k: int| 0 <= k < boxes@.len() ==> (#[trigger] boxes@[k]).spans_fit(),
            total == total_cells(boxes@, k as nat),
            total <= k * 0xffff_ffff_ffff_ffff,
        decreases boxes.len() - k,
    {
        let n = boxes[k].cells();
        proof {
            let ki = k as int;
            assert(ki * 0xffff_ffff_ffff_ffff + 0xffff_ffff_ffff_ffff <= u128::MAX)
                by (nonlinear_arith)
                requires
                    ki <= 0xffff_ffff_ffff_ffff,
                    u128::MAX == 0xffff_ffff_ffff_ffff_ffff_ffff_ffff_ffff,
            ;
        }
        total = total + n as u128;
        k += 1;
    }
    total
}

/// The boxes of one level.
fn boxes_of<R: Real, const D: usize>(grid: &AmrGrid<R, D>, level: u8) -> (out: Vec<CellBox<D>>)
    requires
        grid.sound(),
        level < grid.levels(),
    ensures
        out@ == grid.level_boxes(level as int),
        forall|k: int| 0 <= k < out@.len() ==> (#[trigger] out@[k]).spans_fit(),
{
    let ghost st = grid.starts();
    let ghost lv = level as int;
    let (start, end) = grid.level_range(level);
    let mut out: Vec<CellBox<D>> = Vec::new();
    let mut b: u32 = start;
    proof {
        assert(st[lv] <= st[lv + 1]);
        assert(st[lv + 1] <= st[st.len() - 1]);
    }
    while b < end
        invariant
            start <= b <= end,
            start == grid.starts()[lv],
            end <= grid.patch_list().len(),
            grid.sound(),
            out@.len() == b - start,
            forall|k: int|
                0 <= k < out@.len() ==> #[trigger] out@[k] == grid.patch_list()[start + k].bx,
            forall|k: int| 0 <= k < out@.len() ==> (#[trigger] out@[k]).spans_fit(),
        decreases end - b,
    {
        proof {
            grid.lemma_patch(b as int);
        }
        out.push(grid.patch(BlockId(b)).bx);
        b += 1;
    }
    proof {
        assert(out@ =~= grid.level_boxes(lv));
    }
    out
}

/// Whether the current level may keep serving the proposed boxes.
fn level_serves<const D: usize>(
    proposed: &Vec<CellBox<D>>,
    current: &Vec<CellBox<D>>,
) -> (r: bool)
    requires
        D > 0,
        forall|k: int| 0 <= k < proposed@.len() ==> (#[trigger] proposed@[k]).spans_fit(),
        forall|k: int| 0 <= k < current@.len() ==> (#[trigger] current@[k]).spans_fit(),
    ensures
        r == level_acceptable(proposed@, current@),
{
    let wanted = count_cells(proposed);
    let have = count_cells(current);
    if have > wanted && have - wanted > wanted / 2 {
        return false;
    }
    let mut k: usize = 0;
    while k < proposed.len()
        invariant
            D > 0,
            k <= proposed@.len(),
            forall|j: int| 0 <= j < k ==> covered(#[trigger] proposed@[j], current@),
        decreases proposed.len() - k,
    {
        if !covered_by(&proposed[k], current.as_slice()) {
            assert(!covered(proposed@[k as int], current@));
            return false;
        }
        k += 1;
    }
    true
}

/// Whether the current hierarchy may keep serving the proposed one: same level
/// count, every proposed box already covered by the current level, and the
/// current level not over-refined beyond 3/2 the proposal. Good clusters do not
/// change very fast: threshold flicker must not force a rebuild (with its
/// migration, reallocation, and stochastic re-keying) every cadence.
fn hierarchy_acceptable<R: Real, const D: usize>(
    grid: &AmrGrid<R, D>,
    plan: &Vec<Vec<CellBox<D>>>,
) -> (r: bool)
    requires
        grid.sound(),
        forall|l: int, i: int|
            #![trigger plan@[l]@[i]]
            0 <= l < plan@.len() && 0 <= i < plan@[l]@.len() ==> plan@[l]@[i].spans_fit(),
    ensures
        r == acceptable(grid, level_views(plan@)),
{
    let ghost views = level_views(plan@);
    let levels = grid.num_levels();
    if plan.len() != levels - 1 {
        return false;
    }
    let mut l: usize = 0;
    while l < plan.len()
        invariant
            l <= plan@.len(),
            plan@.len() == grid.levels() - 1,
            grid.sound(),
            views == level_views(plan@),
            forall|l: int, i: int|
                #![trigger plan@[l]@[i]]
                0 <= l < plan@.len() && 0 <= i < plan@[l]@.len() ==> plan@[l]@[i].spans_fit(),
            forall|k: int|
                0 <= k < l ==> level_acceptable(#[trigger] views[k], grid.level_boxes(k + 1)),
        decreases plan.len() - l,
    {
        let current = boxes_of(grid, (l + 1) as u8);
        let ghost lv = l as int;
        proof {
            assert forall|k: int| 0 <= k < plan@[lv]@.len() implies (
            #[trigger] plan@[lv]@[k]).spans_fit() by {}
            assert(views[lv] == plan@[lv]@);
        }
        if !level_serves(&plan[l], &current) {
            assert(!level_acceptable(views[lv], grid.level_boxes(lv + 1)));
            return false;
        }
        l += 1;
    }
    true
}

/// Whether a ghost-inclusive slab of the box can be addressed.
fn slab_addressable<const D: usize>(bx: &CellBox<D>, w: u32) -> (r: bool)
    requires
        forall|d: int|
            0 <= d < D ==> bx.width(d) == (#[trigger] bx.hi[d]) - bx.lo[d] && bx.lo[d] < bx.hi[d]
                && 0 <= bx.lo[d],
    ensures
        r == slab_fits(bx.widths(), w as int),
{
    let ghost e = ghosted(bx.widths(), w as int);
    proof {
        assert(positive(e)) by {
            assert forall|d: int| 0 <= d < e.len() implies 0 < #[trigger] e[d] by {
                assert(bx.lo[d] < bx.hi[d]);
            }
        }
        assert(e.take(0) =~= Seq::<int>::empty());
    }
    let limit: u128 = isize::MAX as u128;
    let mut total: u128 = 1;
    let mut d: usize = 0;
    while d < D
        invariant
            d <= D,
            e == ghosted(bx.widths(), w as int),
            positive(e),
            limit == isize::MAX,
            forall|d: int|
                0 <= d < D ==> bx.width(d) == (#[trigger] bx.hi[d]) - bx.lo[d] && bx.lo[d]
                    < bx.hi[d] && 0 <= bx.lo[d],
            total == volume(e.take(d as int)),
            1 <= total <= limit,
        decreases D - d,
    {
        assert(bx.lo[d as int] < bx.hi[d as int]);
        let side: u128 = (bx.hi[d] - bx.lo[d]) as u128 + 2 * w as u128;
        proof {
            assert(e[d as int] == side);
            crate::geometry::index::lemma_lin_step(e, e, d as int);
            crate::geometry::index::lemma_volume_prefix(e, d + 1);
            let t = total as int;
            let sd = side as int;
            assert(t * sd <= u128::MAX) by (nonlinear_arith)
                requires
                    0 <= t <= 0x7fff_ffff_ffff_ffff,
                    0 <= sd <= 0xffff_ffff_ffff_ffff,
                    u128::MAX == 0xffff_ffff_ffff_ffff_ffff_ffff_ffff_ffff,
            ;
        }
        total = total * side;
        if total > limit {
            return false;
        }
        d += 1;
    }
    proof {
        assert(e.take(D as int) =~= e);
    }
    true
}

/// Whether the slabs of every field on a box can be addressed.
fn box_addressable<const D: usize>(bx: &CellBox<D>, specs: &[FieldSpec]) -> (r: bool)
    requires
        forall|d: int|
            0 <= d < D ==> bx.width(d) == (#[trigger] bx.hi[d]) - bx.lo[d] && bx.lo[d] < bx.hi[d]
                && 0 <= bx.lo[d],
    ensures
        r == box_usable(*bx, specs@),
{
    if !slab_addressable(bx, 0) {
        return false;
    }
    let mut f: usize = 0;
    while f < specs.len()
        invariant
            f <= specs@.len(),
            forall|d: int|
                0 <= d < D ==> bx.width(d) == (#[trigger] bx.hi[d]) - bx.lo[d] && bx.lo[d]
                    < bx.hi[d] && 0 <= bx.lo[d],
            slab_fits(bx.widths(), 0),
            forall|e: int|
                0 <= e < f ==> slab_fits(bx.widths(), (#[trigger] specs@[e]).halo as int),
        decreases specs.len() - f,
    {
        if !slab_addressable(bx, specs[f].halo) {
            assert(!slab_fits(bx.widths(), specs@[f as int].halo as int));
            return false;
        }
        f += 1;
    }
    true
}

/// Whether block ids can number the plan's patches and their slabs can be
/// addressed.
fn plan_usable<R: Real, const D: usize>(
    grid: &AmrGrid<R, D>,
    specs: &[FieldSpec],
    plan: &Vec<Vec<CellBox<D>>>,
) -> (r: bool)
    requires
        grid.sound(),
        plan@.len() <= 255,
        forall|l: int, i: int, d: int|
            #![trigger plan@[l]@[i].lo[d]]
            0 <= l < plan@.len() && 0 <= i < plan@[l]@.len() && 0 <= d < D ==> 0
                <= plan@[l]@[i].lo[d] < plan@[l]@[i].hi[d],
    ensures
        r == usable(grid, specs@, level_views(plan@)),
{
    let ghost views = level_views(plan@);
    let mut total: u128 = grid.base().num_blocks() as u128;
    let mut l: usize = 0;
    while l < plan.len()
        invariant
            l <= plan@.len(),
            plan@.len() <= 255,
            views == level_views(plan@),
            total == grid.base_grid().blocks() + boxes_below(views, l as int),
            total <= (l + 1) * 0xffff_ffff_ffff_ffff,
            forall|l: int, i: int, d: int|
                #![trigger plan@[l]@[i].lo[d]]
                0 <= l < plan@.len() && 0 <= i < plan@[l]@.len() && 0 <= d < D ==> 0
                    <= plan@[l]@[i].lo[d] < plan@[l]@[i].hi[d],
            forall|k: int, i: int|
                #![trigger views[k][i]]
                0 <= k < l && 0 <= i < views[k].len() ==> box_usable(views[k][i], specs@),
        decreases plan.len() - l,
    {
        let ghost lv = l as int;
        proof {
            assert(views[lv] == plan@[lv]@);
        }
        total = total + plan[l].len() as u128;
        let mut i: usize = 0;
        while i < plan[l].len()
            invariant
                l < plan@.len(),
                lv == l,
                i <= plan@[lv]@.len(),
                views == level_views(plan@),
                views[lv] == plan@[lv]@,
                forall|l: int, i: int, d: int|
                    #![trigger plan@[l]@[i].lo[d]]
                    0 <= l < plan@.len() && 0 <= i < plan@[l]@.len() && 0 <= d < D ==> 0
                        <= plan@[l]@[i].lo[d] < plan@[l]@[i].hi[d],
                forall|k: int|
                    0 <= k < i ==> box_usable(#[trigger] views[lv][k], specs@),
            decreases plan@[lv]@.len() - i,
        {
            let bx = plan[l][i];
            proof {
                assert(bx == plan@[lv]@[i as int]);
                assert forall|d: int| 0 <= d < D implies bx.width(d) == (#[trigger] bx.hi[d])
                    - bx.lo[d] && bx.lo[d] < bx.hi[d] && 0 <= bx.lo[d] by {
                    assert(0 <= plan@[lv]@[i as int].lo[d] < plan@[lv]@[i as int].hi[d]);
                }
            }
            if !box_addressable(&bx, specs) {
                proof {
                    assert(!box_usable(views[lv][i as int], specs@));
                }
                return false;
            }
            i += 1;
        }
        l += 1;
    }
    total < u32::MAX as u128
}

/// The grid assembled from a usable plan carries the layout.
proof fn lemma_new_grid_fits<R: Real, const D: usize>(
    grid: &AmrGrid<R, D>,
    fields: Seq<FieldSpec>,
    plan: Seq<Seq<CellBox<D>>>,
    next: &AmrGrid<R, D>,
)
    requires
        kin(grid, next),
        layout_fits::<R, AmrGrid<R, D>, D>(fields, grid),
        interiors_fit::<R, AmrGrid<R, D>, D>(grid),
        usable(grid, fields, plan),
        next.levels() == plan.len() + 1,
        forall|l: int| 0 <= l < plan.len() ==> #[trigger] next.level_boxes(l + 1) == plan[l],
    ensures
        layout_fits::<R, AmrGrid<R, D>, D>(fields, next),
        interiors_fit::<R, AmrGrid<R, D>, D>(next),
{
    assert forall|b: int| 0 <= b < next.blocks() implies slab_fits(#[trigger] next.extent_of(b), 0)
        && forall|f: int|
        0 <= f < fields.len() ==> slab_fits(
            next.extent_of(b),
            (#[trigger] fields[f]).halo as int,
        ) by {
        let level = next.level_of(b);
        next.lemma_position(b);
        if level == 0 {
            crate::geometry::amr::migrate::lemma_base_tiles(grid, next, b);
            assert(slab_fits(grid.extent_of(b), 0));
            assert forall|f: int| 0 <= f < fields.len() implies slab_fits(
                next.extent_of(b),
                (#[trigger] fields[f]).halo as int,
            ) by {
                assert(slab_fits(grid.extent_of(b), fields[f].halo as int));
            }
        } else {
            let l = level - 1;
            let k = b - next.starts()[level];
            assert(next.level_boxes(l + 1) == plan[l]);
            assert(next.level_boxes(level)[k] == next.patch_list()[b].bx);
            assert(box_usable(plan[l][k], fields));
        }
    }
}

/// A migrated solution is fully allocated.
proof fn lemma_migrated_allocated<R: Real, T: Real, const D: usize>(
    grid: &AmrGrid<R, D>,
    fields: Seq<FieldSpec>,
    values: Seq<BlockValues<T>>,
    next: &AmrGrid<R, D>,
)
    requires
        kin(grid, next),
        allocated_on::<T, R, AmrGrid<R, D>, D>(fields, grid, values),
        layout_fits::<R, AmrGrid<R, D>, D>(fields, next),
        interiors_fit::<R, AmrGrid<R, D>, D>(next),
    ensures
        allocated_on::<T, R, AmrGrid<R, D>, D>(fields, next, migrated(grid, fields, values, next)),
{
    let w = migrated(grid, fields, values, next);
    assert forall|b: int| 0 <= b < w.len() implies full_block(
        fields,
        next.extent_of(b),
        #[trigger] w[b],
    ) by {
        next.lemma_patch(b);
        assert forall|f: int| 0 <= f < fields.len() implies (#[trigger] w[b].fields[f]).len()
            == volume(ghosted(next.extent_of(b), fields[f].halo as int)) by {
            let g = fields[f].halo as int;
            if next.level_of(b) == 0 {
                crate::geometry::amr::migrate::lemma_base_tiles(grid, next, b);
                assert(full_block(fields, grid.extent_of(b), values[b]));
                assert(field_slabs(values, f)[b] == values[b].fields[f]);
            } else {
                let e = ghosted(next.extent_of(b), g);
                assert(positive(e)) by {
                    assert forall|d: int| 0 <= d < e.len() implies 0 < #[trigger] e[d] by {
                        assert(next.extent_of(b)[d] > 0);
                    }
                }
                crate::geometry::index::lemma_volume_positive(e);
            }
        }
    }
}

impl<T: Real, S: StorageBackend<T>, A: Allocator<T, Storage = S>, Tag: TagCells<T, D>, const D:
    usize> Adapt<AmrGrid<T, D>, T, S, A, D> for BergerOliger<Tag, T> {
    open spec fn admits(&self, grid: &AmrGrid<T, D>, fields: Seq<FieldSpec>) -> bool {
        self.criterion().suits(grid.base_grid(), grid.ratio_list(), fields) && plannable(
            grid,
            self.knobs(),
        )
    }

    open spec fn leads_to(from: AmrGrid<T, D>, to: AmrGrid<T, D>) -> bool {
        kin(&from, &to)
    }

    open spec fn outcome(
        self,
        after: Self,
        grid: &AmrGrid<T, D>,
        fields: Seq<FieldSpec>,
        before: Seq<BlockValues<T>>,
        step: u64,
        result: Option<(AmrGrid<T, D>, Seq<BlockValues<T>>)>,
        left: Seq<BlockValues<T>>,
    ) -> bool {
        if !regrid_due(step, self.knobs().every) {
            after == self && result is None && left == before
        } else {
            let plan = hierarchy_plan(
                grid.base_grid().domain(),
                grid.ratio_list(),
                all_tags(&self.criterion(), grid, fields, left),
                dilation(self.knobs().buffer),
                self.knobs().cluster,
            );
            &&& after == self
            &&& left == self.criterion().prepared(grid, fields, before)
            &&& result is None <==> acceptable(grid, plan) || !usable(grid, fields, plan)
            &&& result matches Some((next, values)) ==> {
                &&& next.sound()
                &&& next.base_grid() == grid.base_grid()
                &&& next.ratio_list() == grid.ratio_list()
                &&& next.levels() == plan.len() + 1
                &&& forall|l: int| 0 <= l < plan.len() ==> #[trigger] next.level_boxes(l + 1) == plan[l]
                &&& values == migrated(grid, fields, left, &next)
            }
        }
    }

    fn regrid(
        &mut self,
        grid: &AmrGrid<T, D>,
        state: &mut State<T, S>,
        alloc: &A,
        step: u64,
    ) -> (r: Option<(AmrGrid<T, D>, State<T, S>)>) {
        if !step.is_multiple_of(self.policy.every) {
            return None;
        }
        let ghost fields = state.fields();
        self.tagger.prepare(grid, state);
        let ghost left = state.values();
        let tags = collect_tags(&self.tagger, grid, &*state);
        let plan = plan_hierarchy(grid, &tags, &self.policy);
        let ghost views = level_views(plan@);
        let ghost cells = grid.base_grid().domain();
        let ghost ratios = grid.ratio_list();
        let ghost b = dilation(self.policy.buffer);
        let ghost ts = all_tags(&self.tagger, grid, fields, left);
        proof {
            assert(Seq::new(tags@.len(), |l: int| tags@[l]@) =~= ts);
            assert(views == hierarchy_plan(cells, ratios, ts, b, self.policy.cluster));
            lemma_domain_positive(&grid.base_grid());
            planned_hierarchies_are_valid(cells, ratios, ts, b, self.policy.cluster);
            assert forall|l: int, i: int|
                #![trigger plan@[l]@[i]]
                0 <= l < plan@.len() && 0 <= i < plan@[l]@.len() implies plan@[l]@[i].spans_fit() by {
                assert(views[l] == plan@[l]@);
                assert(views[l][i].spans_fit());
            }
            lemma_plan_corners(cells, ratios, ts, b, self.policy.cluster, plan@);
        }
        if hierarchy_acceptable(grid, &plan) {
            return None;
        }
        if !plan_usable(grid, state.layout().specs(), &plan) {
            return None;
        }
        let assembled = AmrGrid::from_patches(
            grid.base().clone(),
            grid.ratios(),
            plan.as_slice(),
        );
        match assembled {
            Ok(next) => {
                proof {
                    lemma_trimmed(
                        Seq::new(
                            ratios.len(),
                            |l: int| level_plan(cells, ratios, ts, b, self.policy.cluster, l + 1),
                        ),
                    );
                    assert(trimmed(views) == views);
                    assert(kin(grid, &next));
                    lemma_new_grid_fits(grid, fields, views, &next);
                    lemma_migrated_allocated(grid, fields, left, &next);
                }
                let mut new_state = state.reshaped(&next, alloc);
                migrate(grid, &*state, &next, &mut new_state);
                Some((next, new_state))
            },
            Err(_) => None,
        }
    }
}

/// Planned boxes have at least one cell and non-negative corners.
proof fn lemma_plan_corners<R: Real, const D: usize>(
    cells: Seq<int>,
    ratios: Seq<u32>,
    tags: Seq<Seq<[i64; D]>>,
    b: int,
    params: ClusterParams<R>,
    plan: Seq<Vec<CellBox<D>>>,
)
    requires
        D > 0,
        cells.len() == D,
        positive(cells),
        ratios_ok(ratios, ratios.len()),
        levels_fit(cells, ratios, ratios.len()),
        params.min_width >= 1,
        level_views(plan) == hierarchy_plan(cells, ratios, tags, b, params),
    ensures
        forall|l: int, i: int, d: int|
            #![trigger plan[l]@[i].lo[d]]
            0 <= l < plan.len() && 0 <= i < plan[l]@.len() && 0 <= d < D ==> 0 <= plan[l]@[i].lo[d]
                < plan[l]@[i].hi[d],
{
    let full = Seq::new(ratios.len(), |l: int| level_plan(cells, ratios, tags, b, params, l + 1));
    lemma_trimmed(full);
    assert forall|l: int, i: int, d: int|
        #![trigger plan[l]@[i].lo[d]]
        0 <= l < plan.len() && 0 <= i < plan[l]@.len() && 0 <= d < D implies 0 <= plan[l]@[i].lo[d]
        < plan[l]@[i].hi[d] by {
        assert(level_views(plan)[l] == plan[l]@);
        assert(plan[l]@ == full[l]);
        lemma_level_plan_box(cells, ratios, tags, b, params, l + 1, i);
        let bx = level_plan(cells, ratios, tags, b, params, l + 1)[i];
        assert(bx == plan[l]@[i]);
        assert(bx.lo[d] < bx.hi[d]);
        assert(0 <= bx.lo[d]);
    }
}

/// After a regrid, every fine cell in the buffer zone of a tag is refined: by the new
/// hierarchy, or by the current one where the policy keeps it. Only a plan whose slabs
/// could not be addressed is left aside.
pub proof fn regrids_refine_the_buffered_tags<
    T: Real,
    S: StorageBackend<T>,
    A: Allocator<T, Storage = S>,
    Tag: TagCells<T, D>,
    const D: usize,
>(
    policy: BergerOliger<Tag, T>,
    after: BergerOliger<Tag, T>,
    grid: &AmrGrid<T, D>,
    fields: Seq<FieldSpec>,
    before: Seq<BlockValues<T>>,
    step: u64,
    result: Option<(AmrGrid<T, D>, Seq<BlockValues<T>>)>,
    left: Seq<BlockValues<T>>,
    l: int,
    q: [i64; D],
    c: [i64; D],
)
    requires
        grid.sound(),
        plannable(grid, policy.knobs()),
        regrid_due(step, policy.knobs().every),
        <BergerOliger<Tag, T> as Adapt<AmrGrid<T, D>, T, S, A, D>>::outcome(
            policy,
            after,
            grid,
            fields,
            before,
            step,
            result,
            left,
        ),
        0 <= l < grid.ratio_list().len(),
        in_ext(ints(q), grid.cells_at(l)),
        buffered(
            all_tags(&policy.criterion(), grid, fields, left)[l],
            dilation(policy.knobs().buffer),
            q,
        ),
        forall|d: int|
            0 <= d < D ==> q[d] * grid.ratio_list()[l] <= #[trigger] c[d] < q[d]
                * grid.ratio_list()[l] + grid.ratio_list()[l],
    ensures
        ({
            let plan = hierarchy_plan(
                grid.base_grid().domain(),
                grid.ratio_list(),
                all_tags(&policy.criterion(), grid, fields, left),
                dilation(policy.knobs().buffer),
                policy.knobs().cluster,
            );
            match result {
                Some((next, _)) => l + 1 < next.levels() && some_box_has(
                    next.level_boxes(l + 1),
                    c,
                ),
                None => !usable(grid, fields, plan) || l + 1 < grid.levels() && some_box_has(
                    grid.level_boxes(l + 1),
                    c,
                ),
            }
        }),
{
    let tags = all_tags(&policy.criterion(), grid, fields, left);
    let b = dilation(policy.knobs().buffer);
    let cells = grid.base_grid().domain();
    let ratios = grid.ratio_list();
    let plan = hierarchy_plan(cells, ratios, tags, b, policy.knobs().cluster);
    lemma_domain_positive(&grid.base_grid());
    plans_cover_the_buffered_tags(cells, ratios, tags, b, policy.knobs().cluster, l, q, c);
    match result {
        Some((next, _)) => {
            assert(next.level_boxes(l + 1) == plan[l]);
        },
        None => {
            if usable(grid, fields, plan) {
                assert(level_acceptable(plan[l], grid.level_boxes(l + 1)));
                let k = choose|k: int| 0 <= k < plan[l].len() && #[trigger] plan[l][k].has(c);
                assert(covered(plan[l][k], grid.level_boxes(l + 1)));
            }
        },
    }
}

/// Two adaptive simulations of the same dynamics, on the same hierarchy and from the
/// same state, agree bit for bit after a step, a regrid included, whatever schedulers
/// run them: the same decision, the same hierarchy, the same state on it.
pub proof fn adaptive_steps_do_not_depend_on_the_scheduler<
    T: Real,
    P: Sync,
    M: Model<T, AmrGrid<T, D>, P, D>,
    I: Integrator<T, AmrGrid<T, D>, P, M, D>,
    Sch1: Scheduler,
    Sch2: Scheduler,
    A1: Allocator<T>,
    A2: Allocator<T>,
    Tag: TagCells<T, D>,
    const D: usize,
>(
    a: &Simulation<T, AmrGrid<T, D>, P, M, I, Sch1, A1, BergerOliger<Tag, T>, D>,
    a_after: &Simulation<T, AmrGrid<T, D>, P, M, I, Sch1, A1, BergerOliger<Tag, T>, D>,
    b: &Simulation<T, AmrGrid<T, D>, P, M, I, Sch2, A2, BergerOliger<Tag, T>, D>,
    b_after: &Simulation<T, AmrGrid<T, D>, P, M, I, Sch2, A2, BergerOliger<Tag, T>, D>,
    dt: T,
    a_regrid: Option<(AmrGrid<T, D>, Seq<BlockValues<T>>)>,
    b_regrid: Option<(AmrGrid<T, D>, Seq<BlockValues<T>>)>,
    a_left: Seq<BlockValues<T>>,
    b_left: Seq<BlockValues<T>>,
)
    requires
        a.mesh() == b.mesh(),
        a.policy() == b.policy(),
        a.dynamics() == b.dynamics(),
        a.scheme() == b.scheme(),
        a.adaptivity() == b.adaptivity(),
        a.fields() == b.fields(),
        a.values() == b.values(),
        a.buffers() == b.buffers(),
        a.now() == b.now(),
        a.steps() == b.steps(),
        a.generation() == b.generation(),
        a.steps_to(a_after, dt, a_regrid, a_left),
        b.steps_to(b_after, dt, b_regrid, b_left),
    ensures
        a_after.mesh() == b_after.mesh(),
        a_after.mesh().levels() == b_after.mesh().levels(),
        forall|l: int|
            0 <= l < a_after.mesh().levels() ==> #[trigger] a_after.mesh().level_boxes(l)
                == b_after.mesh().level_boxes(l),
        a_after.adaptivity() == b_after.adaptivity(),
        a_after.fields() == b_after.fields(),
        a_after.values() == b_after.values(),
        a_after.buffers() == b_after.buffers(),
        a_after.now() == b_after.now(),
        a_after.steps() == b_after.steps(),
        a_after.generation() == b_after.generation(),
{
    assert(a_left == b_left);
    assert(a_regrid is None <==> b_regrid is None);
    if let Some((x, xv)) = a_regrid {
        if let Some((y, yv)) = b_regrid {
            assert forall|l: int| 0 < l < x.levels() implies #[trigger] x.level_boxes(l)
                == y.level_boxes(l) by {
                assert(x.level_boxes((l - 1) + 1) == y.level_boxes((l - 1) + 1));
            }
            hierarchies_are_their_boxes(&x, &y);
        }
    }
}

/// Regrids keep a steady beat: from one the next comes just `every` steps later, with
/// none between.
pub proof fn regrids_keep_a_beat(step: u64, every: u64)
    requires
        every > 0,
    ensures
        regrid_due(0, every),
        regrid_due(step, every) && step + every <= u64::MAX ==> regrid_due(
            (step + every) as u64,
            every,
        ),
        regrid_due(step, every) ==> forall|r: u64|
            step < r < step + every ==> !#[trigger] regrid_due(r, every),
{
    let (s, e) = (step as int, every as int);
    vstd::arithmetic::div_mod::lemma_fundamental_div_mod(s, e);
    vstd::arithmetic::div_mod::lemma_mod_bound(s, e);
    let q = s / e;
    if regrid_due(step, every) {
        if step + every <= u64::MAX {
            assert(e * (q + 1) == e * q + e) by (nonlinear_arith);
            vstd::arithmetic::div_mod::lemma_fundamental_div_mod_converse(s + e, e, q + 1, 0);
        }
        assert forall|r: u64| step < r < step + every implies !#[trigger] regrid_due(r, every) by {
            vstd::arithmetic::div_mod::lemma_fundamental_div_mod_converse(
                r as int,
                e,
                q,
                r - s,
            );
        }
    }
}

/// A hierarchy is kept if and only if it has as many refined levels as proposed, each
/// holds every cell proposed for it, and none has more than half again as many cells as
/// proposed.
pub proof fn kept_hierarchies_cover_the_proposal<R: Real, const D: usize>(
    grid: &AmrGrid<R, D>,
    plan: Seq<Seq<CellBox<D>>>,
)
    ensures
        acceptable(grid, plan) <==> {
            &&& plan.len() + 1 == grid.levels()
            &&& forall|l: int, k: int, c: [i64; D]|
                0 <= l < plan.len() && 0 <= k < plan[l].len() && (#[trigger] plan[l][k].has(c))
                    ==> some_box_has(grid.level_boxes(l + 1), c)
            &&& forall|l: int|
                0 <= l < plan.len() ==> 2 * total_cells(
                    grid.level_boxes(l + 1),
                    grid.level_boxes(l + 1).len(),
                ) <= 3 * total_cells(#[trigger] plan[l], plan[l].len())
        },
{
    assert forall|l: int| 0 <= l < plan.len() implies level_acceptable(
        #[trigger] plan[l],
        grid.level_boxes(l + 1),
    ) == {
        &&& forall|k: int, c: [i64; D]|
            0 <= k < plan[l].len() && (#[trigger] plan[l][k].has(c)) ==> some_box_has(
                grid.level_boxes(l + 1),
                c,
            )
        &&& 2 * total_cells(grid.level_boxes(l + 1), grid.level_boxes(l + 1).len()) <= 3
            * total_cells(plan[l], plan[l].len())
    } by {
        let current = grid.level_boxes(l + 1);
        let p = total_cells(plan[l], plan[l].len());
        assert(total_cells(current, current.len()) <= p + p / 2 <==> 2 * total_cells(
            current,
            current.len(),
        ) <= 3 * p);
        if forall|k: int, c: [i64; D]|
            0 <= k < plan[l].len() && (#[trigger] plan[l][k].has(c)) ==> some_box_has(current, c) {
            assert forall|k: int| 0 <= k < plan[l].len() implies covered(
                #[trigger] plan[l][k],
                current,
            ) by {
                assert forall|c: [i64; D]| #[trigger] plan[l][k].has(c) implies some_box_has(
                    current,
                    c,
                ) by {}
            }
        }
        if forall|k: int| 0 <= k < plan[l].len() ==> covered(#[trigger] plan[l][k], current) {
            assert forall|k: int, c: [i64; D]|
                0 <= k < plan[l].len() && (#[trigger] plan[l][k].has(c)) implies some_box_has(
                current,
                c,
            ) by {
                assert(covered(plan[l][k], current));
            }
        }
    }
    if acceptable(grid, plan) {
        assert forall|l: int, k: int, c: [i64; D]|
            0 <= l < plan.len() && 0 <= k < plan[l].len() && (#[trigger] plan[l][k].has(
                c,
            )) implies some_box_has(grid.level_boxes(l + 1), c) by {
            assert(level_acceptable(plan[l], grid.level_boxes(l + 1)));
        }
    }
}

/// A list of boxes has as many cells as its boxes together: none without a box, and with
/// each further box as many more as the product of its widths.
pub proof fn boxes_add_their_cells<const D: usize>(boxes: Seq<CellBox<D>>, bx: CellBox<D>)
    requires
        volume(bx.widths()) <= u64::MAX,
    ensures
        total_cells(Seq::<CellBox<D>>::empty(), 0) == 0,
        total_cells(boxes.push(bx), boxes.len() + 1) == total_cells(boxes, boxes.len()) + volume(
            bx.widths(),
        ),
{
    lemma_total_of_prefix(boxes, bx, boxes.len());
}

proof fn lemma_total_of_prefix<const D: usize>(boxes: Seq<CellBox<D>>, bx: CellBox<D>, n: nat)
    requires
        n <= boxes.len(),
    ensures
        total_cells(boxes.push(bx), n) == total_cells(boxes, n),
    decreases n,
{
    if n > 0 {
        lemma_total_of_prefix(boxes, bx, (n - 1) as nat);
        assert(boxes.push(bx)[n - 1] == boxes[n - 1]);
    }
}

} // verus!
