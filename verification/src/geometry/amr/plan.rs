//! From tags to boxes: buffer dilation, nesting flags, clustering.
//!
//! A level is planned from the tags of the level below it and from the boxes
//! already planned one level up: tags are dilated by the buffer zone (what lets
//! a moving feature stay inside its patch between regrids), the parents of the
//! finer boxes and their one-cell margin are flagged too (so each level properly
//! contains the one above), and the flags are clustered and refined.
use vstd::multiset::Multiset;
use vstd::prelude::*;

use crate::engine::storage::Real;
use crate::geometry::amr::cluster::{
    cells_fit, cluster, clusters, clusters_partition_the_flags, inside, touches, CellBox,
    ClusterParams,
};
use crate::geometry::amr::grid::{
    aligned, box_error, in_margin, lemma_level_cells_positive, lemma_trimmed, level_cells,
    levels_fit, nested, no_fault, ratios_ok, scale, trimmed, within,
};
use crate::geometry::amr::intergrid::{cell_of, lemma_cell_of};
use crate::geometry::amr::walk::{
    div_floor, domain_offset, lemma_cell_ext, lemma_pushed, nonempty, push_cells, some_box_has,
};
use crate::geometry::index::{
    array_of, delin, in_ext, ints, lemma_array_of, lemma_lin_bounds, lemma_lin_injective,
    lemma_lin_step, lemma_volume_positive, lemma_volume_prefix, lin, positive, usizes, volume,
};

verus! {

/// Cell `c` lies within `b` cells of tag `t` along every axis.
pub open spec fn reaches<const D: usize>(t: [i64; D], b: int, c: [i64; D]) -> bool {
    forall|d: int| 0 <= d < D ==> t[d] - b <= #[trigger] c[d] <= t[d] + b
}

/// Cell `c` of the source level is a parent of the margin around the box `bx`
/// two levels up: `rf` refines the planned level to the box's, `rs` the source
/// level to the planned one.
pub open spec fn is_parent<const D: usize>(bx: CellBox<D>, rf: int, rs: int, c: [i64; D]) -> bool {
    forall|d: int|
        0 <= d < D ==> (bx.lo[d] as int / rf - 1) / rs <= #[trigger] c[d] < (bx.hi[d] as int / rf + 1
            + rs - 1) / rs
}

/// Some tag's buffer zone holds the cell.
pub open spec fn buffered<const D: usize>(tags: Seq<[i64; D]>, b: int, c: [i64; D]) -> bool {
    exists|i: int| 0 <= i < tags.len() && reaches(#[trigger] tags[i], b, c)
}

/// The cell is needed to nest some finer box.
pub open spec fn needed<const D: usize>(
    finer: Seq<CellBox<D>>,
    rf: int,
    rs: int,
    c: [i64; D],
) -> bool {
    exists|k: int| 0 <= k < finer.len() && is_parent(#[trigger] finer[k], rf, rs, c)
}

/// The flags of the source level: buffered tags and nesting flags, clipped to
/// the domain.
pub open spec fn flag_set<const D: usize>(
    tags: Seq<[i64; D]>,
    b: int,
    finer: Seq<CellBox<D>>,
    rf: int,
    rs: int,
    cells: Seq<int>,
) -> Set<[i64; D]> {
    Set::new(
        |c: [i64; D]| in_ext(ints(c), cells) && (buffered(tags, b, c) || needed(finer, rf, rs, c)),
    )
}

/// A box in the coordinates of the next finer level.
pub open spec fn refined_box<const D: usize>(bx: CellBox<D>, r: int) -> CellBox<D> {
    CellBox {
        lo: array_of::<D>(Seq::new(D as nat, |d: int| (bx.lo[d] * r) as i64)),
        hi: array_of::<D>(Seq::new(D as nat, |d: int| (bx.hi[d] * r) as i64)),
    }
}

/// The boxes planned for a level: the clusters of the source level's flags,
/// refined.
pub open spec fn planned_boxes<R: Real, const D: usize>(
    tags: Seq<[i64; D]>,
    b: int,
    finer: Seq<CellBox<D>>,
    rf: int,
    rs: int,
    cells: Seq<int>,
    params: ClusterParams<R>,
) -> Seq<CellBox<D>> {
    let boxes = clusters(Multiset::from_set(flag_set(tags, b, finer, rf, rs, cells)), params);
    Seq::new(boxes.len(), |k: int| refined_box(boxes[k], rs))
}

/// A set of cells of a finite domain, as a multiset.
pub proof fn lemma_once<const D: usize>(s: Set<[i64; D]>, cells: Seq<int>)
    requires
        cells.len() == D,
        positive(cells),
        forall|d: int| 0 <= d < D ==> (#[trigger] cells[d]) < i64::MAX,
        forall|d: int| 0 <= d < D ==> (#[trigger] cells[d]) <= usize::MAX,
        forall|c: [i64; D]| #[trigger] s.contains(c) ==> in_ext(ints(c), cells),
    ensures
        s.finite(),
        forall|c: [i64; D]| #[trigger]
            Multiset::from_set(s).count(c) == (if s.contains(c) {
                1nat
            } else {
                0nat
            }),
        cells_fit(Multiset::from_set(s)),
{
    broadcast use vstd::multiset::group_multiset_axioms;
    broadcast use vstd::set::group_set_axioms;

    let all = Seq::new(volume(cells) as nat, |k: int| cell_of::<D>(delin(k, cells)));
    vstd::seq_lib::seq_to_set_is_finite(all);
    assert(s.subset_of(all.to_set())) by {
        assert forall|c: [i64; D]| s.contains(c) implies all.to_set().contains(c) by {
            let k = lin(ints(c), cells);
            lemma_lin_bounds(ints(c), cells);
            crate::geometry::index::lemma_delin_lin(ints(c), cells);
            lemma_cell_of::<D>(ints(c));
            lemma_cell_ext(cell_of::<D>(ints(c)), c);
            assert(all[k] == c);
            assert(all.contains(c));
        }
    }
    vstd::set_lib::lemma_len_subset(s, all.to_set());
    let m = Map::new(|k: [i64; D]| s.contains(k), |v: [i64; D]| 1nat);
    assert(m.dom() =~= s);
    let ms = Multiset::from_set(s);
    assert forall|c: [i64; D]| #[trigger] ms.count(c) == (if s.contains(c) {
        1nat
    } else {
        0nat
    }) by {
        assert(ms == Multiset::from_map(Map::new(|k: [i64; D]| s.contains(k), |v: [i64; D]| 1)));
    }
    assert forall|c: [i64; D], d: int|
        #![trigger ms.contains(c), c[d]]
        ms.contains(c) && 0 <= d < D implies c[d] < i64::MAX by {
        assert(s.contains(c));
        assert(0 <= ints(c)[d] < cells[d]);
    }
    assert forall|a: [i64; D], b: [i64; D], d: int|
        #![trigger ms.contains(a), ms.contains(b), a[d]]
        ms.contains(a) && ms.contains(b) && 0 <= d < D implies a[d] - b[d] < i64::MAX && a[d] - b[d]
        < usize::MAX by {
        assert(s.contains(a) && s.contains(b));
        assert(0 <= ints(a)[d] < cells[d]);
        assert(0 <= ints(b)[d] < cells[d]);
    }
}

/// The buffer zone around a tag.
fn ball<const D: usize>(c: &[i64; D], b: i64) -> (r: CellBox<D>)
    requires
        b >= 0,
        forall|d: int| 0 <= d < D ==> 0 <= #[trigger] c[d] && c[d] + b < i64::MAX,
    ensures
        forall|x: [i64; D]| #[trigger] r.has(x) <==> reaches(*c, b as int, x),
{
    let mut lo = [0i64; D];
    let mut hi = [0i64; D];
    let mut d: usize = 0;
    while d < D
        invariant
            d <= D,
            b >= 0,
            forall|e: int| 0 <= e < D ==> 0 <= #[trigger] c[e] && c[e] + b < i64::MAX,
            forall|e: int| 0 <= e < d ==> #[trigger] lo[e] == c[e] - b,
            forall|e: int| 0 <= e < d ==> #[trigger] hi[e] == c[e] + b + 1,
        decreases D - d,
    {
        assert(0 <= c[d as int] && c[d as int] + b < i64::MAX);
        lo[d] = c[d] - b;
        hi[d] = c[d] + b + 1;
        d += 1;
    }
    let r = CellBox { lo, hi };
    proof {
        assert forall|x: [i64; D]| #[trigger] r.has(x) implies reaches(*c, b as int, x) by {
            assert forall|e: int| 0 <= e < D implies c[e] - b <= #[trigger] x[e] <= c[e] + b by {
                assert(r.lo[e] <= x[e] < r.hi[e]);
            }
        }
        assert forall|x: [i64; D]| reaches(*c, b as int, x) implies #[trigger] r.has(x) by {
            assert forall|e: int| 0 <= e < D implies r.lo[e] <= #[trigger] x[e] < r.hi[e] by {
                assert(c[e] - b <= x[e] <= c[e] + b);
            }
        }
    }
    r
}

/// The parents of the margin around a finer box.
fn parent_box<const D: usize>(bx: &CellBox<D>, rf: i64, rs: i64) -> (r: CellBox<D>)
    requires
        1 <= rf <= u32::MAX,
        1 <= rs <= u32::MAX,
        forall|d: int|
            0 <= d < D ==> 0 <= #[trigger] bx.lo[d] && 0 <= bx.hi[d] && bx.hi[d] + 0x1_0000_0000
                <= i64::MAX,
    ensures
        forall|x: [i64; D]| #[trigger] r.has(x) <==> is_parent(*bx, rf as int, rs as int, x),
{
    let mut lo = [0i64; D];
    let mut hi = [0i64; D];
    let mut d: usize = 0;
    while d < D
        invariant
            d <= D,
            1 <= rf <= u32::MAX,
            1 <= rs <= u32::MAX,
            forall|e: int|
                0 <= e < D ==> 0 <= #[trigger] bx.lo[e] && 0 <= bx.hi[e] && bx.hi[e]
                    + 0x1_0000_0000 <= i64::MAX,
            forall|e: int|
                0 <= e < d ==> #[trigger] lo[e] == (bx.lo[e] as int / rf as int - 1) / rs as int,
            forall|e: int|
                0 <= e < d ==> #[trigger] hi[e] == (bx.hi[e] as int / rf as int + 1 + rs as int - 1)
                    / rs as int,
        decreases D - d,
    {
        assert(0 <= bx.lo[d as int] && 0 <= bx.hi[d as int]);
        proof {
            let h = bx.hi[d as int] as int;
            let ri = rf as int;
            vstd::arithmetic::div_mod::lemma_fundamental_div_mod(h, ri);
            vstd::arithmetic::div_mod::lemma_mod_bound(h, ri);
            let q = h / ri;
            let m = h % ri;
            assert(0 <= q <= h) by (nonlinear_arith)
                requires
                    h == ri * q + m,
                    0 <= m < ri,
                    h >= 0,
            ;
        }
        lo[d] = div_floor(bx.lo[d] / rf - 1, rs);
        hi[d] = div_floor(bx.hi[d] / rf + 1 + rs - 1, rs);
        d += 1;
    }
    let r = CellBox { lo, hi };
    proof {
        assert forall|x: [i64; D]| #[trigger] r.has(x) implies is_parent(
            *bx,
            rf as int,
            rs as int,
            x,
        ) by {
            assert forall|e: int| 0 <= e < D implies (bx.lo[e] as int / rf as int - 1) / rs as int
                <= #[trigger] x[e] < (bx.hi[e] as int / rf as int + 1 + rs as int - 1)
                / rs as int by {
                assert(r.lo[e] <= x[e] < r.hi[e]);
            }
        }
        assert forall|x: [i64; D]|
            is_parent(*bx, rf as int, rs as int, x) implies #[trigger] r.has(x) by {
            assert forall|e: int| 0 <= e < D implies r.lo[e] <= #[trigger] x[e] < r.hi[e] by {
                assert((bx.lo[e] as int / rf as int - 1) / rs as int <= x[e]);
            }
        }
    }
    r
}

/// List the buffer zones of all tags.
fn push_buffers<const D: usize>(tags: &[[i64; D]], b: i64, out: &mut Vec<[i64; D]>)
    requires
        D > 0,
        b >= 0,
        forall|i: int, d: int|
            0 <= i < tags@.len() && 0 <= d < D ==> 0 <= #[trigger] tags@[i][d] && tags@[i][d] + b
                < i64::MAX,
    ensures
        forall|c: [i64; D]| #[trigger]
            final(out)@.contains(c) <==> old(out)@.contains(c) || buffered(tags@, b as int, c),
{
    let ghost start = out@;
    let mut i: usize = 0;
    while i < tags.len()
        invariant
            D > 0,
            b >= 0,
            i <= tags@.len(),
            start == old(out)@,
            forall|i: int, d: int|
                0 <= i < tags@.len() && 0 <= d < D ==> 0 <= #[trigger] tags@[i][d] && tags@[i][d]
                    + b < i64::MAX,
            forall|c: [i64; D]| #[trigger]
                out@.contains(c) <==> start.contains(c) || buffered(
                    tags@.take(i as int),
                    b as int,
                    c,
                ),
        decreases tags.len() - i,
    {
        let ghost before = out@;
        let ghost t = tags@[i as int];
        let bx = ball(&tags[i], b);
        push_cells(&bx, out);
        proof {
            let now = tags@.take(i + 1);
            assert forall|c: [i64; D]| #[trigger] out@.contains(c) <==> start.contains(c)
                || buffered(now, b as int, c) by {
                lemma_pushed(bx, before, out@, c);
                assert(before.contains(c) <==> start.contains(c) || buffered(
                    tags@.take(i as int),
                    b as int,
                    c,
                ));
                assert(bx.has(c) <==> reaches(t, b as int, c));
                if buffered(tags@.take(i as int), b as int, c) {
                    let k = choose|k: int|
                        0 <= k < i && reaches(#[trigger] tags@.take(i as int)[k], b as int, c);
                    assert(now[k] == tags@.take(i as int)[k]);
                }
                if reaches(t, b as int, c) {
                    assert(now[i as int] == t);
                }
                if buffered(now, b as int, c) {
                    let k = choose|k: int| 0 <= k < now.len() && reaches(#[trigger] now[k], b as int, c);
                    if k < i {
                        assert(tags@.take(i as int)[k] == now[k]);
                    }
                }
            }
        }
        i += 1;
    }
    assert(tags@.take(tags@.len() as int) =~= tags@);
}

/// List the nesting flags of all finer boxes.
fn push_parents<const D: usize>(
    finer: &Vec<CellBox<D>>,
    rf: i64,
    rs: i64,
    out: &mut Vec<[i64; D]>,
)
    requires
        D > 0,
        1 <= rf <= u32::MAX,
        1 <= rs <= u32::MAX,
        forall|k: int, d: int|
            #![trigger finer@[k].lo[d]]
            0 <= k < finer@.len() && 0 <= d < D ==> 0 <= finer@[k].lo[d] && 0 <= finer@[k].hi[d]
                && finer@[k].hi[d] + 0x1_0000_0000 <= i64::MAX,
    ensures
        forall|c: [i64; D]| #[trigger]
            final(out)@.contains(c) <==> old(out)@.contains(c) || needed(
                finer@,
                rf as int,
                rs as int,
                c,
            ),
{
    let ghost start = out@;
    let mut i: usize = 0;
    while i < finer.len()
        invariant
            D > 0,
            1 <= rf <= u32::MAX,
            1 <= rs <= u32::MAX,
            i <= finer@.len(),
            start == old(out)@,
            forall|k: int, d: int|
                #![trigger finer@[k].lo[d]]
                0 <= k < finer@.len() && 0 <= d < D ==> 0 <= finer@[k].lo[d] && 0 <= finer@[k].hi[d]
                    && finer@[k].hi[d] + 0x1_0000_0000 <= i64::MAX,
            forall|c: [i64; D]| #[trigger]
                out@.contains(c) <==> start.contains(c) || needed(
                    finer@.take(i as int),
                    rf as int,
                    rs as int,
                    c,
                ),
        decreases finer.len() - i,
    {
        let ghost before = out@;
        let ghost t = finer@[i as int];
        let ghost f = rf as int;
        let ghost s = rs as int;
        let bx = parent_box(&finer[i], rf, rs);
        push_cells(&bx, out);
        proof {
            let now = finer@.take(i + 1);
            assert forall|c: [i64; D]| #[trigger] out@.contains(c) <==> start.contains(c) || needed(
                now,
                f,
                s,
                c,
            ) by {
                lemma_pushed(bx, before, out@, c);
                assert(before.contains(c) <==> start.contains(c) || needed(
                    finer@.take(i as int),
                    f,
                    s,
                    c,
                ));
                assert(bx.has(c) <==> is_parent(t, f, s, c));
                if needed(finer@.take(i as int), f, s, c) {
                    let k = choose|k: int|
                        0 <= k < i && is_parent(#[trigger] finer@.take(i as int)[k], f, s, c);
                    assert(now[k] == finer@.take(i as int)[k]);
                }
                if is_parent(t, f, s, c) {
                    assert(now[i as int] == t);
                }
                if needed(now, f, s, c) {
                    let k = choose|k: int| 0 <= k < now.len() && is_parent(#[trigger] now[k], f, s, c);
                    if k < i {
                        assert(finer@.take(i as int)[k] == now[k]);
                    }
                }
            }
        }
        i += 1;
    }
    assert(finer@.take(finer@.len() as int) =~= finer@);
}

/// The cells of the list that lie in the domain, each once.
fn distinct_in<const D: usize>(cells: &Vec<[i64; D]>, extent: &[usize; D]) -> (out: Vec<[i64; D]>)
    requires
        D > 0,
        positive(usizes(*extent)),
        volume(usizes(*extent)) <= usize::MAX,
    ensures
        out@.no_duplicates(),
        forall|c: [i64; D]| #[trigger]
            out@.contains(c) <==> cells@.contains(c) && in_ext(ints(c), usizes(*extent)),
{
    let ghost e = usizes(*extent);
    let total = domain_size(extent);
    let mut seen: Vec<bool> = Vec::new();
    while seen.len() < total
        invariant
            seen@.len() <= total,
            forall|k: int| 0 <= k < seen@.len() ==> !(#[trigger] seen@[k]),
        decreases total - seen.len(),
    {
        seen.push(false);
    }
    let mut out: Vec<[i64; D]> = Vec::new();
    let mut i: usize = 0;
    proof {
        assert forall|c: [i64; D]|
            #![trigger lin(ints(c), e)]
            in_ext(ints(c), e) implies !seen@[lin(ints(c), e)] by {
            lemma_lin_bounds(ints(c), e);
        }
    }
    while i < cells.len()
        invariant
            i <= cells@.len(),
            e == usizes(*extent),
            positive(e),
            volume(e) <= usize::MAX,
            seen@.len() == volume(e),
            out@.no_duplicates(),
            forall|c: [i64; D]|
                #![trigger lin(ints(c), e)]
                in_ext(ints(c), e) ==> (seen@[lin(ints(c), e)] <==> out@.contains(c)),
            forall|c: [i64; D]| #[trigger]
                out@.contains(c) <==> cells@.take(i as int).contains(c) && in_ext(ints(c), e),
        decreases cells.len() - i,
    {
        let ghost before = out@;
        let ghost seen0 = seen@;
        let c = cells[i];
        let ghost old_list = cells@.take(i as int);
        let ghost new_list = cells@.take(i + 1);
        proof {
            assert(new_list =~= old_list.push(c));
            assert forall|x: [i64; D]| new_list.contains(x) <==> old_list.contains(x) || x == c by {
                if new_list.contains(x) {
                    let k = choose|k: int| 0 <= k < new_list.len() && new_list[k] == x;
                    if k < i {
                        assert(old_list[k] == x);
                    }
                }
                if old_list.contains(x) {
                    let k = choose|k: int| 0 <= k < old_list.len() && old_list[k] == x;
                    assert(new_list[k] == x);
                }
                assert(new_list[i as int] == c);
            }
        }
        if inside_domain(&c, extent) {
            let at = domain_offset(&c, extent);
            if !seen[at] {
                seen[at] = true;
                out.push(c);
                proof {
                    assert(!before.contains(c));
                    assert forall|x: [i64; D]| #[trigger] out@.contains(x) <==> before.contains(x)
                        || x == c by {
                        if before.contains(x) {
                            let k = choose|k: int| 0 <= k < before.len() && before[k] == x;
                            assert(out@[k] == x);
                        }
                        assert(out@[before.len() as int] == c);
                        if out@.contains(x) {
                            let k = choose|k: int| 0 <= k < out@.len() && out@[k] == x;
                            if k < before.len() {
                                assert(before[k] == x);
                            }
                        }
                    }
                    assert forall|x: [i64; D]|
                        #![trigger lin(ints(x), e)]
                        in_ext(ints(x), e) implies (seen@[lin(ints(x), e)] <==> out@.contains(
                        x,
                    )) by {
                        lemma_lin_bounds(ints(x), e);
                        if lin(ints(x), e) == at {
                            lemma_lin_injective(ints(x), ints(c), e);
                            lemma_cell_ext(x, c);
                        }
                    }
                }
            } else {
                proof {
                    assert(before.contains(c));
                }
            }
        }
        i += 1;
    }
    assert(cells@.take(cells@.len() as int) =~= cells@);
    out
}

/// Whether a cell lies in `[0, extent)`.
fn inside_domain<const D: usize>(c: &[i64; D], extent: &[usize; D]) -> (r: bool)
    ensures
        r == in_ext(ints(*c), usizes(*extent)),
{
    let mut d: usize = 0;
    while d < D
        invariant
            d <= D,
            forall|e: int| 0 <= e < d ==> 0 <= #[trigger] c[e] < extent[e],
        decreases D - d,
    {
        if c[d] < 0 || c[d] as u64 >= extent[d] as u64 {
            proof {
                assert(!(0 <= ints(*c)[d as int] < usizes(*extent)[d as int]));
            }
            return false;
        }
        d += 1;
    }
    proof {
        assert forall|e: int| 0 <= e < D implies 0 <= #[trigger] ints(*c)[e] < usizes(
            *extent,
        )[e] by {
            assert(0 <= c[e] < extent[e]);
        }
    }
    true
}

/// Number of cells of a domain.
fn domain_size<const D: usize>(extent: &[usize; D]) -> (r: usize)
    requires
        positive(usizes(*extent)),
        volume(usizes(*extent)) <= usize::MAX,
    ensures
        r == volume(usizes(*extent)),
{
    let ghost e = usizes(*extent);
    let mut total: usize = 1;
    let mut d: usize = 0;
    proof {
        assert(e.take(0) =~= Seq::<int>::empty());
    }
    while d < D
        invariant
            d <= D,
            e == usizes(*extent),
            positive(e),
            volume(e) <= usize::MAX,
            total == volume(e.take(d as int)),
        decreases D - d,
    {
        proof {
            crate::geometry::index::lemma_lin_step(e, e, d as int);
            crate::geometry::index::lemma_volume_prefix(e, d + 1);
        }
        total = total * extent[d];
        d += 1;
    }
    proof {
        assert(e.take(D as int) =~= e);
    }
    total
}

/// What clustering makes of the flags of a level, box by box, in source-level
/// coordinates.
proof fn lemma_clusters_inside<R: Real, const D: usize>(
    s: Set<[i64; D]>,
    cells: Seq<int>,
    params: ClusterParams<R>,
    k: int,
)
    requires
        params.min_width >= 1,
        cells.len() == D,
        positive(cells),
        forall|d: int| 0 <= d < D ==> (#[trigger] cells[d]) < i64::MAX,
        forall|d: int| 0 <= d < D ==> (#[trigger] cells[d]) <= usize::MAX,
        forall|c: [i64; D]| #[trigger] s.contains(c) ==> in_ext(ints(c), cells),
        0 <= k < clusters(Multiset::from_set(s), params).len(),
    ensures
        ({
            let bx = clusters(Multiset::from_set(s), params)[k];
            forall|d: int| 0 <= d < D ==> 0 <= #[trigger] bx.lo[d] < bx.hi[d] <= cells[d]
        }),
{
    broadcast use vstd::multiset::group_multiset_axioms;

    let m = Multiset::from_set(s);
    lemma_once(s, cells);
    clusters_partition_the_flags(m, params);
    let bx = clusters(m, params)[k];
    let ins = inside(m, bx);
    assert(bx.bounds(ins));
    assert forall|d: int| 0 <= d < D implies 0 <= #[trigger] bx.lo[d] < bx.hi[d] <= cells[d] by {
        assert(touches(ins, d, bx.lo[d] as int));
        assert(touches(ins, d, bx.hi[d] - 1));
        let a = choose|c: [i64; D]| ins.contains(c) && #[trigger] c[d] == bx.lo[d];
        let b = choose|c: [i64; D]| ins.contains(c) && #[trigger] c[d] == bx.hi[d] - 1;
        assert(m.count(a) > 0);
        assert(m.count(b) > 0);
        assert(s.contains(a) && s.contains(b));
        assert(0 <= ints(a)[d] < cells[d]);
        assert(0 <= ints(b)[d] < cells[d]);
        assert(bx.has(a));
    }
}

/// The boxes in next-finer coordinates.
fn refine_boxes<const D: usize>(boxes: &Vec<CellBox<D>>, r: i64) -> (out: Vec<CellBox<D>>)
    requires
        r >= 1,
        forall|k: int, d: int|
            #![trigger boxes@[k].lo[d]]
            0 <= k < boxes@.len() && 0 <= d < D ==> 0 <= boxes@[k].lo[d] < boxes@[k].hi[d]
                && boxes@[k].hi[d] * r <= i64::MAX,
    ensures
        out@ == Seq::new(boxes@.len(), |k: int| refined_box(boxes@[k], r as int)),
{
    let mut out: Vec<CellBox<D>> = Vec::new();
    let mut k: usize = 0;
    while k < boxes.len()
        invariant
            r >= 1,
            k <= boxes@.len(),
            out@.len() == k,
            forall|k: int, d: int|
                #![trigger boxes@[k].lo[d]]
                0 <= k < boxes@.len() && 0 <= d < D ==> 0 <= boxes@[k].lo[d] < boxes@[k].hi[d]
                    && boxes@[k].hi[d] * r <= i64::MAX,
            forall|j: int| 0 <= j < k ==> #[trigger] out@[j] == refined_box(boxes@[j], r as int),
        decreases boxes.len() - k,
    {
        let ghost bx = boxes@[k as int];
        let mut lo = [0i64; D];
        let mut hi = [0i64; D];
        let mut d: usize = 0;
        while d < D
            invariant
                d <= D,
                r >= 1,
                k < boxes@.len(),
                bx == boxes@[k as int],
                forall|e: int|
                    #![trigger boxes@[k as int].lo[e]]
                    0 <= e < D ==> 0 <= boxes@[k as int].lo[e] < boxes@[k as int].hi[e]
                        && boxes@[k as int].hi[e] * r <= i64::MAX,
                forall|e: int| 0 <= e < d ==> #[trigger] lo[e] == bx.lo[e] * r,
                forall|e: int| 0 <= e < d ==> #[trigger] hi[e] == bx.hi[e] * r,
            decreases D - d,
        {
            proof {
                let a = boxes@[k as int].lo[d as int] as int;
                let b = boxes@[k as int].hi[d as int] as int;
                let ri = r as int;
                assert(0 <= a < b && b * ri <= i64::MAX);
                assert(0 <= a * ri <= b * ri) by (nonlinear_arith)
                    requires
                        0 <= a < b,
                        ri >= 1,
                ;
            }
            lo[d] = boxes[k].lo[d] * r;
            hi[d] = boxes[k].hi[d] * r;
            d += 1;
        }
        proof {
            let want = refined_box(bx, r as int);
            lemma_array_of::<D>(Seq::new(D as nat, |e: int| (bx.lo[e] * r) as i64));
            lemma_array_of::<D>(Seq::new(D as nat, |e: int| (bx.hi[e] * r) as i64));
            assert(lo =~= want.lo);
            assert(hi =~= want.hi);
        }
        out.push(CellBox { lo, hi });
        k += 1;
    }
    proof {
        assert(out@ =~= Seq::new(boxes@.len(), |k: int| refined_box(boxes@[k], r as int)));
    }
    out
}

/// Plan the boxes of one level from the tags of its source level and from the
/// boxes planned one level up.
pub fn plan_level<R: Real, const D: usize>(
    tags: &[[i64; D]],
    buffer: i64,
    finer: &Vec<CellBox<D>>,
    rf: i64,
    rs: i64,
    extent: &[usize; D],
    params: &ClusterParams<R>,
) -> (out: Vec<CellBox<D>>)
    requires
        D > 0,
        1 <= rf <= u32::MAX,
        2 <= rs <= u32::MAX,
        params.min_width >= 1,
        positive(usizes(*extent)),
        volume(usizes(*extent)) <= usize::MAX,
        forall|d: int| 0 <= d < D ==> (#[trigger] usizes(*extent)[d]) * rs < i64::MAX,
        forall|i: int, d: int|
            0 <= i < tags@.len() && 0 <= d < D ==> 0 <= #[trigger] tags@[i][d] && tags@[i][d]
                + dilation(buffer) < i64::MAX,
        forall|k: int, d: int|
            #![trigger finer@[k].lo[d]]
            0 <= k < finer@.len() && 0 <= d < D ==> 0 <= finer@[k].lo[d] && 0 <= finer@[k].hi[d]
                && finer@[k].hi[d] + 0x1_0000_0000 <= i64::MAX,
    ensures
        out@ == planned_boxes(
            tags@,
            dilation(buffer),
            finer@,
            rf as int,
            rs as int,
            usizes(*extent),
            *params,
        ),
{
    let ghost cells = usizes(*extent);
    let ghost s = flag_set(tags@, dilation(buffer), finer@, rf as int, rs as int, cells);
    let b: i64 = if buffer > 0 {
        buffer
    } else {
        0
    };
    let mut listed: Vec<[i64; D]> = Vec::new();
    push_buffers(tags, b, &mut listed);
    push_parents(finer, rf, rs, &mut listed);
    let mut flags = distinct_in(&listed, extent);
    proof {
        broadcast use vstd::multiset::group_multiset_axioms;
        broadcast use vstd::seq_lib::group_to_multiset_ensures;

        assert forall|c: [i64; D]| flags@.contains(c) <==> #[trigger] s.contains(c) by {
            assert(listed@.contains(c) <==> buffered(tags@, b as int, c) || needed(
                finer@,
                rf as int,
                rs as int,
                c,
            ));
        }
        assert forall|d: int| 0 <= d < D implies (#[trigger] cells[d]) < i64::MAX && cells[d]
            <= usize::MAX by {
            let n = usizes(*extent)[d];
            let ri = rs as int;
            assert(n > 0);
            assert(n * ri < i64::MAX);
            assert(n < i64::MAX) by (nonlinear_arith)
                requires
                    n * ri < i64::MAX,
                    ri >= 2,
                    n > 0,
            ;
        }
        lemma_once(s, cells);
        flags@.lemma_multiset_has_no_duplicates();
        assert forall|c: [i64; D]| #[trigger]
            flags@.to_multiset().count(c) == Multiset::from_set(s).count(c) by {
            assert(flags@.contains(c) <==> s.contains(c));
            if s.contains(c) {
                assert(flags@.to_multiset().contains(c));
            }
        }
        assert(flags@.to_multiset() =~= Multiset::from_set(s));
    }
    let boxes = cluster(flags.as_mut_slice(), params);
    proof {
        assert forall|k: int, d: int|
            #![trigger boxes@[k].lo[d]]
            0 <= k < boxes@.len() && 0 <= d < D implies 0 <= boxes@[k].lo[d] < boxes@[k].hi[d]
            && boxes@[k].hi[d] * rs <= i64::MAX by {
            lemma_clusters_inside(s, cells, *params, k);
            let h = boxes@[k].hi[d] as int;
            let n = usizes(*extent)[d];
            let ri = rs as int;
            assert(0 <= boxes@[k].lo[d] < boxes@[k].hi[d] <= cells[d]);
            assert(n * ri < i64::MAX);
            assert(h * ri <= n * ri) by (nonlinear_arith)
                requires
                    h <= n,
                    ri >= 2,
            ;
        }
    }
    refine_boxes(&boxes, rs)
}

/// Radius of the buffer zone.
pub open spec fn dilation(buffer: i64) -> int {
    if buffer > 0 {
        buffer as int
    } else {
        0
    }
}

/// The boxes planned for level `target`, finest level first: the plan of each
/// level rests on the tags of the level below and on the plan one level up.
pub open spec fn level_plan<R: Real, const D: usize>(
    cells: Seq<int>,
    ratios: Seq<u32>,
    tags: Seq<Seq<[i64; D]>>,
    b: int,
    params: ClusterParams<R>,
    target: int,
) -> Seq<CellBox<D>>
    decreases ratios.len() - target,
{
    if target >= ratios.len() {
        planned_boxes(
            tags[target - 1],
            b,
            Seq::empty(),
            1,
            ratios[target - 1] as int,
            level_cells(cells, ratios, (target - 1) as nat),
            params,
        )
    } else {
        planned_boxes(
            tags[target - 1],
            b,
            level_plan(cells, ratios, tags, b, params, target + 1),
            ratios[target] as int,
            ratios[target - 1] as int,
            level_cells(cells, ratios, (target - 1) as nat),
            params,
        )
    }
}

/// The planned hierarchy: the boxes of every refined level, without trailing
/// empty levels.
pub open spec fn hierarchy_plan<R: Real, const D: usize>(
    cells: Seq<int>,
    ratios: Seq<u32>,
    tags: Seq<Seq<[i64; D]>>,
    b: int,
    params: ClusterParams<R>,
) -> Seq<Seq<CellBox<D>>> {
    trimmed(
        Seq::new(ratios.len(), |l: int| level_plan(cells, ratios, tags, b, params, l + 1)),
    )
}

/// A planned box is a refined cluster of the flags.
proof fn lemma_planned_box<R: Real, const D: usize>(
    tags: Seq<[i64; D]>,
    b: int,
    finer: Seq<CellBox<D>>,
    rf: int,
    rs: int,
    cells: Seq<int>,
    params: ClusterParams<R>,
    k: int,
)
    requires
        rs >= 2,
        params.min_width >= 1,
        cells.len() == D,
        positive(cells),
        forall|d: int| 0 <= d < D ==> (#[trigger] cells[d]) <= usize::MAX,
        forall|d: int| 0 <= d < D ==> (#[trigger] cells[d]) * rs < i64::MAX,
        0 <= k < planned_boxes(tags, b, finer, rf, rs, cells, params).len(),
    ensures
        ({
            let bx = planned_boxes(tags, b, finer, rf, rs, cells, params)[k];
            let c = clusters(
                Multiset::from_set(flag_set(tags, b, finer, rf, rs, cells)),
                params,
            )[k];
            &&& forall|d: int| 0 <= d < D ==> #[trigger] bx.lo[d] == c.lo[d] * rs
            &&& forall|d: int| 0 <= d < D ==> #[trigger] bx.hi[d] == c.hi[d] * rs
            &&& forall|d: int| 0 <= d < D ==> 0 <= #[trigger] c.lo[d] < c.hi[d] <= cells[d]
            &&& forall|d: int| 0 <= d < D ==> 0 <= #[trigger] bx.lo[d] < bx.hi[d] <= cells[d] * rs
            &&& aligned(bx, rs)
        }),
{
    let s = flag_set(tags, b, finer, rf, rs, cells);
    let c = clusters(Multiset::from_set(s), params)[k];
    let bx = refined_box(c, rs);
    assert forall|d: int| 0 <= d < D implies (#[trigger] cells[d]) < i64::MAX by {
        let n = cells[d];
        assert(n * rs < i64::MAX);
        assert(n < i64::MAX) by (nonlinear_arith)
            requires
                n * rs < i64::MAX,
                rs >= 2,
                n > 0,
        ;
    }
    lemma_clusters_inside(s, cells, params, k);
    let lo = Seq::new(D as nat, |d: int| (c.lo[d] * rs) as i64);
    let hi = Seq::new(D as nat, |d: int| (c.hi[d] * rs) as i64);
    lemma_array_of::<D>(lo);
    lemma_array_of::<D>(hi);
    assert forall|d: int| 0 <= d < D implies {
        &&& #[trigger] bx.lo[d] == c.lo[d] * rs
        &&& bx.hi[d] == c.hi[d] * rs
        &&& 0 <= bx.lo[d] < bx.hi[d] <= cells[d] * rs
        &&& bx.lo[d] as int % rs == 0 && bx.hi[d] as int % rs == 0
    } by {
        let a = c.lo[d] as int;
        let e = c.hi[d] as int;
        let n = cells[d];
        assert(0 <= c.lo[d] < c.hi[d] <= cells[d]);
        assert(n * rs < i64::MAX);
        assert(0 <= a * rs < e * rs && e * rs <= n * rs) by (nonlinear_arith)
            requires
                0 <= a < e <= n,
                rs >= 2,
        ;
        assert(array_of::<D>(lo)[d] == lo[d]);
        assert(array_of::<D>(hi)[d] == hi[d]);
        vstd::arithmetic::div_mod::lemma_mod_multiples_basic(a, rs);
        vstd::arithmetic::div_mod::lemma_mod_multiples_basic(e, rs);
    }
    assert forall|d: int| 0 <= d < D implies #[trigger] bx.hi[d] == c.hi[d] * rs by {
        assert(bx.lo[d] == c.lo[d] * rs);
    }
}

/// Planned boxes of one level share no cell.
proof fn lemma_planned_disjoint<R: Real, const D: usize>(
    tags: Seq<[i64; D]>,
    b: int,
    finer: Seq<CellBox<D>>,
    rf: int,
    rs: int,
    cells: Seq<int>,
    params: ClusterParams<R>,
    i: int,
    j: int,
)
    requires
        D > 0,
        rs >= 2,
        params.min_width >= 1,
        cells.len() == D,
        positive(cells),
        forall|d: int| 0 <= d < D ==> (#[trigger] cells[d]) <= usize::MAX,
        forall|d: int| 0 <= d < D ==> (#[trigger] cells[d]) * rs < i64::MAX,
        0 <= j < i < planned_boxes(tags, b, finer, rf, rs, cells, params).len(),
    ensures
        ({
            let p = planned_boxes(tags, b, finer, rf, rs, cells, params);
            !p[i].meets(p[j])
        }),
{
    let s = flag_set(tags, b, finer, rf, rs, cells);
    let m = Multiset::from_set(s);
    let p = planned_boxes(tags, b, finer, rf, rs, cells, params);
    let c = clusters(m, params);
    lemma_planned_box(tags, b, finer, rf, rs, cells, params, i);
    lemma_planned_box(tags, b, finer, rf, rs, cells, params, j);
    assert forall|d: int| 0 <= d < D implies (#[trigger] cells[d]) < i64::MAX by {
        let n = cells[d];
        assert(n * rs < i64::MAX);
        assert(n < i64::MAX) by (nonlinear_arith)
            requires
                n * rs < i64::MAX,
                rs >= 2,
                n > 0,
        ;
    }
    lemma_once(s, cells);
    clusters_partition_the_flags(m, params);
    if p[i].meets(p[j]) {
        assert(c[j].meets(c[i])) by {
            assert forall|d: int| 0 <= d < D implies (#[trigger] c[j].lo[d]) < c[i].hi[d]
                && c[i].lo[d] < c[j].hi[d] by {
                assert(p[i].lo[d] < p[j].hi[d] && p[j].lo[d] < p[i].hi[d]);
                assert(p[i].lo[d] == c[i].lo[d] * rs);
                assert(p[j].lo[d] == c[j].lo[d] * rs);
                assert(p[i].hi[d] == c[i].hi[d] * rs);
                assert(p[j].hi[d] == c[j].hi[d] * rs);
                let il = c[i].lo[d] as int;
                let ih = c[i].hi[d] as int;
                let jl = c[j].lo[d] as int;
                let jh = c[j].hi[d] as int;
                assert(jl < ih && il < jh) by (nonlinear_arith)
                    requires
                        il * rs < jh * rs,
                        jl * rs < ih * rs,
                        rs >= 2,
                ;
            }
        }
        assert(!c[j].meets(c[i]));
    }
}

/// The planned boxes cover the refinement of every flag.
proof fn lemma_planned_covers<R: Real, const D: usize>(
    tags: Seq<[i64; D]>,
    b: int,
    finer: Seq<CellBox<D>>,
    rf: int,
    rs: int,
    cells: Seq<int>,
    params: ClusterParams<R>,
    q: [i64; D],
    c: [i64; D],
)
    requires
        rs >= 2,
        params.min_width >= 1,
        cells.len() == D,
        positive(cells),
        forall|d: int| 0 <= d < D ==> (#[trigger] cells[d]) <= usize::MAX,
        forall|d: int| 0 <= d < D ==> (#[trigger] cells[d]) * rs < i64::MAX,
        flag_set(tags, b, finer, rf, rs, cells).contains(q),
        forall|d: int| 0 <= d < D ==> q[d] * rs <= #[trigger] c[d] < q[d] * rs + rs,
    ensures
        some_box_has(planned_boxes(tags, b, finer, rf, rs, cells, params), c),
{
    let s = flag_set(tags, b, finer, rf, rs, cells);
    let m = Multiset::from_set(s);
    let p = planned_boxes(tags, b, finer, rf, rs, cells, params);
    assert forall|d: int| 0 <= d < D implies (#[trigger] cells[d]) < i64::MAX by {
        let n = cells[d];
        assert(n * rs < i64::MAX);
        assert(n < i64::MAX) by (nonlinear_arith)
            requires
                n * rs < i64::MAX,
                rs >= 2,
                n > 0,
        ;
    }
    lemma_once(s, cells);
    clusters_partition_the_flags(m, params);
    assert(m.count(q) == 1);
    assert(m.contains(q));
    let k = choose|k: int|
        0 <= k < clusters(m, params).len() && #[trigger] clusters(m, params)[k].has(q);
    let x = clusters(m, params)[k];
    lemma_planned_box(tags, b, finer, rf, rs, cells, params, k);
    assert(p[k].has(c)) by {
        assert forall|d: int| 0 <= d < D implies p[k].lo[d] <= #[trigger] c[d] < p[k].hi[d] by {
            assert(x.lo[d] <= q[d] < x.hi[d]);
            assert(q[d] * rs <= c[d] < q[d] * rs + rs);
            assert(p[k].lo[d] == x.lo[d] * rs);
            assert(p[k].hi[d] == x.hi[d] * rs);
            let a = x.lo[d] as int;
            let e = x.hi[d] as int;
            let y = q[d] as int;
            assert(a * rs <= y * rs && y * rs + rs <= e * rs) by (nonlinear_arith)
                requires
                    a <= y < e,
                    rs >= 2,
            ;
        }
    }
}

/// Level domains that fit can be planned on.
pub proof fn lemma_level_ready(cells: Seq<int>, ratios: Seq<u32>, l: nat)
    requires
        positive(cells),
        ratios_ok(ratios, ratios.len()),
        levels_fit(cells, ratios, ratios.len()),
        l < ratios.len(),
    ensures
        ({
            let e = level_cells(cells, ratios, l);
            let f = level_cells(cells, ratios, (l + 1) as nat);
            &&& e.len() == cells.len()
            &&& positive(e)
            &&& volume(e) <= usize::MAX
            &&& forall|d: int| 0 <= d < cells.len() ==> (#[trigger] e[d]) <= usize::MAX
            &&& forall|d: int| 0 <= d < cells.len() ==> (#[trigger] e[d]) * ratios[l as int] == f[d]
            &&& forall|d: int| 0 <= d < cells.len() ==> (#[trigger] e[d]) * ratios[l as int] < i64::MAX
            &&& forall|d: int|
                0 <= d < cells.len() ==> (#[trigger] f[d]) + 0x1_0000_0000 <= i64::MAX
        }),
{
    let e = level_cells(cells, ratios, l);
    let f = level_cells(cells, ratios, (l + 1) as nat);
    lemma_level_cells_positive(cells, ratios, l);
    assert(volume(e) <= usize::MAX);
    assert(volume(f) <= usize::MAX);
    assert forall|d: int| 0 <= d < cells.len() implies (#[trigger] e[d]) <= usize::MAX by {
        lemma_axis_below_volume(e, d);
    }
    assert forall|d: int| 0 <= d < cells.len() implies (#[trigger] e[d]) * ratios[l as int] == f[d]
        && e[d] * ratios[l as int] < i64::MAX by {
        let a = cells[d];
        let s = scale(ratios, l);
        let r = ratios[l as int] as int;
        assert(scale(ratios, (l + 1) as nat) == s * r);
        assert(a * (s * r) == (a * s) * r) by (nonlinear_arith);
        assert(f[d] + 0x1_0000_0000 <= i64::MAX);
    }
}

/// No extent exceeds the number of cells.
pub proof fn lemma_axis_below_volume(e: Seq<int>, d: int)
    requires
        positive(e),
        0 <= d < e.len(),
    ensures
        e[d] <= volume(e),
{
    lemma_volume_prefix(e, d);
    lemma_volume_prefix(e, d + 1);
    lemma_lin_step(e, e, d);
    let v = volume(e.take(d));
    let x = e[d];
    assert(x > 0);
    assert(x <= v * x) by (nonlinear_arith)
        requires
            v >= 1,
            x >= 1,
    ;
}

/// The one-cell margin of a planned box lies in the plan of the level below.
proof fn lemma_plan_nests<R: Real, const D: usize>(
    cells: Seq<int>,
    ratios: Seq<u32>,
    tags: Seq<Seq<[i64; D]>>,
    b: int,
    params: ClusterParams<R>,
    l: int,
    i: int,
    c: [i64; D],
)
    requires
        D > 0,
        cells.len() == D,
        positive(cells),
        ratios_ok(ratios, ratios.len()),
        levels_fit(cells, ratios, ratios.len()),
        params.min_width >= 1,
        1 <= l < ratios.len(),
        0 <= i < level_plan(cells, ratios, tags, b, params, l + 1).len(),
        in_margin(
            level_plan(cells, ratios, tags, b, params, l + 1)[i],
            ratios[l] as int,
            level_cells(cells, ratios, l as nat),
            c,
        ),
    ensures
        some_box_has(level_plan(cells, ratios, tags, b, params, l), c),
{
    let finer = level_plan(cells, ratios, tags, b, params, l + 1);
    let bx = finer[i];
    let rf = ratios[l] as int;
    let rs = ratios[l - 1] as int;
    let src = level_cells(cells, ratios, (l - 1) as nat);
    lemma_level_ready(cells, ratios, (l - 1) as nat);
    lemma_level_ready(cells, ratios, l as nat);
    lemma_level_plan_box(cells, ratios, tags, b, params, l + 1, i);
    let q = array_of::<D>(Seq::new(D as nat, |d: int| (c[d] as int / rs) as i64));
    lemma_array_of::<D>(Seq::new(D as nat, |d: int| (c[d] as int / rs) as i64));
    assert forall|d: int| 0 <= d < D implies {
        &&& #[trigger] q[d] == c[d] as int / rs
        &&& q[d] * rs <= c[d] < q[d] * rs + rs
        &&& 0 <= q[d] < src[d]
        &&& (bx.lo[d] as int / rf - 1) / rs <= q[d]
        &&& q[d] < (bx.hi[d] as int / rf + 1 + rs - 1) / rs
    } by {
        let x = c[d] as int;
        let n = src[d];
        let lo = bx.lo[d] as int / rf - 1;
        let h = bx.hi[d] as int / rf;
        assert(0 <= c[d] < level_cells(cells, ratios, l as nat)[d]);
        assert(n * rs == level_cells(cells, ratios, l as nat)[d]);
        vstd::arithmetic::div_mod::lemma_fundamental_div_mod(x, rs);
        vstd::arithmetic::div_mod::lemma_mod_bound(x, rs);
        let y = x / rs;
        let rem = x % rs;
        assert(0 <= y < n && y <= x && y * rs <= x < y * rs + rs) by (nonlinear_arith)
            requires
                x == rs * y + rem,
                0 <= rem < rs,
                0 <= x < n * rs,
                rs >= 2,
        ;
        assert(lo <= x) by {
            assert(bx.lo[d] as int / rf - 1 <= c[d]);
        }
        vstd::arithmetic::div_mod::lemma_div_is_ordered(lo, x, rs);
        // The planned box is aligned, so rounding its top face up is exact.
        let hi = bx.hi[d] as int;
        assert(bx.lo[d] as int % rf == 0 && bx.hi[d] as int % rf == 0);
        vstd::arithmetic::div_mod::lemma_fundamental_div_mod(hi, rf);
        vstd::arithmetic::mul::lemma_mul_is_commutative(rf, h);
        vstd::arithmetic::div_mod::lemma_fundamental_div_mod_converse(hi + rf - 1, rf, h, rf - 1);
        assert(x < h + 1) by {
            assert(c[d] < (bx.hi[d] + rf - 1) / rf + 1);
        }
        vstd::arithmetic::div_mod::lemma_div_is_ordered(x, h, rs);
        vstd::arithmetic::div_mod::lemma_div_plus_one(h, rs);
        assert(h + 1 + rs - 1 == rs + h);
    }
    assert(flag_set(tags[l - 1], b, finer, rf, rs, src).contains(q)) by {
        assert(in_ext(ints(q), src)) by {
            assert forall|d: int| 0 <= d < D implies 0 <= #[trigger] ints(q)[d] < src[d] by {
                assert(q[d] == c[d] as int / rs);
            }
        }
        assert(is_parent(bx, rf, rs, q)) by {
            assert forall|d: int| 0 <= d < D implies (bx.lo[d] as int / rf - 1) / rs
                <= #[trigger] q[d] < (bx.hi[d] as int / rf + 1 + rs - 1) / rs by {
                assert(q[d] == c[d] as int / rs);
            }
        }
        assert(needed(finer, rf, rs, q));
    }
    assert forall|d: int| 0 <= d < D implies q[d] * rs <= #[trigger] c[d] < q[d] * rs + rs by {
        assert(q[d] == c[d] as int / rs);
    }
    lemma_planned_covers(tags[l - 1], b, finer, rf, rs, src, params, q, c);
}

/// Geometry of one planned box.
pub proof fn lemma_level_plan_box<R: Real, const D: usize>(
    cells: Seq<int>,
    ratios: Seq<u32>,
    tags: Seq<Seq<[i64; D]>>,
    b: int,
    params: ClusterParams<R>,
    target: int,
    k: int,
)
    requires
        D > 0,
        cells.len() == D,
        positive(cells),
        ratios_ok(ratios, ratios.len()),
        levels_fit(cells, ratios, ratios.len()),
        params.min_width >= 1,
        1 <= target <= ratios.len(),
        0 <= k < level_plan(cells, ratios, tags, b, params, target).len(),
    ensures
        ({
            let bx = level_plan(cells, ratios, tags, b, params, target)[k];
            let e = level_cells(cells, ratios, target as nat);
            &&& nonempty(bx)
            &&& within(bx, e)
            &&& aligned(bx, ratios[target - 1] as int)
            &&& bx.spans_fit()
            &&& forall|d: int|
                0 <= d < D ==> 0 <= #[trigger] bx.lo[d] && 0 <= bx.hi[d] && bx.hi[d]
                    + 0x1_0000_0000 <= i64::MAX
        }),
{
    let e = level_cells(cells, ratios, target as nat);
    let src = level_cells(cells, ratios, (target - 1) as nat);
    lemma_level_ready(cells, ratios, (target - 1) as nat);
    let top = target >= ratios.len();
    let finer = if top {
        Seq::empty()
    } else {
        level_plan(cells, ratios, tags, b, params, target + 1)
    };
    let rf = if top {
        1
    } else {
        ratios[target] as int
    };
    lemma_planned_box(
        tags[target - 1],
        b,
        finer,
        rf,
        ratios[target - 1] as int,
        src,
        params,
        k,
    );
    let bx = level_plan(cells, ratios, tags, b, params, target)[k];
    assert forall|d: int| 0 <= d < D implies 0 <= #[trigger] bx.lo[d] < bx.hi[d] <= e[d] && bx.hi[d]
        + 0x1_0000_0000 <= i64::MAX by {
        assert(src[d] * ratios[target - 1] == e[d]);
        assert(e[d] + 0x1_0000_0000 <= i64::MAX);
    }
}

/// Every planned hierarchy is valid: boxes are nonempty, within their level's
/// domain, aligned to the coarser level's faces, disjoint, and properly nested.
/// Assembling a grid from a plan therefore never fails.
pub proof fn planned_hierarchies_are_valid<R: Real, const D: usize>(
    cells: Seq<int>,
    ratios: Seq<u32>,
    tags: Seq<Seq<[i64; D]>>,
    b: int,
    params: ClusterParams<R>,
)
    requires
        D > 0,
        cells.len() == D,
        positive(cells),
        ratios_ok(ratios, ratios.len()),
        levels_fit(cells, ratios, ratios.len()),
        params.min_width >= 1,
    ensures
        no_fault::<R, D>(cells, ratios, hierarchy_plan(cells, ratios, tags, b, params)),
        forall|l: int, i: int|
            #![trigger hierarchy_plan(cells, ratios, tags, b, params)[l][i]]
            0 <= l < hierarchy_plan(cells, ratios, tags, b, params).len() && 0 <= i
                < hierarchy_plan(cells, ratios, tags, b, params)[l].len() ==> hierarchy_plan(
                cells,
                ratios,
                tags,
                b,
                params,
            )[l][i].spans_fit(),
        hierarchy_plan(cells, ratios, tags, b, params).len() <= ratios.len(),
{
    let full = Seq::new(ratios.len(), |l: int| level_plan(cells, ratios, tags, b, params, l + 1));
    let plan = hierarchy_plan(cells, ratios, tags, b, params);
    lemma_trimmed(full);
    assert forall|l: int, i: int| 0 <= l < plan.len() && 0 <= i < plan[l].len() implies (
    #[trigger] box_error::<R, D>(cells, ratios, plan, l, i)) is None && plan[l][i].spans_fit() by {
        assert(plan[l] == full[l]);
        lemma_plan_box_valid(cells, ratios, tags, b, params, plan, l, i);
    }
    assert forall|l: int, i: int|
        #![trigger plan[l][i]]
        0 <= l < plan.len() && 0 <= i < plan[l].len() implies plan[l][i].spans_fit() by {
        assert(box_error::<R, D>(cells, ratios, plan, l, i) is None);
    }
}

proof fn lemma_plan_box_valid<R: Real, const D: usize>(
    cells: Seq<int>,
    ratios: Seq<u32>,
    tags: Seq<Seq<[i64; D]>>,
    b: int,
    params: ClusterParams<R>,
    plan: Seq<Seq<CellBox<D>>>,
    l: int,
    i: int,
)
    requires
        D > 0,
        cells.len() == D,
        positive(cells),
        ratios_ok(ratios, ratios.len()),
        levels_fit(cells, ratios, ratios.len()),
        params.min_width >= 1,
        0 <= l < plan.len(),
        plan.len() <= ratios.len(),
        forall|k: int|
            0 <= k < plan.len() ==> #[trigger] plan[k] == level_plan(
                cells,
                ratios,
                tags,
                b,
                params,
                k + 1,
            ),
        0 <= i < plan[l].len(),
    ensures
        box_error::<R, D>(cells, ratios, plan, l, i) is None,
        plan[l][i].spans_fit(),
{
    let bx = plan[l][i];
    let r = ratios[l] as int;
    let target = l + 1;
    lemma_level_plan_box(cells, ratios, tags, b, params, target, i);
    assert(positive(bx.widths())) by {
        assert forall|d: int| 0 <= d < bx.widths().len() implies 0 < #[trigger] bx.widths()[d] by {
            assert(bx.lo[d] < bx.hi[d]);
        }
    }
    lemma_volume_positive(bx.widths());
    assert(bx.count() > 0);
    lemma_level_ready(cells, ratios, l as nat);
    let top = target >= ratios.len();
    let finer = if top {
        Seq::empty()
    } else {
        level_plan(cells, ratios, tags, b, params, target + 1)
    };
    let rf = if top {
        1
    } else {
        ratios[target] as int
    };
    assert forall|j: int| 0 <= j < i implies !bx.meets(#[trigger] plan[l][j]) by {
        lemma_planned_disjoint(
            tags[l],
            b,
            finer,
            rf,
            r,
            level_cells(cells, ratios, l as nat),
            params,
            i,
            j,
        );
    }
    if l > 0 {
        assert(nested(bx, r, level_cells(cells, ratios, l as nat), plan[l - 1])) by {
            assert forall|c: [i64; D]| #[trigger]
                in_margin(bx, r, level_cells(cells, ratios, l as nat), c) implies some_box_has(
                plan[l - 1],
                c,
            ) by {
                lemma_plan_nests(cells, ratios, tags, b, params, l, i, c);
            }
        }
    }
}

/// Every cell in the buffer zone of a tag is refined by the plan: the boxes one level
/// up hold every fine cell of it.
pub proof fn plans_cover_the_buffered_tags<R: Real, const D: usize>(
    cells: Seq<int>,
    ratios: Seq<u32>,
    tags: Seq<Seq<[i64; D]>>,
    b: int,
    params: ClusterParams<R>,
    l: int,
    q: [i64; D],
    c: [i64; D],
)
    requires
        D > 0,
        cells.len() == D,
        positive(cells),
        ratios_ok(ratios, ratios.len()),
        levels_fit(cells, ratios, ratios.len()),
        params.min_width >= 1,
        0 <= l < ratios.len(),
        in_ext(ints(q), level_cells(cells, ratios, l as nat)),
        buffered(tags[l], b, q),
        forall|d: int|
            0 <= d < D ==> q[d] * ratios[l] <= #[trigger] c[d] < q[d] * ratios[l] + ratios[l],
    ensures
        l < hierarchy_plan(cells, ratios, tags, b, params).len(),
        some_box_has(hierarchy_plan(cells, ratios, tags, b, params)[l], c),
{
    let full = Seq::new(ratios.len(), |l: int| level_plan(cells, ratios, tags, b, params, l + 1));
    let src = level_cells(cells, ratios, l as nat);
    let rs = ratios[l] as int;
    lemma_trimmed(full);
    lemma_level_ready(cells, ratios, l as nat);
    assert(some_box_has(full[l], c)) by {
        if l + 1 >= ratios.len() {
            assert(flag_set(tags[l], b, Seq::empty(), 1, rs, src).contains(q));
            lemma_planned_covers(tags[l], b, Seq::empty(), 1, rs, src, params, q, c);
        } else {
            let finer = level_plan(cells, ratios, tags, b, params, l + 2);
            let rf = ratios[l + 1] as int;
            assert(flag_set(tags[l], b, finer, rf, rs, src).contains(q));
            lemma_planned_covers(tags[l], b, finer, rf, rs, src, params, q, c);
        }
    }
    assert(full[l].len() > 0);
    assert(l < trimmed(full).len());
    assert(hierarchy_plan(cells, ratios, tags, b, params)[l] == full[l]);
}

} // verus!
