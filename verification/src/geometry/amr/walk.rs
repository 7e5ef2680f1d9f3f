//! Walking the cells of boxes: listing, covering tests and painting.

use vstd::prelude::*;

use crate::geometry::amr::cluster::CellBox;
use crate::geometry::index::{
    box_cells, empty_box, in_box, in_ext, ints, lemma_lin_bounds, lemma_lin_injective,
    lemma_lin_prefix_bounds, lemma_lin_step, lemma_rank, lemma_take_zero, lemma_unrank,
    lemma_volume_prefix, lin, minus, next_cell, positive, rank, usizes, volume,
};

verus! {

pub proof fn lemma_has_is_in_box<const D: usize>(bx: CellBox<D>, c: [i64; D])
    ensures
        bx.has(c) <==> in_box(ints(c), ints(bx.lo), ints(bx.hi)),
{
    if bx.has(c) {
        assert forall|d: int| 0 <= d < D implies ints(bx.lo)[d] <= #[trigger] ints(c)[d] < ints(
            bx.hi,
        )[d] by {
            assert(bx.lo[d] <= c[d] < bx.hi[d]);
        }
    }
    if in_box(ints(c), ints(bx.lo), ints(bx.hi)) {
        assert forall|d: int| 0 <= d < D implies bx.lo[d] <= #[trigger] c[d] < bx.hi[d] by {
            assert(ints(bx.lo)[d] <= ints(c)[d] < ints(bx.hi)[d]);
        }
    }
}

/// Equal coordinates, equal cells.
pub proof fn lemma_cell_ext<const D: usize>(a: [i64; D], b: [i64; D])
    requires
        ints(a) == ints(b),
    ensures
        a == b,
{
    assert forall|d: int| 0 <= d < D implies #[trigger] a[d] == b[d] by {
        assert(ints(a)[d] == a[d] as int);
        assert(ints(b)[d] == b[d] as int);
    }
    assert(a =~= b);
}

/// Every axis has at least one cell.
pub open spec fn nonempty<const D: usize>(bx: CellBox<D>) -> bool {
    forall|d: int| 0 <= d < D ==> (#[trigger] bx.lo[d]) < bx.hi[d]
}

/// Every cell of `need` lies in some box of `cover`.
pub open spec fn covered<const D: usize>(need: CellBox<D>, cover: Seq<CellBox<D>>) -> bool {
    forall|c: [i64; D]| #[trigger] need.has(c) ==> some_box_has(cover, c)
}

/// Some box of the list holds the cell.
pub open spec fn some_box_has<const D: usize>(cover: Seq<CellBox<D>>, c: [i64; D]) -> bool {
    exists|k: int| 0 <= k < cover.len() && (#[trigger] cover[k]).has(c)
}

/// Whether the box has at least one cell along every axis.
pub fn has_cells<const D: usize>(bx: &CellBox<D>) -> (r: bool)
    ensures
        r == nonempty(*bx),
{
    let mut d: usize = 0;
    while d < D
        invariant
            d <= D,
            forall|e: int| 0 <= e < d ==> (#[trigger] bx.lo[e]) < bx.hi[e],
        decreases D - d,
    {
        if bx.lo[d] >= bx.hi[d] {
            assert(bx.lo[d as int] >= bx.hi[d as int]);
            return false;
        }
        d += 1;
    }
    true
}

/// Append every cell of `bx` to `out`, dimension 0 fastest.
pub fn push_cells<const D: usize>(bx: &CellBox<D>, out: &mut Vec<[i64; D]>)
    requires
        D > 0,
    ensures
        final(out)@.len() == old(out)@.len() + box_cells(ints(bx.lo), ints(bx.hi)).len(),
        forall|i: int| 0 <= i < old(out)@.len() ==> #[trigger] final(out)@[i] == old(out)@[i],
        forall|i: int|
            old(out)@.len() <= i < final(out)@.len() ==> ints(#[trigger] final(out)@[i])
                == box_cells(ints(bx.lo), ints(bx.hi))[i - old(out)@.len()],
{
    let ghost l = ints(bx.lo);
    let ghost h = ints(bx.hi);
    let ghost cells = box_cells(l, h);
    let ghost start = out@;
    if !has_cells(bx) {
        proof {
            let d = choose|d: int| 0 <= d < D && (#[trigger] bx.lo[d]) >= bx.hi[d];
            assert(l[d] >= h[d]);
            assert(empty_box(l, h));
        }
        return;
    }
    let lo = bx.lo;
    let hi = bx.hi;
    let mut c = lo;
    let mut more = true;
    let ghost mut k: int = 0;
    proof {
        assert(in_box(ints(c), l, h)) by {
            assert forall|d: int| 0 <= d < D implies l[d] <= #[trigger] ints(c)[d] < h[d] by {
                assert(bx.lo[d] < bx.hi[d]);
            }
        }
        lemma_rank(ints(c), l, h);
        crate::geometry::index::lemma_lin_zero(minus(l, l), minus(h, l));
    }
    while more
        invariant
            D > 0,
            l == ints(lo),
            h == ints(hi),
            cells == box_cells(l, h),
            cells.len() == volume(minus(h, l)),
            start == old(out)@,
            0 <= k <= cells.len(),
            out@.len() == start.len() + k,
            forall|i: int| 0 <= i < start.len() ==> #[trigger] out@[i] == start[i],
            forall|i: int|
                start.len() <= i < out@.len() ==> ints(#[trigger] out@[i]) == cells[i
                    - start.len()],
            more ==> in_box(ints(c), l, h) && rank(ints(c), l, h) == k,
            !more ==> k == cells.len(),
        decreases cells.len() - k,
    {
        proof {
            lemma_rank(ints(c), l, h);
        }
        out.push(c);
        proof {
            k = k + 1;
        }
        more = next_cell(&mut c, &lo, &hi);
    }
}

/// Listing a box appends its cells and nothing else.
pub proof fn lemma_pushed<const D: usize>(
    bx: CellBox<D>,
    before: Seq<[i64; D]>,
    after: Seq<[i64; D]>,
    c: [i64; D],
)
    requires
        after.len() == before.len() + box_cells(ints(bx.lo), ints(bx.hi)).len(),
        forall|i: int| 0 <= i < before.len() ==> #[trigger] after[i] == before[i],
        forall|i: int|
            before.len() <= i < after.len() ==> ints(#[trigger] after[i]) == box_cells(
                ints(bx.lo),
                ints(bx.hi),
            )[i - before.len()],
    ensures
        after.contains(c) <==> before.contains(c) || bx.has(c),
{
    let l = ints(bx.lo);
    let h = ints(bx.hi);
    lemma_has_is_in_box(bx, c);
    if after.contains(c) {
        let i = choose|i: int| 0 <= i < after.len() && after[i] == c;
        if i < before.len() {
            assert(before[i] == c);
        } else {
            lemma_unrank(i - before.len(), l, h);
        }
    }
    if before.contains(c) {
        let i = choose|i: int| 0 <= i < before.len() && before[i] == c;
        assert(after[i] == c);
    }
    if bx.has(c) {
        lemma_rank(ints(c), l, h);
        let i = before.len() + rank(ints(c), l, h);
        assert(ints(after[i]) == ints(c));
        lemma_cell_ext(after[i], c);
    }
}

/// Moving along axis 0 moves the rank by as much.
proof fn lemma_rank_along_row(c: Seq<int>, lo: Seq<int>, hi: Seq<int>, x: int)
    requires
        c.len() > 0,
        lo.len() == c.len(),
        hi.len() == c.len(),
    ensures
        rank(c.update(0, x), lo, hi) == rank(c, lo, hi) + (x - c[0]),
{
    let a = minus(c, lo);
    let b = minus(c.update(0, x), lo);
    assert(a.drop_first() =~= b.drop_first());
}

/// Index of the first box holding the cell.
fn find_box<const D: usize>(cover: &[CellBox<D>], c: [i64; D]) -> (r: Option<usize>)
    ensures
        r is None <==> !some_box_has(cover@, c),
        r matches Some(k) ==> k < cover@.len() && cover@[k as int].has(c),
{
    let mut k: usize = 0;
    while k < cover.len()
        invariant
            k <= cover@.len(),
            forall|j: int| 0 <= j < k ==> !(#[trigger] cover@[j]).has(c),
        decreases cover.len() - k,
    {
        if cover[k].contains(c) {
            assert(cover@[k as int].has(c));
            return Some(k);
        }
        k += 1;
    }
    None
}

/// Whether every cell of `need` lies in some box of `cover`. Walks the cells of
/// `need`, skipping ahead within covering boxes along axis 0.
pub fn covered_by<const D: usize>(need: &CellBox<D>, cover: &[CellBox<D>]) -> (r: bool)
    requires
        D > 0,
    ensures
        r == covered(*need, cover@),
{
    let ghost l = ints(need.lo);
    let ghost h = ints(need.hi);
    if !has_cells(need) {
        proof {
            let d = choose|d: int| 0 <= d < D && (#[trigger] need.lo[d]) >= need.hi[d];
            assert forall|c: [i64; D]| #[trigger] need.has(c) implies some_box_has(cover@, c) by {
                assert(need.lo[d] <= c[d] < need.hi[d]);
            }
        }
        return true;
    }
    let lo = need.lo;
    let hi = need.hi;
    let mut idx = lo;
    let mut more = true;
    let ghost mut r: int = 0;
    proof {
        assert(in_box(ints(idx), l, h)) by {
            assert forall|d: int| 0 <= d < D implies l[d] <= #[trigger] ints(idx)[d] < h[d] by {
                assert(need.lo[d] < need.hi[d]);
            }
        }
        lemma_rank(ints(idx), l, h);
        crate::geometry::index::lemma_lin_zero(minus(l, l), minus(h, l));
        assert forall|c: [i64; D]| #[trigger] need.has(c) && rank(ints(c), l, h) < 0 implies some_box_has(
            cover@,
            c,
        ) by {
            lemma_has_is_in_box(*need, c);
            lemma_rank(ints(c), l, h);
        }
    }
    while more
        invariant
            D > 0,
            lo == need.lo,
            hi == need.hi,
            l == ints(lo),
            h == ints(hi),
            0 <= r <= volume(minus(h, l)),
            more ==> in_box(ints(idx), l, h) && rank(ints(idx), l, h) == r,
            !more ==> r == volume(minus(h, l)),
            forall|c: [i64; D]|
                #![trigger need.has(c)]
                need.has(c) && rank(ints(c), l, h) < r ==> some_box_has(cover@, c),
        decreases volume(minus(h, l)) - r,
    {
        let ghost i0 = ints(idx);
        proof {
            lemma_rank(i0, l, h);
            lemma_has_is_in_box(*need, idx);
        }
        match find_box(cover, idx) {
            None => {
                assert(need.has(idx));
                return false;
            },
            Some(k) => {
                let b = cover[k];
                assert(b.lo[0] <= idx[0] < b.hi[0]);
                assert(l[0] <= i0[0] < h[0]);
                let stop: i64 = if b.hi[0] < hi[0] {
                    b.hi[0] - 1
                } else {
                    hi[0] - 1
                };
                let ghost start = idx;
                idx[0] = stop;
                proof {
                    let i1 = ints(idx);
                    assert(i1 =~= i0.update(0, stop as int));
                    lemma_rank_along_row(i0, l, h, stop as int);
                    assert(in_box(i1, l, h)) by {
                        assert forall|d: int| 0 <= d < D implies l[d] <= #[trigger] i1[d] < h[d] by {
                            assert(l[d] <= i0[d] < h[d]);
                        }
                    }
                    let r1 = rank(i1, l, h);
                    assert forall|c: [i64; D]| #[trigger] need.has(c) && rank(ints(c), l, h)
                        <= r1 implies some_box_has(cover@, c) by {
                        lemma_has_is_in_box(*need, c);
                        let rc = rank(ints(c), l, h);
                        if rc >= r {
                            let x = i0[0] + (rc - r);
                            let j = i0.update(0, x);
                            lemma_rank_along_row(i0, l, h, x);
                            assert(in_box(j, l, h)) by {
                                assert forall|d: int| 0 <= d < D implies l[d] <= #[trigger] j[d]
                                    < h[d] by {
                                    assert(l[d] <= i0[d] < h[d]);
                                }
                            }
                            lemma_rank(j, l, h);
                            lemma_rank(ints(c), l, h);
                            assert(ints(c) == j);
                            assert(b.has(c)) by {
                                assert forall|d: int| 0 <= d < D implies b.lo[d] <= #[trigger] c[d]
                                    < b.hi[d] by {
                                    assert(ints(c)[d] == j[d]);
                                    assert(b.lo[d] <= start[d] < b.hi[d]);
                                }
                            }
                            assert(cover@[k as int].has(c));
                        }
                    }
                    lemma_rank(i1, l, h);
                    r = r1 + 1;
                }
                more = next_cell(&mut idx, &lo, &hi);
            },
        }
    }
    proof {
        assert forall|c: [i64; D]| #[trigger] need.has(c) implies some_box_has(cover@, c) by {
            lemma_has_is_in_box(*need, c);
            lemma_rank(ints(c), l, h);
        }
    }
    true
}

/// Offset of a cell of a domain that starts at the origin, dimension 0 fastest.
pub fn domain_offset<const D: usize>(cell: &[i64; D], extent: &[usize; D]) -> (r: usize)
    requires
        in_ext(ints(*cell), usizes(*extent)),
        volume(usizes(*extent)) <= usize::MAX,
    ensures
        r == lin(ints(*cell), usizes(*extent)),
        r < volume(usizes(*extent)),
{
    let ghost c = ints(*cell);
    let ghost e = usizes(*extent);
    let mut offset: usize = 0;
    let mut stride: usize = 1;
    let mut d: usize = 0;
    proof {
        assert forall|k: int| 0 <= k < e.len() implies 0 < #[trigger] e[k] by {
            assert(0 <= c[k] < e[k]);
        }
        lemma_take_zero(c, e);
        lemma_lin_bounds(c, e);
    }
    while d < D
        invariant
            d <= D,
            c == ints(*cell),
            e == usizes(*extent),
            in_ext(c, e),
            positive(e),
            volume(e) <= usize::MAX,
            offset == lin(c.take(d as int), e.take(d as int)),
            stride == volume(e.take(d as int)),
        decreases D - d,
    {
        proof {
            lemma_lin_step(c, e, d as int);
            lemma_volume_prefix(e, d as int);
            lemma_volume_prefix(e, d + 1);
            lemma_lin_prefix_bounds(c, e, d + 1);
            assert(0 <= c[d as int] < e[d as int]);
            let s = stride as int;
            let x = e[d as int];
            let y = c[d as int];
            assert(0 <= s * y <= s * x) by (nonlinear_arith)
                requires
                    s >= 1,
                    0 <= y < x,
            ;
        }
        let at: usize = cell[d] as usize;
        assert(at * stride == stride * at) by (nonlinear_arith);
        offset = offset + at * stride;
        stride = stride * extent[d];
        d += 1;
    }
    proof {
        assert(c.take(d as int) =~= c);
        assert(e.take(d as int) =~= e);
    }
    offset
}

/// Paint `bx`'s cells with `pid` in a dimension-0-fastest map of `extent`.
pub fn paint<const D: usize>(map: &mut [u32], extent: &[usize; D], bx: &CellBox<D>, pid: u32)
    requires
        D > 0,
        old(map)@.len() == volume(usizes(*extent)),
        positive(usizes(*extent)),
        forall|d: int| 0 <= d < D ==> 0 <= #[trigger] bx.lo[d] && bx.hi[d] <= extent[d],
    ensures
        final(map)@.len() == old(map)@.len(),
        forall|c: [i64; D]|
            #![trigger lin(ints(c), usizes(*extent))]
            in_ext(ints(c), usizes(*extent)) ==> final(map)@[lin(ints(c), usizes(*extent))] == (
            if bx.has(c) {
                pid
            } else {
                old(map)@[lin(ints(c), usizes(*extent))]
            }),
{
    let ghost e = usizes(*extent);
    let ghost l = ints(bx.lo);
    let ghost h = ints(bx.hi);
    let ghost m0 = map@;
    let total = map.len();
    if !has_cells(bx) {
        proof {
            let d = choose|d: int| 0 <= d < D && (#[trigger] bx.lo[d]) >= bx.hi[d];
            assert forall|c: [i64; D]| bx.has(c) implies false by {
                assert(bx.lo[d] <= c[d] < bx.hi[d]);
            }
        }
        return;
    }
    let lo = bx.lo;
    let hi = bx.hi;
    let mut c = lo;
    let mut more = true;
    let ghost mut k: int = 0;
    proof {
        assert(in_box(ints(c), l, h)) by {
            assert forall|d: int| 0 <= d < D implies l[d] <= #[trigger] ints(c)[d] < h[d] by {
                assert(bx.lo[d] < bx.hi[d]);
            }
        }
        lemma_rank(ints(c), l, h);
        crate::geometry::index::lemma_lin_zero(minus(l, l), minus(h, l));
        assert forall|a: [i64; D]| in_ext(ints(a), e) implies !(bx.has(a) && rank(ints(a), l, h)
            < 0) by {
            if bx.has(a) {
                lemma_has_is_in_box(*bx, a);
                lemma_rank(ints(a), l, h);
            }
        }
    }
    while more
        invariant
            D > 0,
            lo == bx.lo,
            hi == bx.hi,
            l == ints(lo),
            h == ints(hi),
            e == usizes(*extent),
            positive(e),
            total == map@.len(),
            total == m0.len(),
            m0 == old(map)@,
            total == volume(e),
            forall|d: int| 0 <= d < D ==> 0 <= #[trigger] bx.lo[d] && bx.hi[d] <= extent[d],
            0 <= k <= volume(minus(h, l)),
            more ==> in_box(ints(c), l, h) && rank(ints(c), l, h) == k,
            !more ==> k == volume(minus(h, l)),
            forall|a: [i64; D]|
                #![trigger lin(ints(a), e)]
                in_ext(ints(a), e) ==> map@[lin(ints(a), e)] == (if bx.has(a) && rank(
                    ints(a),
                    l,
                    h,
                ) < k {
                    pid
                } else {
                    m0[lin(ints(a), e)]
                }),
        decreases volume(minus(h, l)) - k,
    {
        let ghost i = ints(c);
        let ghost before = map@;
        proof {
            lemma_rank(i, l, h);
            lemma_has_is_in_box(*bx, c);
            assert(in_ext(i, e)) by {
                assert forall|d: int| 0 <= d < D implies 0 <= #[trigger] i[d] < e[d] by {
                    assert(l[d] <= i[d] < h[d]);
                    assert(0 <= bx.lo[d] && bx.hi[d] <= extent[d]);
                }
            }
        }
        let off = domain_offset(&c, extent);
        map[off] = pid;
        proof {
            assert forall|a: [i64; D]|
                #![trigger lin(ints(a), e)]
                in_ext(ints(a), e) implies map@[lin(ints(a), e)] == (if bx.has(a) && rank(
                ints(a),
                l,
                h,
            ) < k + 1 {
                pid
            } else {
                m0[lin(ints(a), e)]
            }) by {
                lemma_lin_bounds(ints(a), e);
                if lin(ints(a), e) == off {
                    lemma_lin_injective(ints(a), i, e);
                    lemma_cell_ext(a, c);
                } else if bx.has(a) && rank(ints(a), l, h) == k {
                    lemma_has_is_in_box(*bx, a);
                    lemma_rank(ints(a), l, h);
                    assert(ints(a) == i);
                }
            }
            k = k + 1;
        }
        more = next_cell(&mut c, &lo, &hi);
    }
    proof {
        assert forall|a: [i64; D]|
            #![trigger lin(ints(a), e)]
            in_ext(ints(a), e) && bx.has(a) implies rank(ints(a), l, h) < k by {
            lemma_has_is_in_box(*bx, a);
            lemma_rank(ints(a), l, h);
        }
    }
}

/// Largest integer `q` with `q * r <= a`.
pub fn div_floor(a: i64, r: i64) -> (q: i64)
    requires
        r > 0,
    ensures
        q == (a as int) / (r as int),
{
    if a >= 0 {
        a / r
    } else {
        // The quotient of the non-negative reflection -1 - a, reflected back.
        let p: i64 = (-1 - a) / r;
        proof {
            let b = -1 - a as int;
            let m = b % (r as int);
            vstd::arithmetic::div_mod::lemma_fundamental_div_mod(b, r as int);
            vstd::arithmetic::div_mod::lemma_mod_bound(b, r as int);
            let d = r as int;
            let pi = p as int;
            assert(a == (-1 - pi) * d + (d - 1 - m)) by (nonlinear_arith)
                requires
                    b == -1 - a,
                    b == d * pi + m,
            ;
            vstd::arithmetic::div_mod::lemma_fundamental_div_mod_converse(
                a as int,
                d,
                -1 - pi,
                d - 1 - m,
            );
            assert(pi <= b) by (nonlinear_arith)
                requires
                    b == d * pi + m,
                    d > 0,
                    m >= 0,
                    pi >= 0,
            ;
        }
        -1 - p
    }
}

} // verus!
