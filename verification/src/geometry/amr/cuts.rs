//! Where a cluster of flags is cut: at an empty plane, else at an edge of the flag
//! distribution, else in the middle.
use vstd::multiset::Multiset;
use vstd::prelude::*;

use crate::engine::storage::Real;
use crate::geometry::amr::cluster::{
    above, accepts, below, bisection_split, bounding_of, clusters, hole_centrality, hole_split,
    in_plane, inflection_centrality, inflection_split, inflection_strength, is_best_hole,
    is_best_inflection, is_hole, is_inflection, is_longest, plane_count, signatures_of, split_of,
    CellBox, ClusterParams,
};

verus! {

/// An inner plane of the box without a flag.
pub open spec fn vacant<const D: usize>(
    cells: Multiset<[i64; D]>,
    bx: CellBox<D>,
    d: int,
    x: int,
) -> bool {
    &&& 0 <= d < D
    &&& bx.lo[d] < x < bx.hi[d] - 1
    &&& forall|c: [i64; D]| #[trigger] cells.contains(c) ==> c[d] != x
}

/// Distance of a plane from the nearer of two.
pub open spec fn nearer(x: int, low: int, high: int) -> int {
    if x - low <= high - x {
        x - low
    } else {
        high - x
    }
}

/// How much the number of flags per plane bends at a plane: its rise after it less its
/// rise before it.
pub open spec fn bend<const D: usize>(cells: Multiset<[i64; D]>, d: int, x: int) -> int {
    let rise = |y: int| plane_count(cells, d, y + 1) - plane_count(cells, d, y);
    rise(x) - rise(x - 1)
}

/// The distribution of flags has an edge below plane `x`: it bends one way on the one side
/// and the other way on the other. A cut there leaves both parts `w` planes.
pub open spec fn edge<const D: usize>(
    cells: Multiset<[i64; D]>,
    bx: CellBox<D>,
    w: int,
    d: int,
    x: int,
) -> bool {
    &&& 0 <= d < D
    &&& bx.lo[d] + 2 <= x <= bx.hi[d] - 2
    &&& x - bx.lo[d] >= w
    &&& bx.hi[d] - x >= w
    &&& (bend(cells, d, x - 1) < 0 < bend(cells, d, x)) || (bend(cells, d, x) < 0 < bend(
        cells,
        d,
        x - 1,
    ))
}

/// How far apart the bends on the two sides of a plane are.
pub open spec fn prominence<const D: usize>(cells: Multiset<[i64; D]>, d: int, x: int) -> int {
    let jump = bend(cells, d, x) - bend(cells, d, x - 1);
    if jump < 0 {
        -jump
    } else {
        jump
    }
}

/// Of two places, the first outranks the second, or they rank alike and it comes first.
spec fn beats(
    s: spec_fn(int, int) -> int,
    c: spec_fn(int, int) -> int,
    d: int,
    i: int,
    e: int,
    j: int,
) -> bool {
    ||| s(e, j) < s(d, i)
    ||| s(e, j) == s(d, i) && c(e, j) < c(d, i)
    ||| s(e, j) == s(d, i) && c(e, j) == c(d, i) && (d < e || (d == e && i <= j))
}

spec fn scanned(n: spec_fn(int) -> nat, a: int, b: int, d: int, i: int) -> bool {
    (0 <= d < a && 0 <= i < n(d)) || (d == a && 0 <= i < b)
}

/// Among finitely many places one beats all others.
proof fn lemma_best(
    ok: spec_fn(int, int) -> bool,
    s: spec_fn(int, int) -> int,
    c: spec_fn(int, int) -> int,
    n: spec_fn(int) -> nat,
    a: int,
    b: int,
) -> (r: Option<(int, int)>)
    requires
        0 <= a,
        0 <= b,
    ensures
        match r {
            Some((d, i)) => ok(d, i) && forall|e: int, j: int| #[trigger]
                ok(e, j) && scanned(n, a, b, e, j) ==> beats(s, c, d, i, e, j),
            None => forall|e: int, j: int| scanned(n, a, b, e, j) ==> !#[trigger] ok(e, j),
        },
        r matches Some((d, i)) ==> scanned(n, a, b, d, i),
    decreases a, b,
{
    if b > 0 {
        let before = lemma_best(ok, s, c, n, a, b - 1);
        let j = b - 1;
        if ok(a, j) {
            match before {
                None => Some((a, j)),
                Some((d, i)) => if s(a, j) > s(d, i) || (s(a, j) == s(d, i) && c(a, j) > c(d, i)) {
                    Some((a, j))
                } else {
                    before
                },
            }
        } else {
            before
        }
    } else if a > 0 {
        lemma_best(ok, s, c, n, a - 1, n(a - 1) as int)
    } else {
        None
    }
}

proof fn lemma_vacant<const D: usize>(cells: Multiset<[i64; D]>, bx: CellBox<D>, d: int, i: int)
    requires
        0 <= d < D,
    ensures
        is_hole(signatures_of(cells, bx), d, i) <==> vacant(cells, bx, d, bx.lo[d] + i),
{
    broadcast use vstd::multiset::group_multiset_axioms;

    let x = bx.lo[d] + i;
    let here = cells.filter(in_plane(d, x));
    vstd::multiset::lemma_multiset_empty_len(here);
    if forall|c: [i64; D]| #[trigger] cells.contains(c) ==> c[d] != x {
        assert forall|c: [i64; D]| here.count(c) == 0 by {
            if c[d] == x {
                assert(!cells.contains(c));
            }
        }
        assert(here =~= Multiset::empty());
    }
    if here.len() == 0 {
        assert forall|c: [i64; D]| #[trigger] cells.contains(c) implies c[d] != x by {
            if c[d] == x {
                assert(in_plane(d, x)(c));
                assert(here.count(c) == cells.count(c));
            }
        }
    }
}

/// Empty planes are cut first: where the box has an inner plane without flags, it is cut at
/// such a plane, at the one farthest from the box's end planes, the first one among equals.
pub proof fn islands_are_cut_apart<const D: usize>(
    cells: Multiset<[i64; D]>,
    bx: CellBox<D>,
    w: int,
    e: int,
    y: int,
)
    requires
        vacant(cells, bx, e, y),
    ensures
        match split_of(cells, bx, w) {
            Some((d, offset)) => {
                let x = bx.lo[d] + offset;
                let here = nearer(x, bx.lo[d] as int, bx.hi[d] - 1);
                let there = nearer(y, bx.lo[e] as int, bx.hi[e] - 1);
                &&& vacant(cells, bx, d, x)
                &&& there < here || (there == here && (d < e || (d == e && x <= y)))
            },
            None => false,
        },
{
    let sigs = signatures_of(cells, bx);
    let ok = |d: int, i: int| is_hole(sigs, d, i);
    let s = |d: int, i: int| nearer(bx.lo[d] + i, bx.lo[d] as int, bx.hi[d] - 1);
    let c = |d: int, i: int| 0int;
    let n = |d: int| bx.width(d) as nat;
    lemma_vacant(cells, bx, e, y - bx.lo[e]);
    assert(ok(e, y - bx.lo[e]));
    let best = lemma_best(ok, s, c, n, D as int, 0);
    assert(scanned(n, D as int, 0, e, y - bx.lo[e]));
    let (d, i) = best->0;
    assert(is_best_hole(sigs, d, i)) by {
        assert(ok(d, i));
        assert forall|f: int, j: int| #[trigger] is_hole(sigs, f, j) implies ({
            let p = hole_centrality(sigs, f, j);
            let q = hole_centrality(sigs, d, i);
            p < q || (p == q && (d < f || (d == f && i <= j)))
        }) by {
            assert(ok(f, j));
            assert(scanned(n, D as int, 0, f, j));
        }
    }
    let (a, k) = hole_split(sigs)->0;
    assert(is_best_hole(sigs, a, k));
    lemma_vacant(cells, bx, a, k);
    assert(is_hole(sigs, e, y - bx.lo[e]));
}

proof fn lemma_edge<const D: usize>(
    cells: Multiset<[i64; D]>,
    bx: CellBox<D>,
    w: int,
    d: int,
    i: int,
)
    requires
        0 <= d < D,
    ensures
        is_inflection(signatures_of(cells, bx), w, d, i) <==> edge(
            cells,
            bx,
            w,
            d,
            bx.lo[d] + i + 1,
        ),
        is_inflection(signatures_of(cells, bx), w, d, i) ==> {
            let x = bx.lo[d] + i + 1;
            &&& inflection_strength(signatures_of(cells, bx), d, i)
                == prominence(cells, d, x)
            &&& inflection_centrality(signatures_of(cells, bx), d, i)
                == nearer(x, bx.lo[d] as int, bx.hi[d] as int)
        },
{
    let sig = signatures_of(cells, bx)[d];
    if 1 <= i < sig.len() - 2 {
        let x = bx.lo[d] + i;
        assert(sig[i - 1] == plane_count(cells, d, x - 1));
        assert(sig[i] == plane_count(cells, d, x));
        assert(sig[i + 1] == plane_count(cells, d, x + 1));
        assert(sig[i + 2] == plane_count(cells, d, x + 2));
    }
}

/// Without an empty plane, edges are cut next: where the distribution of flags has an edge
/// wide enough apart from both ends, the box is cut at the most prominent one; among equals
/// at the one farthest from the ends, and then at the first.
pub proof fn edges_are_cut_next<const D: usize>(
    cells: Multiset<[i64; D]>,
    bx: CellBox<D>,
    w: int,
    e: int,
    y: int,
)
    requires
        forall|d: int, x: int| !#[trigger] vacant(cells, bx, d, x),
        edge(cells, bx, w, e, y),
    ensures
        match split_of(cells, bx, w) {
            Some((d, offset)) => {
                let x = bx.lo[d] + offset;
                let (p, q) = (prominence(cells, d, x), prominence(cells, e, y));
                let here = nearer(x, bx.lo[d] as int, bx.hi[d] as int);
                let there = nearer(y, bx.lo[e] as int, bx.hi[e] as int);
                &&& edge(cells, bx, w, d, x)
                &&& q < p || (q == p && (there < here || (there == here && (d < e || (d == e && x
                    <= y)))))
            },
            None => false,
        },
{
    let sigs = signatures_of(cells, bx);
    lemma_no_holes(cells, bx);
    let ok = |d: int, i: int| is_inflection(sigs, w, d, i);
    let s = |d: int, i: int| prominence(cells, d, bx.lo[d] + i + 1);
    let c = |d: int, i: int| nearer(bx.lo[d] + i + 1, bx.lo[d] as int, bx.hi[d] as int);
    let n = |d: int| bx.width(d) as nat;
    let m = y - bx.lo[e] - 1;
    lemma_edge(cells, bx, w, e, m);
    assert(ok(e, m));
    let best = lemma_best(ok, s, c, n, D as int, 0);
    assert(scanned(n, D as int, 0, e, m));
    let (d, i) = best->0;
    assert(is_best_inflection(sigs, w, d, i)) by {
        assert(ok(d, i));
        lemma_edge(cells, bx, w, d, i);
        assert forall|f: int, j: int| #[trigger] is_inflection(sigs, w, f, j) implies beats(
            s,
            c,
            d,
            i,
            f,
            j,
        ) && inflection_strength(sigs, f, j) == s(f, j)
            && inflection_centrality(sigs, f, j) == c(f, j) by {
            lemma_edge(cells, bx, w, f, j);
            assert(ok(f, j));
            assert(scanned(n, D as int, 0, f, j));
        }
    }
    let (a, k) = choose|a: int, k: int| is_best_inflection(sigs, w, a, k);
    assert(is_best_inflection(sigs, w, a, k));
    assert(inflection_split(sigs, w) == Some((a, k + 1)));
    lemma_edge(cells, bx, w, a, k);
    assert(is_inflection(sigs, w, e, m));
}

proof fn lemma_no_holes<const D: usize>(cells: Multiset<[i64; D]>, bx: CellBox<D>)
    requires
        forall|d: int, x: int| !#[trigger] vacant(cells, bx, d, x),
    ensures
        hole_split(signatures_of(cells, bx)) is None,
{
    let sigs = signatures_of(cells, bx);
    assert forall|d: int, i: int| !#[trigger] is_best_hole(sigs, d, i) by {
        if is_hole(sigs, d, i) {
            lemma_vacant(cells, bx, d, i);
            assert(vacant(cells, bx, d, bx.lo[d] + i));
        }
    }
}

proof fn lemma_longest<const D: usize>(bx: CellBox<D>, n: int) -> (d: int)
    requires
        0 < n <= D,
    ensures
        0 <= d < n,
        forall|e: int| 0 <= e < n ==> #[trigger] bx.width(e) <= bx.width(d),
        forall|e: int| d < e < n ==> #[trigger] bx.width(e) < bx.width(d),
    decreases n,
{
    if n == 1 {
        0
    } else {
        let d = lemma_longest(bx, n - 1);
        if bx.width(d) <= bx.width(n - 1) {
            n - 1
        } else {
            d
        }
    }
}

/// Without an empty plane or an edge, the box is halved: its longest axis, the last one
/// among equals, is cut into a lower part and one that is as wide or one plane wider. Where
/// that leaves a part fewer than `w` planes, the box is not cut.
pub proof fn boxes_are_halved_last<const D: usize>(
    cells: Multiset<[i64; D]>,
    bx: CellBox<D>,
    w: int,
    e: int,
)
    requires
        0 <= e < D,
        0 < w,
        forall|d: int| 0 <= d < D ==> #[trigger] bx.lo[d] <= bx.hi[d],
        forall|d: int, x: int| !#[trigger] vacant(cells, bx, d, x),
        forall|d: int, x: int| !#[trigger] edge(cells, bx, w, d, x),
    ensures
        match split_of(cells, bx, w) {
            Some((d, offset)) => {
                let x = bx.lo[d] + offset;
                &&& 0 <= d < D
                &&& 0 <= (bx.hi[d] - x) - (x - bx.lo[d]) <= 1
                &&& x - bx.lo[d] >= w
                &&& bx.hi[e] - bx.lo[e] < bx.hi[d] - bx.lo[d] || (bx.hi[e] - bx.lo[e] == bx.hi[d]
                    - bx.lo[d] && e <= d)
            },
            None => bx.hi[e] - bx.lo[e] < 2 * w,
        },
{
    let sigs = signatures_of(cells, bx);
    lemma_no_holes(cells, bx);
    assert forall|d: int, i: int| !#[trigger] is_best_inflection(sigs, w, d, i) by {
        if is_inflection(sigs, w, d, i) {
            lemma_edge(cells, bx, w, d, i);
            assert(edge(cells, bx, w, d, bx.lo[d] + i + 1));
        }
    }
    assert(inflection_split(sigs, w) is None);
    let d = lemma_longest(bx, D as int);
    assert(is_longest(bx, d));
    let a = choose|a: int| is_longest(bx, a);
    assert(is_longest(bx, a));
    assert(bx.width(e) <= bx.width(a));
    assert(bx.lo[e] <= bx.hi[e]);
    assert(bx.lo[a] <= bx.hi[a]);
    if e > a {
        assert(bx.width(e) < bx.width(a));
    }
    assert(split_of(cells, bx, w) == bisection_split(bx, w));
}

/// Cut flags are clustered apart: where a box is not accepted and is cut at a plane with
/// flags on both sides, the boxes are those of the flags below the plane, followed by those
/// of the flags from the plane on.
pub proof fn cut_flags_are_clustered_apart<R: Real, const D: usize>(
    lower: Multiset<[i64; D]>,
    upper: Multiset<[i64; D]>,
    params: ClusterParams<R>,
    axis: int,
    x: int,
)
    requires
        lower.len() > 0,
        upper.len() > 0,
        forall|c: [i64; D]| #[trigger] lower.contains(c) ==> c[axis] < x,
        forall|c: [i64; D]| #[trigger] upper.contains(c) ==> c[axis] >= x,
        ({
            let cells = lower.add(upper);
            let bx = bounding_of(cells);
            &&& !accepts(cells.len(), bx, params.efficiency)
            &&& split_of(cells, bx, params.min_width as int) == Some((axis, x - bx.lo[axis]))
        }),
    ensures
        clusters(lower.add(upper), params) == clusters(lower, params) + clusters(upper, params),
{
    broadcast use vstd::multiset::group_multiset_axioms;

    let cells = lower.add(upper);
    assert forall|c: [i64; D]|
        below(cells, axis, x).count(c) == lower.count(c) && above(cells, axis, x).count(c)
            == upper.count(c) by {
        if lower.contains(c) {
            assert(c[axis] < x);
        }
        if upper.contains(c) {
            assert(c[axis] >= x);
        }
    }
    assert(below(cells, axis, x) =~= lower);
    assert(above(cells, axis, x) =~= upper);
}

} // verus!
