//! Berger–Rigoutsos point clustering: a pure function from flagged cells to
//! disjoint enclosing boxes.
//!
//! Per candidate set of flags, always first shrunk to its bounding box:
//!
//! 1. **Accept** if flagged/cells reaches the efficiency threshold.
//! 2. **Holes**: split at the most central interior zero of any per-axis
//!    signature (count of flags per coordinate plane).
//! 3. **Inflections**: otherwise split at the strongest sign change of a
//!    signature's second difference.
//! 4. **Bisection**: otherwise bisect the longest axis.
//! 5. Accept unsplittable boxes as they are.

use vstd::multiset::Multiset;
use vstd::prelude::*;

use crate::engine::exact::{exact, order_exact};
use crate::engine::storage::Real;
use crate::geometry::index::{array_of, lemma_array_of, lemma_lin_step, volume};

verus! {

/// An axis-aligned box of cells, half-open: `lo[d] <= c[d] < hi[d]`.
///
/// Coordinates are cell indices at one refinement level; the box knows
/// nothing about physical geometry.
#[derive(Debug, Clone, Copy, PartialEq, Eq, PartialOrd, Ord)]
pub struct CellBox<const D: usize> {
    /// Inclusive lower cell index per axis.
    pub lo: [i64; D],
    /// Exclusive upper cell index per axis.
    pub hi: [i64; D],
}

/// Some cell of the collection has coordinate `x` along axis `d`.
pub open spec fn touches<const D: usize>(cells: Multiset<[i64; D]>, d: int, x: int) -> bool {
    exists|c: [i64; D]| #[trigger] cells.contains(c) && c[d] == x
}

/// Two boxes with the same corners are the same box.
pub proof fn lemma_box_ext<const D: usize>(a: CellBox<D>, b: CellBox<D>)
    requires
        forall|d: int| 0 <= d < D ==> #[trigger] a.lo[d] == b.lo[d],
        forall|d: int| 0 <= d < D ==> #[trigger] a.hi[d] == b.hi[d],
    ensures
        a == b,
{
    assert(a.lo =~= b.lo);
    assert(a.hi =~= b.hi);
}

impl<const D: usize> CellBox<D> {
    /// `c` lies inside the box.
    pub open spec fn has(self, c: [i64; D]) -> bool {
        forall|d: int| 0 <= d < D ==> self.lo[d] <= #[trigger] c[d] < self.hi[d]
    }

    /// The widths are signed 64-bit numbers.
    pub open spec fn spans_fit(self) -> bool {
        forall|d: int| 0 <= d < D ==> (#[trigger] self.hi[d]) - self.lo[d] <= i64::MAX
    }

    /// Number of cells along `d`: none where the corners are in reverse.
    pub open spec fn width(self, d: int) -> int {
        if self.lo[d] <= self.hi[d] {
            self.hi[d] - self.lo[d]
        } else {
            0
        }
    }

    /// Widths along every axis.
    pub open spec fn widths(self) -> Seq<int> {
        Seq::new(D as nat, |d: int| self.width(d))
    }

    /// The number of cells, capped at the largest 64-bit word.
    pub open spec fn count(self) -> int {
        if volume(self.widths()) <= u64::MAX {
            volume(self.widths())
        } else {
            u64::MAX as int
        }
    }

    /// The tight bounding box of a collection of cells: it holds them all and
    /// every face touches one of them.
    pub open spec fn bounds(self, cells: Multiset<[i64; D]>) -> bool {
        &&& forall|c: [i64; D]| #[trigger] cells.contains(c) ==> self.has(c)
        &&& forall|d: int| 0 <= d < D ==> touches(cells, d, #[trigger] self.lo[d] as int)
        &&& forall|d: int| 0 <= d < D ==> touches(cells, d, (#[trigger] self.hi[d]) - 1)
    }

    /// The tight bounding box of a nonempty set of cells.
    pub fn bounding(cells: &[[i64; D]]) -> (r: Self)
        requires
            cells@.len() > 0,
            forall|i: int, d: int|
                0 <= i < cells@.len() && 0 <= d < D ==> (#[trigger] cells@[i][d]) < i64::MAX,
        ensures
            r.bounds(cells@.to_multiset()),
    {
        let mut lo = cells[0];
        let mut hi = cells[0];
        let ghost mut lo_at: Seq<int> = Seq::new(D as nat, |d: int| 0int);
        let ghost mut hi_at: Seq<int> = Seq::new(D as nat, |d: int| 0int);
        let mut i: usize = 1;
        while i < cells.len()
            invariant
                1 <= i <= cells@.len(),
                lo_at.len() == D,
                hi_at.len() == D,
                forall|j: int, d: int|
                    0 <= j < i && 0 <= d < D ==> lo[d] <= (#[trigger] cells@[j][d]) <= hi[d],
                forall|d: int|
                    0 <= d < D ==> 0 <= #[trigger] lo_at[d] < i && cells@[lo_at[d]][d] == lo[d],
                forall|d: int|
                    0 <= d < D ==> 0 <= #[trigger] hi_at[d] < i && cells@[hi_at[d]][d] == hi[d],
            decreases cells.len() - i,
        {
            let c = cells[i];
            let ghost lo0 = lo;
            let ghost hi0 = hi;
            let mut d: usize = 0;
            while d < D
                invariant
                    d <= D,
                    forall|e: int| d <= e < D ==> #[trigger] lo[e] == lo0[e],
                    forall|e: int| d <= e < D ==> #[trigger] hi[e] == hi0[e],
                    forall|e: int|
                        0 <= e < d ==> #[trigger] lo[e] == (if c[e] < lo0[e] {
                            c[e]
                        } else {
                            lo0[e]
                        }),
                    forall|e: int|
                        0 <= e < d ==> #[trigger] hi[e] == (if c[e] > hi0[e] {
                            c[e]
                        } else {
                            hi0[e]
                        }),
                decreases D - d,
            {
                if c[d] < lo[d] {
                    lo[d] = c[d];
                }
                if c[d] > hi[d] {
                    hi[d] = c[d];
                }
                d += 1;
            }
            proof {
                let l1 = Seq::new(
                    D as nat,
                    |e: int|
                        if c[e] < lo0[e] {
                            i as int
                        } else {
                            lo_at[e]
                        },
                );
                let h1 = Seq::new(
                    D as nat,
                    |e: int|
                        if c[e] > hi0[e] {
                            i as int
                        } else {
                            hi_at[e]
                        },
                );
                assert forall|e: int| 0 <= e < D implies 0 <= #[trigger] l1[e] < i + 1
                    && cells@[l1[e]][e] == lo[e] by {
                    assert(0 <= lo_at[e] < i && cells@[lo_at[e]][e] == lo0[e]);
                }
                assert forall|e: int| 0 <= e < D implies 0 <= #[trigger] h1[e] < i + 1
                    && cells@[h1[e]][e] == hi[e] by {
                    assert(0 <= hi_at[e] < i && cells@[hi_at[e]][e] == hi0[e]);
                }
                lo_at = l1;
                hi_at = h1;
            }
            i += 1;
        }
        let ghost top = hi;
        proof {
            assert forall|e: int| 0 <= e < D implies #[trigger] top[e] < i64::MAX by {
                assert(cells@[hi_at[e]][e] == hi[e]);
            }
        }
        let mut d: usize = 0;
        while d < D
            invariant
                d <= D,
                forall|e: int| 0 <= e < D ==> #[trigger] top[e] < i64::MAX,
                forall|e: int| d <= e < D ==> #[trigger] hi[e] == top[e],
                forall|e: int| 0 <= e < d ==> #[trigger] hi[e] == top[e] + 1,
            decreases D - d,
        {
            assert(hi[d as int] == top[d as int]);
            hi[d] = hi[d] + 1;
            d += 1;
        }
        proof {
            broadcast use vstd::seq_lib::group_to_multiset_ensures;

            let m = cells@.to_multiset();
            let r = CellBox { lo, hi };
            assert forall|c: [i64; D]| #[trigger] m.contains(c) implies r.has(c) by {
                assert(cells@.contains(c));
                let j = choose|j: int| 0 <= j < cells@.len() && cells@[j] == c;
                assert forall|d: int| 0 <= d < D implies r.lo[d] <= #[trigger] c[d] < r.hi[d] by {
                    assert(lo[d] <= cells@[j][d] <= top[d]);
                    assert(hi[d] == top[d] + 1);
                }
            }
            assert forall|d: int| 0 <= d < D implies touches(m, d, #[trigger] r.lo[d] as int) by {
                let c = cells@[lo_at[d]];
                assert(cells@.contains(c));
                assert(m.contains(c) && c[d] == r.lo[d]);
            }
            assert forall|d: int| 0 <= d < D implies touches(m, d, (#[trigger] r.hi[d]) - 1) by {
                let c = cells@[hi_at[d]];
                assert(cells@.contains(c));
                assert(hi[d] == top[d] + 1);
                assert(m.contains(c) && c[d] == r.hi[d] - 1);
            }
        }
        CellBox { lo, hi }
    }

    /// Extent (number of cells) along axis `d`.
    pub fn extent(&self, d: usize) -> (r: u64)
        requires
            d < D,
            self.hi[d as int] - self.lo[d as int] <= i64::MAX,
        ensures
            r == self.width(d as int),
    {
        if self.lo[d] <= self.hi[d] {
            (self.hi[d] - self.lo[d]) as u64
        } else {
            0
        }
    }

    /// Total number of cells (saturating on overflow).
    pub fn cells(&self) -> (r: u64)
        requires
            self.spans_fit(),
        ensures
            r == self.count(),
    {
        let mut acc: u64 = 1;
        let mut d: usize = 0;
        let ghost ext = self.widths();
        while d < D
            invariant
                d <= D,
                self.spans_fit(),
                ext == self.widths(),
                0 <= volume(ext.take(d as int)),
                acc == (if volume(ext.take(d as int)) <= u64::MAX {
                    volume(ext.take(d as int))
                } else {
                    u64::MAX as int
                }),
            decreases D - d,
        {
            assert(self.hi[d as int] - self.lo[d as int] <= i64::MAX);
            let w: u64 = self.extent(d);
            proof {
                lemma_lin_step(ext, ext, d as int);
                let v = volume(ext.take(d as int));
                let e = ext[d as int];
                assert(0 <= v * e) by (nonlinear_arith)
                    requires
                        0 <= v,
                        0 <= e,
                ;
                assert(v > u64::MAX && e >= 1 ==> v * e > u64::MAX && u64::MAX * e >= u64::MAX)
                    by (nonlinear_arith);
                assert(v * 0 == 0);
                assert(u64::MAX * 0 == 0);
            }
            acc = match acc.checked_mul(w) {
                Some(p) => p,
                None => u64::MAX,
            };
            d += 1;
        }
        assert(ext.take(d as int) =~= ext);
        acc
    }

    /// Whether `c` lies inside the box.
    pub fn contains(&self, c: [i64; D]) -> (r: bool)
        ensures
            r == self.has(c),
    {
        let mut d: usize = 0;
        while d < D
            invariant
                d <= D,
                forall|e: int| 0 <= e < d ==> self.lo[e] <= #[trigger] c[e] < self.hi[e],
            decreases D - d,
        {
            if c[d] < self.lo[d] || c[d] >= self.hi[d] {
                return false;
            }
            d += 1;
        }
        true
    }

    /// The two boxes have cells, and overlap along every axis.
    pub open spec fn meets(self, other: Self) -> bool {
        forall|d: int|
            0 <= d < D ==> {
                &&& (#[trigger] self.lo[d]) < self.hi[d]
                &&& other.lo[d] < other.hi[d]
                &&& self.lo[d] < other.hi[d]
                &&& other.lo[d] < self.hi[d]
            }
    }

    /// Whether the two boxes share any cell.
    pub fn intersects(&self, other: &Self) -> (r: bool)
        ensures
            r == self.meets(*other),
            r == exists|c: [i64; D]| #[trigger] self.has(c) && other.has(c),
    {
        proof {
            intersection_is_a_shared_cell(*self, *other);
        }
        let mut d: usize = 0;
        while d < D
            invariant
                d <= D,
                self.meets(*other) == exists|c: [i64; D]| #[trigger]
                    self.has(c) && other.has(c),
                forall|e: int|
                    0 <= e < d ==> {
                        &&& (#[trigger] self.lo[e]) < self.hi[e]
                        &&& other.lo[e] < other.hi[e]
                        &&& self.lo[e] < other.hi[e]
                        &&& other.lo[e] < self.hi[e]
                    },
            decreases D - d,
        {
            let empty = self.lo[d] >= self.hi[d] || other.lo[d] >= other.hi[d];
            if empty || self.lo[d] >= other.hi[d] || other.lo[d] >= self.hi[d] {
                return false;
            }
            d += 1;
        }
        true
    }

    /// The box grown by `b` cells on every face (the regrid *buffer zone*:
    /// what lets a moving feature stay inside its patch between regrids).
    pub fn grown(&self, b: i64) -> (r: Self)
        requires
            forall|d: int|
                0 <= d < D ==> i64::MIN <= (#[trigger] self.lo[d]) - b <= i64::MAX && i64::MIN
                    <= self.hi[d] + b <= i64::MAX,
        ensures
            forall|d: int| 0 <= d < D ==> #[trigger] r.lo[d] == self.lo[d] - b,
            forall|d: int| 0 <= d < D ==> #[trigger] r.hi[d] == self.hi[d] + b,
    {
        let mut lo = self.lo;
        let mut hi = self.hi;
        let mut d: usize = 0;
        while d < D
            invariant
                d <= D,
                forall|e: int|
                    0 <= e < D ==> i64::MIN <= (#[trigger] self.lo[e]) - b <= i64::MAX && i64::MIN
                        <= self.hi[e] + b <= i64::MAX,
                forall|e: int| 0 <= e < d ==> #[trigger] lo[e] == self.lo[e] - b,
                forall|e: int| 0 <= e < d ==> #[trigger] hi[e] == self.hi[e] + b,
                forall|e: int| d <= e < D ==> #[trigger] lo[e] == self.lo[e],
                forall|e: int| d <= e < D ==> #[trigger] hi[e] == self.hi[e],
            decreases D - d,
        {
            assert(self.lo[d as int] - b <= i64::MAX);
            lo[d] = lo[d] - b;
            hi[d] = hi[d] + b;
            d += 1;
        }
        CellBox { lo, hi }
    }

    /// The box clipped to `domain` (empty extents possible if disjoint).
    pub fn clipped(&self, domain: &Self) -> (r: Self)
        ensures
            forall|d: int|
                0 <= d < D ==> #[trigger] r.lo[d] == (if self.lo[d] >= domain.lo[d] {
                    self.lo[d]
                } else {
                    domain.lo[d]
                }),
            forall|d: int|
                0 <= d < D ==> #[trigger] r.hi[d] == ({
                    let h = if self.hi[d] <= domain.hi[d] {
                        self.hi[d]
                    } else {
                        domain.hi[d]
                    };
                    if h >= r.lo[d] {
                        h
                    } else {
                        r.lo[d]
                    }
                }),
            forall|c: [i64; D]| #[trigger] r.has(c) <==> self.has(c) && domain.has(c),
    {
        let mut lo = self.lo;
        let mut hi = self.hi;
        let mut d: usize = 0;
        while d < D
            invariant
                d <= D,
                forall|e: int|
                    0 <= e < d ==> #[trigger] lo[e] == (if self.lo[e] >= domain.lo[e] {
                        self.lo[e]
                    } else {
                        domain.lo[e]
                    }),
                forall|e: int|
                    0 <= e < d ==> #[trigger] hi[e] == ({
                        let h = if self.hi[e] <= domain.hi[e] {
                            self.hi[e]
                        } else {
                            domain.hi[e]
                        };
                        if h >= lo[e] {
                            h
                        } else {
                            lo[e]
                        }
                    }),
                forall|e: int| d <= e < D ==> #[trigger] lo[e] == self.lo[e],
                forall|e: int| d <= e < D ==> #[trigger] hi[e] == self.hi[e],
            decreases D - d,
        {
            if lo[d] < domain.lo[d] {
                lo[d] = domain.lo[d];
            }
            if hi[d] > domain.hi[d] {
                hi[d] = domain.hi[d];
            }
            if hi[d] < lo[d] {
                hi[d] = lo[d];
            }
            d += 1;
        }
        let r = CellBox { lo, hi };
        assert forall|c: [i64; D]| #[trigger] r.has(c) <==> self.has(c) && domain.has(c) by {
            if r.has(c) {
                assert forall|d: int| 0 <= d < D implies self.lo[d] <= #[trigger] c[d] < self.hi[d]
                    && domain.lo[d] <= c[d] < domain.hi[d] by {
                    assert(r.lo[d] <= c[d] < r.hi[d]);
                }
            }
            if self.has(c) && domain.has(c) {
                assert forall|d: int| 0 <= d < D implies r.lo[d] <= #[trigger] c[d] < r.hi[d] by {
                    assert(self.lo[d] <= c[d] < self.hi[d]);
                    assert(domain.lo[d] <= c[d] < domain.hi[d]);
                    assert(r.lo[d] >= self.lo[d]);
                }
            }
        }
        r
    }
}

/// Boxes intersect exactly when some cell lies in both.
pub proof fn intersection_is_a_shared_cell<const D: usize>(a: CellBox<D>, b: CellBox<D>)
    ensures
        a.meets(b) <==> exists|c: [i64; D]| #[trigger] a.has(c) && b.has(c),
{
    if a.meets(b) {
        let s = Seq::new(
            D as nat,
            |d: int|
                if a.lo[d] >= b.lo[d] {
                    a.lo[d]
                } else {
                    b.lo[d]
                },
        );
        let c = array_of::<D>(s);
        lemma_array_of::<D>(s);
        assert(a.has(c) && b.has(c));
    }
    if exists|c: [i64; D]| #[trigger] a.has(c) && b.has(c) {
        let c = choose|c: [i64; D]| #[trigger] a.has(c) && b.has(c);
        assert forall|d: int| 0 <= d < D implies {
            &&& (#[trigger] a.lo[d]) < a.hi[d]
            &&& b.lo[d] < b.hi[d]
            &&& a.lo[d] < b.hi[d]
            &&& b.lo[d] < a.hi[d]
        } by {
            assert(a.lo[d] <= c[d] < a.hi[d]);
            assert(b.lo[d] <= c[d] < b.hi[d]);
        }
    }
}

/// Knobs of the clustering algorithm.
#[derive(Debug, Clone, Copy)]
pub struct ClusterParams<R> {
    /// Minimum acceptable flagged/cells ratio of an output box, in (0, 1].
    pub efficiency: R,
    /// Minimum box width a *split* may produce, per axis (bounding-box
    /// shrinkage may still yield thinner boxes).
    pub min_width: usize,
}

impl<R: Real> Default for ClusterParams<R> {
    fn default() -> (r: Self)
        ensures
            r.efficiency == R::from_u64_spec(4).div_spec(R::from_u64_spec(5)),
            r.min_width == 4,
    {
        ClusterParams { efficiency: R::from_u64(4).div(R::from_u64(5)), min_width: 4 }
    }
}

/// Coordinates leave room for half-open bounds and for widths that can index
/// memory.
pub open spec fn cells_fit<const D: usize>(cells: Multiset<[i64; D]>) -> bool {
    &&& forall|c: [i64; D], d: int|
        #![trigger cells.contains(c), c[d]]
        cells.contains(c) && 0 <= d < D ==> c[d] < i64::MAX
    &&& forall|a: [i64; D], b: [i64; D], d: int|
        #![trigger cells.contains(a), cells.contains(b), a[d]]
        cells.contains(a) && cells.contains(b) && 0 <= d < D ==> a[d] - b[d] < i64::MAX && a[d]
            - b[d] < usize::MAX
}

/// The cells of plane `x` of axis `d`.
pub open spec fn in_plane<const D: usize>(d: int, x: int) -> spec_fn([i64; D]) -> bool {
    |c: [i64; D]| c[d] == x
}

/// Number of flags in plane `x` of axis `d`.
pub open spec fn plane_count<const D: usize>(cells: Multiset<[i64; D]>, d: int, x: int) -> nat {
    cells.filter(in_plane(d, x)).len()
}

/// Signature along every axis of a box: entry `i` of axis `d` counts the flags
/// in plane `lo[d] + i`.
pub open spec fn signatures_of<const D: usize>(
    cells: Multiset<[i64; D]>,
    bx: CellBox<D>,
) -> Seq<Seq<int>> {
    Seq::new(
        D as nat,
        |d: int|
            Seq::new(
                bx.width(d) as nat,
                |i: int| plane_count(cells, d, bx.lo[d] + i) as int,
            ),
    )
}

/// `(d, i)` comes no later than `(e, j)` when axes are scanned in order and
/// positions in order within an axis.
pub open spec fn scans_first(d: int, i: int, e: int, j: int) -> bool {
    d < e || (d == e && i <= j)
}

/// Plane `i` of axis `d` is an interior plane without flags.
pub open spec fn is_hole(sigs: Seq<Seq<int>>, d: int, i: int) -> bool {
    0 <= d < sigs.len() && 1 <= i < sigs[d].len() - 1 && sigs[d][i] == 0
}

/// Distance of plane `i` to the nearer end plane of axis `d`.
pub open spec fn hole_centrality(sigs: Seq<Seq<int>>, d: int, i: int) -> int {
    let n = sigs[d].len() as int;
    if i <= n - 1 - i {
        i
    } else {
        n - 1 - i
    }
}

/// The most central hole, the first one scanned among equals.
pub open spec fn is_best_hole(sigs: Seq<Seq<int>>, d: int, i: int) -> bool {
    &&& is_hole(sigs, d, i)
    &&& forall|e: int, j: int| #[trigger]
        is_hole(sigs, e, j) ==> hole_centrality(sigs, e, j) < hole_centrality(sigs, d, i) || (
        hole_centrality(sigs, e, j) == hole_centrality(sigs, d, i) && scans_first(d, i, e, j))
}

/// Split position offered by the holes: an axis and an offset from the box's
/// lower face.
pub open spec fn hole_split(sigs: Seq<Seq<int>>) -> Option<(int, int)> {
    if exists|d: int, i: int| is_best_hole(sigs, d, i) {
        Some(choose|d: int, i: int| is_best_hole(sigs, d, i))
    } else {
        None
    }
}

/// Second difference of a signature at interior plane `i`.
pub open spec fn second_difference(sig: Seq<int>, i: int) -> int {
    sig[i + 1] - 2 * sig[i] + sig[i - 1]
}

/// The second difference of axis `d` changes sign between planes `i` and
/// `i + 1`, and a split there leaves `min_width` planes on each side.
pub open spec fn is_inflection(sigs: Seq<Seq<int>>, min_width: int, d: int, i: int) -> bool {
    &&& 0 <= d < sigs.len()
    &&& 1 <= i < sigs[d].len() - 2
    &&& ({
        let a = second_difference(sigs[d], i);
        let b = second_difference(sigs[d], i + 1);
        (a < 0 && b > 0) || (a > 0 && b < 0)
    })
    &&& i + 1 >= min_width
    &&& sigs[d].len() - (i + 1) >= min_width
}

/// Size of the jump in second difference between planes `i` and `i + 1`.
pub open spec fn inflection_strength(sigs: Seq<Seq<int>>, d: int, i: int) -> int {
    let jump = second_difference(sigs[d], i + 1) - second_difference(sigs[d], i);
    if jump < 0 {
        -jump
    } else {
        jump
    }
}

/// Planes on the narrower side of a split after plane `i`.
pub open spec fn inflection_centrality(sigs: Seq<Seq<int>>, d: int, i: int) -> int {
    let n = sigs[d].len() as int;
    if i + 1 <= n - (i + 1) {
        i + 1
    } else {
        n - (i + 1)
    }
}

/// The strongest inflection, then the most central, then the first scanned.
pub open spec fn is_best_inflection(sigs: Seq<Seq<int>>, w: int, d: int, i: int) -> bool {
    &&& is_inflection(sigs, w, d, i)
    &&& forall|e: int, j: int| #[trigger]
        is_inflection(sigs, w, e, j) ==> {
            let s = inflection_strength(sigs, d, i);
            let t = inflection_strength(sigs, e, j);
            let c = inflection_centrality(sigs, d, i);
            let k = inflection_centrality(sigs, e, j);
            t < s || (t == s && (k < c || (k == c && scans_first(d, i, e, j))))
        }
}

/// Split position offered by the inflections.
pub open spec fn inflection_split(sigs: Seq<Seq<int>>, w: int) -> Option<(int, int)> {
    if exists|d: int, i: int| is_best_inflection(sigs, w, d, i) {
        let (d, i) = choose|d: int, i: int| is_best_inflection(sigs, w, d, i);
        Some((d, i + 1))
    } else {
        None
    }
}

/// The longest axis, the last one among equals.
pub open spec fn is_longest<const D: usize>(bx: CellBox<D>, d: int) -> bool {
    &&& 0 <= d < D
    &&& forall|e: int| 0 <= e < D ==> #[trigger] bx.width(e) <= bx.width(d)
    &&& forall|e: int| d < e < D ==> #[trigger] bx.width(e) < bx.width(d)
}

/// Midpoint split of the longest axis, if both halves keep `min_width` cells.
pub open spec fn bisection_split<const D: usize>(bx: CellBox<D>, w: int) -> Option<(int, int)> {
    if exists|d: int| is_longest(bx, d) {
        let d = choose|d: int| is_longest(bx, d);
        if bx.width(d) < 2 * w {
            None
        } else {
            Some((d, bx.width(d) / 2))
        }
    } else {
        None
    }
}

/// Where a set of flags with bounding box `bx` is cut: holes before
/// inflections before bisection.
pub open spec fn split_of<const D: usize>(
    cells: Multiset<[i64; D]>,
    bx: CellBox<D>,
    w: int,
) -> Option<(int, int)> {
    let sigs = signatures_of(cells, bx);
    match hole_split(sigs) {
        Some(s) => Some(s),
        None => match inflection_split(sigs, w) {
            Some(s) => Some(s),
            None => bisection_split(bx, w),
        },
    }
}

/// The flagged share of the box reaches the threshold.
pub open spec fn accepts<R: Real, const D: usize>(
    flagged: nat,
    bx: CellBox<D>,
    threshold: R,
) -> bool {
    threshold.le_spec(
        R::from_u64_spec(flagged as u64).div_spec(R::from_u64_spec(bx.count() as u64)),
    )
}

/// The tight bounding box of a nonempty collection.
pub open spec fn bounding_of<const D: usize>(cells: Multiset<[i64; D]>) -> CellBox<D> {
    choose|bx: CellBox<D>| bx.bounds(cells)
}

/// Flags on the lower side of a plane.
pub open spec fn below<const D: usize>(
    cells: Multiset<[i64; D]>,
    axis: int,
    plane: int,
) -> Multiset<[i64; D]> {
    cells.filter(|c: [i64; D]| c[axis] < plane)
}

/// Flags on the upper side of a plane.
pub open spec fn above<const D: usize>(
    cells: Multiset<[i64; D]>,
    axis: int,
    plane: int,
) -> Multiset<[i64; D]> {
    cells.filter(|c: [i64; D]| c[axis] >= plane)
}

/// The clustering of a collection of flags: a function of *which* cells are
/// flagged, not of the order in which they are listed.
pub open spec fn clusters<R: Real, const D: usize>(
    cells: Multiset<[i64; D]>,
    params: ClusterParams<R>,
) -> Seq<CellBox<D>>
    decreases cells.len(),
{
    if cells.len() == 0 {
        Seq::empty()
    } else {
        let bx = bounding_of(cells);
        if accepts(cells.len(), bx, params.efficiency) {
            seq![bx]
        } else {
            match split_of(cells, bx, params.min_width as int) {
                None => seq![bx],
                Some((axis, offset)) => {
                    let lower = below(cells, axis, bx.lo[axis] + offset);
                    let upper = above(cells, axis, bx.lo[axis] + offset);
                    if lower.len() < cells.len() && upper.len() < cells.len() {
                        clusters(lower, params) + clusters(upper, params)
                    } else {
                        seq![bx]
                    }
                },
            }
        }
    }
}

proof fn lemma_bounds_unique<const D: usize>(
    cells: Multiset<[i64; D]>,
    a: CellBox<D>,
    b: CellBox<D>,
)
    requires
        a.bounds(cells),
        b.bounds(cells),
    ensures
        a == b,
{
    assert forall|d: int| 0 <= d < D implies #[trigger] a.lo[d] == b.lo[d] by {
        assert(touches(cells, d, a.lo[d] as int));
        assert(touches(cells, d, b.lo[d] as int));
        let p = choose|c: [i64; D]| #[trigger] cells.contains(c) && c[d] == a.lo[d];
        let q = choose|c: [i64; D]| #[trigger] cells.contains(c) && c[d] == b.lo[d];
        assert(b.has(p) && a.has(q));
        assert(b.lo[d] <= p[d]);
        assert(a.lo[d] <= q[d]);
    }
    assert forall|d: int| 0 <= d < D implies #[trigger] a.hi[d] == b.hi[d] by {
        assert(touches(cells, d, a.hi[d] - 1));
        assert(touches(cells, d, b.hi[d] - 1));
        let p = choose|c: [i64; D]| #[trigger] cells.contains(c) && c[d] == a.hi[d] - 1;
        let q = choose|c: [i64; D]| #[trigger] cells.contains(c) && c[d] == b.hi[d] - 1;
        assert(b.has(p) && a.has(q));
        assert(p[d] < b.hi[d]);
        assert(q[d] < a.hi[d]);
    }
    lemma_box_ext(a, b);
}

proof fn lemma_best_hole_unique(sigs: Seq<Seq<int>>, d: int, i: int)
    requires
        is_best_hole(sigs, d, i),
    ensures
        hole_split(sigs) == Some((d, i)),
{
    let (e, j) = choose|e: int, j: int| is_best_hole(sigs, e, j);
    assert(is_hole(sigs, d, i));
    assert(is_hole(sigs, e, j));
}

proof fn lemma_best_inflection_unique(sigs: Seq<Seq<int>>, w: int, d: int, i: int)
    requires
        is_best_inflection(sigs, w, d, i),
    ensures
        inflection_split(sigs, w) == Some((d, i + 1)),
{
    let (e, j) = choose|e: int, j: int| is_best_inflection(sigs, w, e, j);
    assert(is_inflection(sigs, w, d, i));
    assert(is_inflection(sigs, w, e, j));
}

/// A nonempty box bounded by its flags: what a bounding box guarantees about
/// widths.
proof fn lemma_bounding_widths<const D: usize>(cells: Multiset<[i64; D]>, bx: CellBox<D>)
    requires
        bx.bounds(cells),
        cells_fit(cells),
    ensures
        forall|d: int|
            0 <= d < D ==> (#[trigger] bx.lo[d]) < bx.hi[d] && bx.width(d) == bx.hi[d] - bx.lo[d]
                && 1 <= bx.width(d) <= i64::MAX && bx.width(d) <= usize::MAX,
        bx.spans_fit(),
{
    assert forall|d: int| 0 <= d < D implies (#[trigger] bx.lo[d]) < bx.hi[d] && bx.width(d)
        == bx.hi[d] - bx.lo[d] && 1 <= bx.width(d) <= i64::MAX && bx.width(d) <= usize::MAX by {
        assert(touches(cells, d, bx.lo[d] as int));
        assert(touches(cells, d, bx.hi[d] - 1));
        let p = choose|c: [i64; D]| #[trigger] cells.contains(c) && c[d] == bx.lo[d];
        let q = choose|c: [i64; D]| #[trigger] cells.contains(c) && c[d] == bx.hi[d] - 1;
        assert(bx.has(p));
        assert(bx.lo[d] <= p[d] < bx.hi[d]);
        assert(q[d] - p[d] < i64::MAX);
    }
    assert forall|d: int| 0 <= d < D implies i64::MIN <= (#[trigger] bx.hi[d]) - bx.lo[d]
        <= i64::MAX by {
        assert(bx.lo[d] < bx.hi[d]);
    }
}

proof fn lemma_filter_partition<const D: usize>(
    cells: Multiset<[i64; D]>,
    f: spec_fn([i64; D]) -> bool,
    g: spec_fn([i64; D]) -> bool,
)
    requires
        forall|c: [i64; D]| #[trigger] f(c) <==> !g(c),
    ensures
        cells.filter(f).add(cells.filter(g)) == cells,
        cells.filter(f).len() + cells.filter(g).len() == cells.len(),
{
    broadcast use vstd::multiset::group_multiset_axioms;

    assert(cells.filter(f).add(cells.filter(g)) =~= cells);
}

proof fn lemma_filter_len<const D: usize>(
    cells: Multiset<[i64; D]>,
    f: spec_fn([i64; D]) -> bool,
)
    ensures
        cells.filter(f).len() <= cells.len(),
{
    lemma_filter_partition(cells, f, |c: [i64; D]| !f(c));
}

proof fn lemma_plane_count_insert<const D: usize>(
    cells: Multiset<[i64; D]>,
    c: [i64; D],
    d: int,
    x: int,
)
    ensures
        plane_count(cells.insert(c), d, x) == plane_count(cells, d, x) + (if c[d] == x {
            1nat
        } else {
            0nat
        }),
{
    broadcast use vstd::multiset::group_multiset_axioms;

    let f = in_plane::<D>(d, x);
    if c[d] == x {
        assert(cells.insert(c).filter(f) =~= cells.filter(f).insert(c));
    } else {
        assert(cells.insert(c).filter(f) =~= cells.filter(f));
    }
}

/// The counts held by a table of signatures.
pub open spec fn counts(sigs: Seq<Vec<usize>>) -> Seq<Seq<int>> {
    Seq::new(
        sigs.len(),
        |d: int| Seq::new(sigs[d]@.len(), |i: int| sigs[d]@[i] as int),
    )
}

/// Signatures of the flags inside `bx`: the number of flags per coordinate
/// plane, for every axis.
pub fn signatures<const D: usize>(bx: &CellBox<D>, flags: &[[i64; D]]) -> (sigs: Vec<Vec<usize>>)
    requires
        forall|i: int| 0 <= i < flags@.len() ==> bx.has(#[trigger] flags@[i]),
        forall|d: int|
            0 <= d < D ==> (#[trigger] bx.lo[d]) <= bx.hi[d] && bx.width(d) <= i64::MAX && bx.width(
                d,
            ) <= usize::MAX,
    ensures
        counts(sigs@) == signatures_of(flags@.to_multiset(), *bx),
{
    let mut sigs: Vec<Vec<usize>> = Vec::new();
    let mut d: usize = 0;
    while d < D
        invariant
            d <= D,
            sigs@.len() == d,
            forall|e: int|
                0 <= e < D ==> (#[trigger] bx.lo[e]) <= bx.hi[e] && bx.width(e) <= i64::MAX
                    && bx.width(e) <= usize::MAX,
            forall|e: int| 0 <= e < d ==> (#[trigger] sigs@[e])@.len() == bx.width(e),
            forall|e: int, i: int|
                0 <= e < d && 0 <= i < bx.width(e) ==> (#[trigger] sigs@[e]@[i]) == 0,
        decreases D - d,
    {
        assert(bx.lo[d as int] <= bx.hi[d as int]);
        let w: usize = bx.extent(d) as usize;
        sigs.push(vec![0usize; w]);
        d += 1;
    }
    let ghost mut seen = Multiset::<[i64; D]>::empty();
    let mut k: usize = 0;
    proof {
        broadcast use vstd::multiset::group_multiset_axioms;
        broadcast use vstd::seq_lib::group_to_multiset_ensures;

        assert forall|e: int, x: int| #[trigger] plane_count(seen, e, x) == 0 by {
            lemma_filter_len(seen, in_plane(e, x));
        }
        assert(flags@.take(0).to_multiset().len() == 0);
        assert(flags@.take(0).to_multiset() =~= seen);
    }
    let total = flags.len();
    while k < total
        invariant
            k <= total,
            total == flags@.len(),
            sigs@.len() == D,
            seen == flags@.take(k as int).to_multiset(),
            seen.len() == k,
            forall|i: int| 0 <= i < flags@.len() ==> bx.has(#[trigger] flags@[i]),
            forall|e: int|
                0 <= e < D ==> (#[trigger] bx.lo[e]) <= bx.hi[e] && bx.width(e) <= i64::MAX
                    && bx.width(e) <= usize::MAX,
            forall|e: int| 0 <= e < D ==> (#[trigger] sigs@[e])@.len() == bx.width(e),
            forall|e: int, i: int|
                0 <= e < D && 0 <= i < bx.width(e) ==> (#[trigger] sigs@[e]@[i]) == plane_count(
                    seen,
                    e,
                    bx.lo[e] + i,
                ),
        decreases total - k,
    {
        let c = flags[k];
        let ghost next = seen.insert(c);
        assert(bx.has(c));
        let mut d: usize = 0;
        while d < D
            invariant
                d <= D,
                k < total,
                bx.has(c),
                sigs@.len() == D,
                seen.len() == k,
                next == seen.insert(c),
                forall|e: int|
                    0 <= e < D ==> (#[trigger] bx.lo[e]) <= bx.hi[e] && bx.width(e) <= i64::MAX
                        && bx.width(e) <= usize::MAX,
                forall|e: int| 0 <= e < D ==> (#[trigger] sigs@[e])@.len() == bx.width(e),
                forall|e: int, i: int|
                    0 <= e < d && 0 <= i < bx.width(e) ==> (#[trigger] sigs@[e]@[i])
                        == plane_count(next, e, bx.lo[e] + i),
                forall|e: int, i: int|
                    d <= e < D && 0 <= i < bx.width(e) ==> (#[trigger] sigs@[e]@[i])
                        == plane_count(seen, e, bx.lo[e] + i),
            decreases D - d,
        {
            assert(bx.lo[d as int] <= c[d as int] < bx.hi[d as int]);
            let i: usize = (c[d] - bx.lo[d]) as usize;
            let ghost before = sigs@;
            proof {
                lemma_filter_len(seen, in_plane(d as int, bx.lo[d as int] + i));
                assert(before[d as int]@[i as int] == plane_count(
                    seen,
                    d as int,
                    bx.lo[d as int] + i,
                ));
            }
            let bumped: usize = sigs[d][i] + 1;
            sigs[d][i] = bumped;
            proof {
                assert forall|e: int, j: int| 0 <= e < d + 1 && 0 <= j < bx.width(e) implies (
                #[trigger] sigs@[e]@[j]) == plane_count(next, e, bx.lo[e] + j) by {
                    lemma_plane_count_insert(seen, c, e, bx.lo[e] + j);
                    if e == d {
                        assert(before[e]@[j] == plane_count(seen, e, bx.lo[e] + j));
                    } else {
                        assert(before[e]@[j] == plane_count(next, e, bx.lo[e] + j));
                    }
                }
                assert forall|e: int, j: int| d + 1 <= e < D && 0 <= j < bx.width(e) implies (
                #[trigger] sigs@[e]@[j]) == plane_count(seen, e, bx.lo[e] + j) by {
                    assert(before[e]@[j] == plane_count(seen, e, bx.lo[e] + j));
                }
            }
            d += 1;
        }
        proof {
            broadcast use vstd::multiset::group_multiset_axioms;
            broadcast use vstd::seq_lib::group_to_multiset_ensures;

            assert(flags@.take(k + 1) =~= flags@.take(k as int).push(c));
            seen = next;
        }
        k += 1;
    }
    proof {
        assert(flags@.take(k as int) =~= flags@);
        let want = signatures_of(flags@.to_multiset(), *bx);
        assert forall|e: int| 0 <= e < D implies counts(sigs@)[e] == #[trigger] want[e] by {
            assert(bx.lo[e] <= bx.hi[e]);
            assert(sigs@[e]@.len() == bx.width(e));
            assert(counts(sigs@)[e] =~= want[e]);
        }
        assert(counts(sigs@) =~= want);
    }
    sigs
}

/// The most central interior zero of any signature, as a split plane
/// `(axis, plane)` meaning "cells with coordinate < plane go left".
pub fn find_hole<const D: usize>(bx: &CellBox<D>, sigs: &Vec<Vec<usize>>) -> (r: Option<
    (usize, i64),
>)
    requires
        sigs@.len() == D,
        forall|d: int|
            0 <= d < D ==> bx.lo[d] + (#[trigger] sigs@[d])@.len() <= i64::MAX && sigs@[d]@.len()
                <= i64::MAX,
    ensures
        r is None ==> hole_split(counts(sigs@)) is None,
        r matches Some((axis, plane)) ==> axis < D && hole_split(counts(sigs@)) == Some(
            (axis as int, plane - bx.lo[axis as int]),
        ) && bx.lo[axis as int] < plane < bx.lo[axis as int] + sigs@[axis as int]@.len() - 1,
{
    let ghost view = counts(sigs@);
    let mut best: Option<(usize, usize, usize)> = None;
    let mut d: usize = 0;
    while d < D
        invariant
            d <= D,
            sigs@.len() == D,
            view == counts(sigs@),
            best is None ==> forall|e: int, j: int| #[trigger] is_hole(view, e, j) ==> e >= d,
            best matches Some((bd, bi, bc)) ==> is_hole(view, bd as int, bi as int) && bc
                == hole_centrality(view, bd as int, bi as int) && bd < d && (forall|e: int, j: int|
                #[trigger] is_hole(view, e, j) && e < d ==> hole_centrality(view, e, j) < bc || (
                hole_centrality(view, e, j) == bc && scans_first(bd as int, bi as int, e, j))),
        decreases D - d,
    {
        let n = sigs[d].len();
        assert(view[d as int].len() == n);
        let mut i: usize = 1;
        while i + 1 < n
            invariant
                d < D,
                1 <= i,
                i < n || i == 1,
                n == sigs@[d as int]@.len(),
                n == view[d as int].len(),
                sigs@.len() == D,
                view == counts(sigs@),
                best is None ==> forall|e: int, j: int| #[trigger]
                    is_hole(view, e, j) ==> e > d || (e == d && j >= i),
                best matches Some((bd, bi, bc)) ==> is_hole(view, bd as int, bi as int) && bc
                    == hole_centrality(view, bd as int, bi as int) && (bd < d || (bd == d && bi
                    < i)) && (forall|e: int, j: int| #[trigger]
                    is_hole(view, e, j) && (e < d || (e == d && j < i)) ==> hole_centrality(
                    view,
                    e,
                    j,
                ) < bc || (hole_centrality(view, e, j) == bc && scans_first(
                    bd as int,
                    bi as int,
                    e,
                    j,
                ))),
            decreases n - i,
        {
            assert(view[d as int][i as int] == sigs@[d as int]@[i as int]);
            if sigs[d][i] == 0 {
                let centrality: usize = if i <= n - 1 - i {
                    i
                } else {
                    n - 1 - i
                };
                assert(is_hole(view, d as int, i as int));
                let better = match best {
                    None => true,
                    Some((_, _, c)) => centrality > c,
                };
                if better {
                    best = Some((d, i, centrality));
                }
            }
            i += 1;
        }
        d += 1;
    }
    match best {
        None => {
            assert forall|e: int, j: int| !is_best_hole(view, e, j) by {
                assert(!is_hole(view, e, j));
            }
            None
        },
        Some((bd, bi, _)) => {
            proof {
                assert(is_best_hole(view, bd as int, bi as int));
                lemma_best_hole_unique(view, bd as int, bi as int);
                assert(bx.lo[bd as int] + sigs@[bd as int]@.len() <= i64::MAX);
            }
            Some((bd, bx.lo[bd] + bi as i64))
        },
    }
}

/// Second difference of a table row at interior plane `i`.
fn delta(sig: &Vec<usize>, i: usize) -> (r: i128)
    requires
        1 <= i < sig@.len() - 1,
    ensures
        r == sig@[i + 1] - 2 * sig@[i as int] + sig@[i - 1],
        -0x4_0000_0000_0000_0000 < r < 0x4_0000_0000_0000_0000,
{
    let n = sig.len();
    assert(i + 1 < n);
    sig[i + 1] as i128 - 2 * (sig[i] as i128) + sig[i - 1] as i128
}

/// The strongest sign change of any signature's second difference, among
/// split positions leaving at least `min_width` cells on each side.
pub fn find_inflection<const D: usize>(
    bx: &CellBox<D>,
    sigs: &Vec<Vec<usize>>,
    min_width: usize,
) -> (r: Option<(usize, i64)>)
    requires
        sigs@.len() == D,
        forall|d: int|
            0 <= d < D ==> bx.lo[d] + (#[trigger] sigs@[d])@.len() <= i64::MAX && sigs@[d]@.len()
                <= i64::MAX,
    ensures
        r is None ==> inflection_split(counts(sigs@), min_width as int) is None,
        r matches Some((axis, plane)) ==> axis < D && inflection_split(
            counts(sigs@),
            min_width as int,
        ) == Some((axis as int, plane - bx.lo[axis as int])) && bx.lo[axis as int] < plane
            < bx.lo[axis as int] + sigs@[axis as int]@.len(),
{
    let ghost view = counts(sigs@);
    let ghost w = min_width as int;
    let mut best: Option<(usize, usize, i128, usize)> = None;
    let mut d: usize = 0;
    while d < D
        invariant
            d <= D,
            sigs@.len() == D,
            view == counts(sigs@),
            w == min_width,
            best is None ==> forall|e: int, j: int| #[trigger] is_inflection(view, w, e, j) ==> e >= d,
            best matches Some((bd, bi, bs, bc)) ==> is_inflection(view, w, bd as int, bi as int)
                && bs == inflection_strength(view, bd as int, bi as int) && bc
                == inflection_centrality(view, bd as int, bi as int) && bd < d && (forall|
                e: int,
                j: int,
            | #[trigger]
                is_inflection(view, w, e, j) && e < d ==> {
                    let t = inflection_strength(view, e, j);
                    let k = inflection_centrality(view, e, j);
                    t < bs || (t == bs && (k < bc || (k == bc && scans_first(
                        bd as int,
                        bi as int,
                        e,
                        j,
                    ))))
                }),
        decreases D - d,
    {
        let n = sigs[d].len();
        assert(view[d as int].len() == n);
        let mut i: usize = 1;
        while n >= 4 && i < n - 2
            invariant
                d < D,
                1 <= i,
                n >= 4 ==> i <= n - 2,
                n < 4 ==> i == 1,
                n == sigs@[d as int]@.len(),
                n == view[d as int].len(),
                sigs@.len() == D,
                view == counts(sigs@),
                w == min_width,
                best is None ==> forall|e: int, j: int| #[trigger]
                    is_inflection(view, w, e, j) ==> e > d || (e == d && j >= i),
                best matches Some((bd, bi, bs, bc)) ==> is_inflection(view, w, bd as int, bi as int)
                    && bs == inflection_strength(view, bd as int, bi as int) && bc
                    == inflection_centrality(view, bd as int, bi as int) && (bd < d || (bd == d
                    && bi < i)) && (forall|e: int, j: int| #[trigger]
                    is_inflection(view, w, e, j) && (e < d || (e == d && j < i)) ==> {
                        let t = inflection_strength(view, e, j);
                        let k = inflection_centrality(view, e, j);
                        t < bs || (t == bs && (k < bc || (k == bc && scans_first(
                            bd as int,
                            bi as int,
                            e,
                            j,
                        ))))
                    }),
            decreases n - i,
        {
            let a: i128 = delta(&sigs[d], i);
            let b: i128 = delta(&sigs[d], i + 1);
            proof {
                assert(a == second_difference(view[d as int], i as int));
                assert(b == second_difference(view[d as int], i + 1));
            }
            let plane: usize = i + 1;
            if ((a < 0 && b > 0) || (a > 0 && b < 0)) && plane >= min_width && n - plane
                >= min_width {
                let strength: i128 = if b < a {
                    a - b
                } else {
                    b - a
                };
                let centrality: usize = if plane <= n - plane {
                    plane
                } else {
                    n - plane
                };
                assert(is_inflection(view, w, d as int, i as int));
                let better = match best {
                    None => true,
                    Some((_, _, s, c)) => strength > s || (strength == s && centrality > c),
                };
                if better {
                    best = Some((d, i, strength, centrality));
                }
            } else {
                assert(!is_inflection(view, w, d as int, i as int));
            }
            i += 1;
        }
        d += 1;
    }
    match best {
        None => {
            assert forall|e: int, j: int| !is_best_inflection(view, w, e, j) by {
                assert(!is_inflection(view, w, e, j));
            }
            None
        },
        Some((bd, bi, _, _)) => {
            proof {
                assert(is_best_inflection(view, w, bd as int, bi as int));
                lemma_best_inflection_unique(view, w, bd as int, bi as int);
                assert(bx.lo[bd as int] + sigs@[bd as int]@.len() <= i64::MAX);
            }
            let n = sigs[bd].len();
            assert(bi + 1 < n);
            Some((bd, bx.lo[bd] + (bi + 1) as i64))
        },
    }
}

/// Midpoint split of the longest axis with room for two `min_width` halves;
/// `None` if no axis has room.
pub fn bisection<const D: usize>(bx: &CellBox<D>, min_width: usize) -> (r: Option<(usize, i64)>)
    requires
        forall|d: int|
            0 <= d < D ==> (#[trigger] bx.lo[d]) <= bx.hi[d] && bx.width(d) <= i64::MAX,
    ensures
        r is None ==> bisection_split(*bx, min_width as int) is None,
        r matches Some((axis, plane)) ==> axis < D && bisection_split(*bx, min_width as int)
            == Some((axis as int, plane - bx.lo[axis as int])) && (min_width >= 1 ==> bx.lo[axis as int]
            < plane < bx.hi[axis as int]),
{
    if D == 0 {
        return None;
    }
    let mut longest: usize = 0;
    let mut d: usize = 1;
    while d < D
        invariant
            1 <= d <= D,
            longest < d,
            forall|e: int|
                0 <= e < D ==> (#[trigger] bx.lo[e]) <= bx.hi[e] && bx.width(e) <= i64::MAX,
            forall|e: int| 0 <= e < d ==> #[trigger] bx.width(e) <= bx.width(longest as int),
            forall|e: int| longest < e < d ==> #[trigger] bx.width(e) < bx.width(longest as int),
        decreases D - d,
    {
        assert(bx.lo[d as int] <= bx.hi[d as int]);
        assert(bx.lo[longest as int] <= bx.hi[longest as int]);
        if bx.extent(d) >= bx.extent(longest) {
            longest = d;
        }
        d += 1;
    }
    proof {
        assert(is_longest(*bx, longest as int));
        let other = choose|e: int| is_longest(*bx, e);
        assert(bx.width(other) <= bx.width(longest as int));
        assert(other == longest);
        assert(bx.lo[longest as int] <= bx.hi[longest as int]);
    }
    let w: u64 = bx.extent(longest);
    if w / 2 < min_width as u64 {
        return None;
    }
    Some((longest, bx.lo[longest] + (w / 2) as i64))
}

/// Two-pointer partition: cells with `c[axis] < plane` move to the front;
/// returns the split index.
pub fn partition_in_place<const D: usize>(
    cells: &mut [[i64; D]],
    axis: usize,
    plane: i64,
) -> (mid: usize)
    requires
        axis < D,
    ensures
        mid <= final(cells)@.len(),
        final(cells)@.len() == old(cells)@.len(),
        final(cells)@.to_multiset() == old(cells)@.to_multiset(),
        forall|i: int| 0 <= i < mid ==> (#[trigger] final(cells)@[i])[axis as int] < plane,
        forall|i: int|
            mid <= i < final(cells)@.len() ==> (#[trigger] final(cells)@[i])[axis as int] >= plane,
{
    let mut lt: usize = 0;
    let mut j: usize = 0;
    while j < cells.len()
        invariant
            axis < D,
            lt <= j <= cells@.len(),
            cells@.len() == old(cells)@.len(),
            cells@.to_multiset() == old(cells)@.to_multiset(),
            forall|i: int| 0 <= i < lt ==> (#[trigger] cells@[i])[axis as int] < plane,
            forall|i: int| lt <= i < j ==> (#[trigger] cells@[i])[axis as int] >= plane,
        decreases cells.len() - j,
    {
        if cells[j][axis] < plane {
            let ghost before = cells@;
            let front = cells[lt];
            let back = cells[j];
            cells[lt] = back;
            cells[j] = front;
            proof {
                assert(cells@ =~= before.update(lt as int, back).update(j as int, front));
                lemma_swap_multiset(before, lt as int, j as int);
            }
            lt += 1;
        }
        j += 1;
    }
    lt
}

/// Exchanging two entries permutes a sequence.
pub proof fn lemma_swap_multiset<A>(s: Seq<A>, i: int, j: int)
    requires
        0 <= i < s.len(),
        0 <= j < s.len(),
    ensures
        s.update(i, s[j]).update(j, s[i]).to_multiset() == s.to_multiset(),
{
    broadcast use vstd::multiset::group_multiset_axioms;

    lemma_update_multiset(s, i, s[j]);
    lemma_update_multiset(s.update(i, s[j]), j, s[i]);
    assert(s.update(i, s[j]).update(j, s[i]).to_multiset() =~= s.to_multiset()) by {
        broadcast use vstd::seq_lib::group_to_multiset_ensures;

        assert(s.contains(s[i]));
        assert(s.contains(s[j]));
        assert(s.to_multiset().count(s[i]) > 0);
        assert(s.to_multiset().count(s[j]) > 0);
    }
}

proof fn lemma_update_multiset<A>(s: Seq<A>, i: int, a: A)
    requires
        0 <= i < s.len(),
    ensures
        s.update(i, a).to_multiset() == s.to_multiset().remove(s[i]).insert(a),
{
    broadcast use vstd::multiset::group_multiset_axioms;
    broadcast use vstd::seq_lib::group_to_multiset_ensures;

    let t = s.update(i, a);
    assert(t.remove(i) =~= s.remove(i));
    assert(t.to_multiset().remove(a) =~= s.to_multiset().remove(s[i]));
    assert(t.contains(t[i]));
    assert(t.to_multiset().count(a) > 0);
    assert(t.to_multiset() =~= s.to_multiset().remove(s[i]).insert(a));
}

/// A partitioned sequence falls apart into the two sides of the plane.
proof fn lemma_partition_sides<const D: usize>(
    s: Seq<[i64; D]>,
    mid: int,
    axis: int,
    plane: int,
)
    requires
        0 <= mid <= s.len(),
        forall|i: int| 0 <= i < mid ==> (#[trigger] s[i])[axis] < plane,
        forall|i: int| mid <= i < s.len() ==> (#[trigger] s[i])[axis] >= plane,
    ensures
        s.subrange(0, mid).to_multiset() == below(s.to_multiset(), axis, plane),
        s.subrange(mid, s.len() as int).to_multiset() == above(s.to_multiset(), axis, plane),
        s.to_multiset() == s.subrange(0, mid).to_multiset().add(
            s.subrange(mid, s.len() as int).to_multiset(),
        ),
{
    broadcast use vstd::multiset::group_multiset_axioms;
    broadcast use vstd::seq_lib::group_to_multiset_ensures;

    let l = s.subrange(0, mid);
    let r = s.subrange(mid, s.len() as int);
    let m = s.to_multiset();
    vstd::seq_lib::lemma_multiset_commutative(l, r);
    assert(l + r =~= s);
    assert forall|c: [i64; D]| #[trigger] l.to_multiset().count(c) == below(m, axis, plane).count(
        c,
    ) by {
        if c[axis] < plane {
            assert(!r.contains(c));
        } else {
            assert(!l.contains(c));
        }
    }
    assert forall|c: [i64; D]| #[trigger] r.to_multiset().count(c) == above(m, axis, plane).count(
        c,
    ) by {
        if c[axis] < plane {
            assert(!r.contains(c));
        } else {
            assert(!l.contains(c));
        }
    }
    assert(l.to_multiset() =~= below(m, axis, plane));
    assert(r.to_multiset() =~= above(m, axis, plane));
}

/// Cluster flagged cells into disjoint axis-aligned boxes covering all of them.
///
/// `flags` is reordered in place; the multiset of cells is unchanged.
/// Duplicate cells are permitted but inflate efficiency estimates: pass each
/// flagged cell once.
pub fn cluster<R: Real, const D: usize>(
    flags: &mut [[i64; D]],
    params: &ClusterParams<R>,
) -> (out: Vec<CellBox<D>>)
    requires
        params.min_width >= 1,
        cells_fit(old(flags)@.to_multiset()),
    ensures
        final(flags)@.to_multiset() == old(flags)@.to_multiset(),
        out@ == clusters(old(flags)@.to_multiset(), *params),
{
    let mut out: Vec<CellBox<D>> = Vec::new();
    if flags.len() > 0 {
        split_or_accept(flags, params, &mut out);
    }
    proof {
        broadcast use vstd::seq_lib::group_to_multiset_ensures;

        let m = old(flags)@.to_multiset();
        assert(m.len() == old(flags)@.len());
        assert(out@ =~= clusters(m, *params));
    }
    out
}

#[verifier::rlimit(30)]
#[verifier::spinoff_prover]
fn split_or_accept<R: Real, const D: usize>(
    flags: &mut [[i64; D]],
    params: &ClusterParams<R>,
    out: &mut Vec<CellBox<D>>,
)
    requires
        old(flags)@.len() > 0,
        params.min_width >= 1,
        cells_fit(old(flags)@.to_multiset()),
    ensures
        final(flags)@.to_multiset() == old(flags)@.to_multiset(),
        final(out)@ == old(out)@ + clusters(old(flags)@.to_multiset(), *params),
    decreases old(flags)@.len(),
{
    let ghost m = flags@.to_multiset();
    let ghost out0 = out@;
    proof {
        broadcast use vstd::seq_lib::group_to_multiset_ensures;

        assert forall|i: int, d: int| 0 <= i < flags@.len() && 0 <= d < D implies (
        #[trigger] flags@[i][d]) < i64::MAX by {
            assert(flags@.contains(flags@[i]));
            assert(m.contains(flags@[i]));
        }
        assert(m.len() == flags@.len());
    }
    let total = flags.len();
    let bx = CellBox::bounding(flags);
    proof {
        lemma_bounds_unique(m, bx, bounding_of(m));
        lemma_bounding_widths(m, bx);
    }
    let efficiency = R::from_u64(total as u64).div(R::from_u64(bx.cells()));
    if params.efficiency.le(efficiency) {
        out.push(bx);
        assert(out@ =~= out0 + clusters(m, *params));
        return;
    }
    proof {
        broadcast use vstd::seq_lib::group_to_multiset_ensures;

        assert forall|i: int| 0 <= i < flags@.len() implies bx.has(#[trigger] flags@[i]) by {
            assert(flags@.contains(flags@[i]));
            assert(m.contains(flags@[i]));
        }
    }
    let sigs = signatures(&bx, flags);
    proof {
        assert(counts(sigs@).len() == D);
        assert forall|d: int| 0 <= d < D implies bx.lo[d] + (#[trigger] sigs@[d])@.len() <= i64::MAX
            && sigs@[d]@.len() <= i64::MAX && sigs@[d]@.len() == bx.width(d) by {
            assert(counts(sigs@)[d].len() == sigs@[d]@.len());
            assert(signatures_of(m, bx)[d].len() == bx.width(d));
            assert(bx.lo[d] < bx.hi[d]);
        }
    }
    let split = match find_hole(&bx, &sigs) {
        Some(s) => Some(s),
        None => match find_inflection(&bx, &sigs, params.min_width) {
            Some(s) => Some(s),
            None => bisection(&bx, params.min_width),
        },
    };
    match split {
        None => {
            out.push(bx);
            assert(out@ =~= out0 + clusters(m, *params));
        },
        Some((axis, plane)) => {
            assert(bx.lo[axis as int] < bx.hi[axis as int]);
            assert(sigs@[axis as int]@.len() == bx.width(axis as int));
            assert(bx.lo[axis as int] < plane < bx.hi[axis as int]);
            let mid = partition_in_place(flags, axis, plane);
            let ghost parted = flags@;
            let ghost lower = below(m, axis as int, plane as int);
            let ghost upper = above(m, axis as int, plane as int);
            proof {
                lemma_split_shrinks(m, bx, axis as int, plane as int);
                lemma_partition_sides(parted, mid as int, axis as int, plane as int);
                lemma_fit_below(m, axis as int, plane as int);
                broadcast use vstd::seq_lib::group_to_multiset_ensures;

                assert(parted.subrange(0, mid as int).to_multiset().len() == mid);
                assert(parted.subrange(mid as int, parted.len() as int).to_multiset().len()
                    == parted.len() - mid);
            }
            let (left, right) = flags.split_at_mut(mid);
            split_or_accept(left, params, out);
            let ghost out1 = out@;
            split_or_accept(right, params, out);
            proof {
                vstd::seq_lib::lemma_multiset_commutative(final(left)@, final(right)@);
                assert(out@ =~= out0 + clusters(m, *params));
            }
        },
    }
}

/// A plane strictly inside a bounding box leaves flags on both sides.
proof fn lemma_split_shrinks<const D: usize>(
    cells: Multiset<[i64; D]>,
    bx: CellBox<D>,
    axis: int,
    plane: int,
)
    requires
        bx.bounds(cells),
        0 <= axis < D,
        bx.lo[axis] < plane < bx.hi[axis],
    ensures
        below(cells, axis, plane).len() < cells.len(),
        above(cells, axis, plane).len() < cells.len(),
        below(cells, axis, plane).add(above(cells, axis, plane)) == cells,
{
    broadcast use vstd::multiset::group_multiset_axioms;

    let f = |c: [i64; D]| c[axis] < plane;
    let g = |c: [i64; D]| c[axis] >= plane;
    lemma_filter_partition(cells, f, g);
    assert(below(cells, axis, plane) =~= cells.filter(f));
    assert(above(cells, axis, plane) =~= cells.filter(g));
    assert(touches(cells, axis, bx.lo[axis] as int));
    assert(touches(cells, axis, bx.hi[axis] - 1));
    let p = choose|c: [i64; D]| #[trigger] cells.contains(c) && c[axis] == bx.lo[axis];
    let q = choose|c: [i64; D]| #[trigger] cells.contains(c) && c[axis] == bx.hi[axis] - 1;
    assert(below(cells, axis, plane).count(p) > 0);
    assert(above(cells, axis, plane).count(q) > 0);
}

proof fn lemma_fit_below<const D: usize>(cells: Multiset<[i64; D]>, axis: int, plane: int)
    requires
        cells_fit(cells),
    ensures
        cells_fit(below(cells, axis, plane)),
        cells_fit(above(cells, axis, plane)),
{
    broadcast use vstd::multiset::group_multiset_axioms;

    assert forall|c: [i64; D]| #[trigger] below(cells, axis, plane).contains(c) implies cells.contains(
        c,
    ) by {}
    assert forall|c: [i64; D]| #[trigger] above(cells, axis, plane).contains(c) implies cells.contains(
        c,
    ) by {}
}

/// The flags that lie in a box.
pub open spec fn inside<const D: usize>(
    cells: Multiset<[i64; D]>,
    bx: CellBox<D>,
) -> Multiset<[i64; D]> {
    cells.filter(|c: [i64; D]| bx.has(c))
}

proof fn lemma_bounds_exist<const D: usize>(cells: Multiset<[i64; D]>)
    requires
        cells.len() > 0,
        cells_fit(cells),
    ensures
        bounding_of(cells).bounds(cells),
    decreases cells.len(),
{
    broadcast use vstd::multiset::group_multiset_axioms;

    let c = cells.choose();
    assert(cells.contains(c));
    let rest = cells.remove(c);
    assert(rest.len() == cells.len() - 1);
    assert forall|a: [i64; D]| #[trigger] cells.contains(a) implies a == c || rest.contains(a) by {}
    if rest.len() == 0 {
        let top = Seq::new(D as nat, |d: int| (c[d] + 1) as i64);
        lemma_array_of::<D>(top);
        let bx = CellBox { lo: c, hi: array_of::<D>(top) };
        assert forall|a: [i64; D]| #[trigger] cells.contains(a) implies bx.has(a) by {
            assert(!rest.contains(a));
        }
        assert forall|d: int| 0 <= d < D implies touches(cells, d, (#[trigger] bx.hi[d]) - 1) by {
            assert(c[d] < i64::MAX);
            assert(bx.hi[d] == top[d]);
        }
        assert forall|d: int| 0 <= d < D implies touches(cells, d, #[trigger] bx.lo[d] as int) by {}
        assert(bx.bounds(cells));
    } else {
        assert forall|a: [i64; D]| #[trigger] rest.contains(a) implies cells.contains(a) by {}
        lemma_bounds_exist(rest);
        let b = bounding_of(rest);
        let low = Seq::new(
            D as nat,
            |d: int|
                if c[d] < b.lo[d] {
                    c[d]
                } else {
                    b.lo[d]
                },
        );
        let top = Seq::new(
            D as nat,
            |d: int|
                if c[d] + 1 > b.hi[d] {
                    (c[d] + 1) as i64
                } else {
                    b.hi[d]
                },
        );
        lemma_array_of::<D>(low);
        lemma_array_of::<D>(top);
        let bx = CellBox { lo: array_of::<D>(low), hi: array_of::<D>(top) };
        assert forall|a: [i64; D]| #[trigger] cells.contains(a) implies bx.has(a) by {
            assert forall|d: int| 0 <= d < D implies bx.lo[d] <= #[trigger] a[d] < bx.hi[d] by {
                assert(bx.lo[d] == low[d]);
                assert(bx.hi[d] == top[d]);
                assert(c[d] < i64::MAX);
                if a != c {
                    assert(b.has(a));
                    assert(b.lo[d] <= a[d] < b.hi[d]);
                }
            }
        }
        assert forall|d: int| 0 <= d < D implies touches(cells, d, #[trigger] bx.lo[d] as int) by {
            assert(bx.lo[d] == low[d]);
            assert(touches(rest, d, b.lo[d] as int));
            let p = choose|a: [i64; D]| #[trigger] rest.contains(a) && a[d] == b.lo[d];
            assert(cells.contains(p));
        }
        assert forall|d: int| 0 <= d < D implies touches(cells, d, (#[trigger] bx.hi[d]) - 1) by {
            assert(bx.hi[d] == top[d]);
            assert(c[d] < i64::MAX);
            assert(touches(rest, d, b.hi[d] - 1));
            let p = choose|a: [i64; D]| #[trigger] rest.contains(a) && a[d] == b.hi[d] - 1;
            assert(cells.contains(p));
        }
        assert(bx.bounds(cells));
    }
}

/// A split always falls strictly between the faces of the box.
proof fn lemma_split_inside<const D: usize>(
    cells: Multiset<[i64; D]>,
    bx: CellBox<D>,
    w: int,
)
    requires
        bx.bounds(cells),
        cells_fit(cells),
        w >= 1,
    ensures
        split_of(cells, bx, w) matches Some((axis, offset)) ==> 0 <= axis < D && bx.lo[axis]
            < bx.lo[axis] + offset < bx.hi[axis],
{
    lemma_bounding_widths(cells, bx);
    let sigs = signatures_of(cells, bx);
    if let Some((axis, offset)) = split_of(cells, bx, w) {
        if hole_split(sigs) is Some {
            assert(is_best_hole(sigs, axis, offset));
        } else if inflection_split(sigs, w) is Some {
            let (d, i) = choose|d: int, i: int| is_best_inflection(sigs, w, d, i);
            assert(is_best_inflection(sigs, w, d, i));
        } else {
            let d = choose|d: int| is_longest(bx, d);
            assert(is_longest(bx, d));
        }
        assert(bx.lo[axis] < bx.hi[axis]);
    }
}

/// What clustering promises of its boxes: each is the tight bounding box of the
/// flags inside it, and is either efficient enough or cannot be split further.
pub open spec fn well_clustered<R: Real, const D: usize>(
    cells: Multiset<[i64; D]>,
    params: ClusterParams<R>,
    bx: CellBox<D>,
) -> bool {
    &&& inside(cells, bx).len() > 0
    &&& bx.bounds(inside(cells, bx))
    &&& accepts(inside(cells, bx).len(), bx, params.efficiency) || split_of(
        inside(cells, bx),
        bx,
        params.min_width as int,
    ) is None
}

/// Clustering does not depend on the order of the flags.
pub proof fn clustering_ignores_order<R: Real, const D: usize>(
    flags: Seq<[i64; D]>,
    shuffled: Seq<[i64; D]>,
    params: ClusterParams<R>,
)
    requires
        flags.len() == shuffled.len(),
        forall|c: [i64; D]| #[trigger]
            flags.to_multiset().count(c) == shuffled.to_multiset().count(c),
    ensures
        clusters(flags.to_multiset(), params) == clusters(shuffled.to_multiset(), params),
{
    assert(flags.to_multiset() =~= shuffled.to_multiset());
}

/// The boxes of a clustering are disjoint, cover every flag (so each flag lies
/// in exactly one box), are tight around their flags, and are efficient or
/// unsplittable.
pub proof fn clusters_partition_the_flags<R: Real, const D: usize>(
    cells: Multiset<[i64; D]>,
    params: ClusterParams<R>,
)
    requires
        params.min_width >= 1,
        cells_fit(cells),
    ensures
        forall|c: [i64; D]| #[trigger]
            cells.contains(c) ==> exists|k: int|
                0 <= k < clusters(cells, params).len() && #[trigger] clusters(cells, params)[k].has(c),
        forall|i: int, j: int|
            0 <= i < j < clusters(cells, params).len() ==> !(#[trigger] clusters(
                cells,
                params,
            )[i]).meets(#[trigger] clusters(cells, params)[j]),
        forall|k: int|
            0 <= k < clusters(cells, params).len() ==> well_clustered(
                cells,
                params,
                #[trigger] clusters(cells, params)[k],
            ),
    decreases cells.len(),
{
    broadcast use vstd::multiset::group_multiset_axioms;

    let out = clusters(cells, params);
    if cells.len() == 0 {
        assert forall|c: [i64; D]| #[trigger] cells.contains(c) implies false by {
            assert(cells.count(c) <= cells.len());
        }
    } else {
        lemma_bounds_exist(cells);
        let bx = bounding_of(cells);
        lemma_split_inside(cells, bx, params.min_width as int);
        assert forall|c: [i64; D]| #[trigger] inside(cells, bx).count(c) == cells.count(c) by {
            if cells.count(c) > 0 {
                assert(cells.contains(c));
            }
        }
        assert(inside(cells, bx) =~= cells);
        let split = split_of(cells, bx, params.min_width as int);
        if accepts(cells.len(), bx, params.efficiency) || split is None {
            assert(out =~= seq![bx]);
            assert forall|c: [i64; D]| #[trigger] cells.contains(c) implies exists|k: int|
                0 <= k < out.len() && #[trigger] out[k].has(c) by {
                assert(out[0].has(c));
            }
        } else {
            let (axis, offset) = split->0;
            let plane = bx.lo[axis] + offset;
            let lower = below(cells, axis, plane);
            let upper = above(cells, axis, plane);
            lemma_split_shrinks(cells, bx, axis, plane);
            lemma_fit_below(cells, axis, plane);
            clusters_partition_the_flags(lower, params);
            clusters_partition_the_flags(upper, params);
            let lo_out = clusters(lower, params);
            let hi_out = clusters(upper, params);
            assert(out =~= lo_out + hi_out);
            assert forall|k: int| 0 <= k < lo_out.len() implies well_clustered(
                cells,
                params,
                #[trigger] lo_out[k],
            ) && lo_out[k].hi[axis] <= plane by {
                let b = lo_out[k];
                let own = inside(lower, b);
                assert(well_clustered(lower, params, b));
                assert(touches(own, axis, b.hi[axis] - 1));
                let q = choose|c: [i64; D]| #[trigger] own.contains(c) && c[axis] == b.hi[axis] - 1;
                assert(lower.contains(q));
                assert forall|c: [i64; D]| #[trigger] own.count(c) == inside(cells, b).count(c) by {
                    if b.has(c) {
                        assert(c[axis] < b.hi[axis]);
                    }
                }
                assert(own =~= inside(cells, b));
            }
            assert forall|k: int| 0 <= k < hi_out.len() implies well_clustered(
                cells,
                params,
                #[trigger] hi_out[k],
            ) && hi_out[k].lo[axis] >= plane by {
                let b = hi_out[k];
                let own = inside(upper, b);
                assert(well_clustered(upper, params, b));
                assert(touches(own, axis, b.lo[axis] as int));
                let q = choose|c: [i64; D]| #[trigger] own.contains(c) && c[axis] == b.lo[axis];
                assert(upper.contains(q));
                assert forall|c: [i64; D]| #[trigger] own.count(c) == inside(cells, b).count(c) by {
                    if b.has(c) {
                        assert(c[axis] >= b.lo[axis]);
                    }
                }
                assert(own =~= inside(cells, b));
            }
            assert forall|c: [i64; D]| #[trigger] cells.contains(c) implies exists|k: int|
                0 <= k < out.len() && #[trigger] out[k].has(c) by {
                if c[axis] < plane {
                    assert(lower.contains(c));
                    let k = choose|k: int| 0 <= k < lo_out.len() && #[trigger] lo_out[k].has(c);
                    assert(out[k].has(c));
                } else {
                    assert(upper.contains(c));
                    let k = choose|k: int| 0 <= k < hi_out.len() && #[trigger] hi_out[k].has(c);
                    assert(out[lo_out.len() + k].has(c));
                }
            }
            assert forall|i: int, j: int| 0 <= i < j < out.len() implies !(
            #[trigger] out[i]).meets(#[trigger] out[j]) by {
                if j < lo_out.len() {
                    assert(out[i] == lo_out[i] && out[j] == lo_out[j]);
                } else if i >= lo_out.len() {
                    assert(out[i] == hi_out[i - lo_out.len()]);
                    assert(out[j] == hi_out[j - lo_out.len()]);
                } else {
                    assert(out[i] == lo_out[i]);
                    assert(out[j] == hi_out[j - lo_out.len()]);
                    assert(lo_out[i].hi[axis] <= plane);
                    assert(out[j].lo[axis] >= plane);
                    if out[i].meets(out[j]) {
                        assert(out[i].lo[axis] < out[j].hi[axis]);
                    }
                }
            }
        }
    }
}

proof fn lemma_some_longest<const D: usize>(bx: CellBox<D>, n: int) -> (d: int)
    requires
        0 < n <= D,
    ensures
        0 <= d < n,
        forall|e: int| 0 <= e < n ==> #[trigger] bx.width(e) <= bx.width(d),
        forall|e: int| d < e < n ==> #[trigger] bx.width(e) < bx.width(d),
    decreases n,
{
    if n == 1 {
        0
    } else {
        let d = lemma_some_longest(bx, n - 1);
        if bx.width(n - 1) >= bx.width(d) {
            n - 1
        } else {
            d
        }
    }
}

/// In exact arithmetic a box that clustering accepted holds at least its share of flags,
/// the efficiency times its cells; any other could not be cut, and is narrower than two
/// minimal widths along every axis.
pub proof fn boxes_are_efficient_or_narrow<R: Real, const D: usize>(
    v: spec_fn(R) -> real,
    cells: Multiset<[i64; D]>,
    params: ClusterParams<R>,
    bx: CellBox<D>,
)
    requires
        exact(v),
        order_exact(v),
        D > 0,
        well_clustered(cells, params, bx),
        0 < bx.count() <= u64::MAX,
        inside(cells, bx).len() <= u64::MAX,
    ensures
        v(params.efficiency) * bx.count() as int as real <= inside(cells, bx).len() as int as real
            || forall|d: int| 0 <= d < D ==> #[trigger] bx.width(d) < 2 * params.min_width,
{
    let flagged = inside(cells, bx).len();
    if accepts(flagged, bx, params.efficiency) {
        let all = R::from_u64_spec(bx.count() as u64);
        let share = v(R::from_u64_spec(flagged as u64).div_spec(all));
        let n = bx.count() as int as real;
        assert(v(all) == n);
        assert(share * n == flagged as int as real);
        let e = v(params.efficiency);
        assert(e * n <= share * n) by (nonlinear_arith)
            requires
                e <= share,
                n > 0 as real,
        ;
    } else {
        let d = lemma_some_longest(bx, D as int);
        assert(is_longest(bx, d));
        let longest = choose|d: int| is_longest(bx, d);
        assert(bisection_split(bx, params.min_width as int) is None);
        assert(bx.width(longest) < 2 * params.min_width);
        assert forall|e: int| 0 <= e < D implies #[trigger] bx.width(e) < 2 * params.min_width by {
            assert(bx.width(e) <= bx.width(longest));
        }
    }
}

} // verus!
