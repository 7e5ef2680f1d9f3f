//! Physical boundary conditions for cell-centered ghost fills.
//!
//! A ghost cell outside the physical domain is filled from the field's interior
//! cells along the outward normal, transformed by the condition on the face it
//! sits behind. A condition is handed the ghost layer `k` (0 = innermost), the
//! normal spacing `h`, and an accessor to the `j`-th interior cell measured
//! inward from the face:
//!
//! | Condition     | face relation        | ghost(k)                                  |
//! |---------------|----------------------|-------------------------------------------|
//! | `Mirror`      | no flux              | `interior(k)`                             |
//! | `Dirichlet`   | u = v at the face    | `2 v - interior(k)`                       |
//! | `Flux`        | du/dn = g            | `interior(k) + (2k+1) h g`                |
//! | `Extrapolate` | zero curvature       | `(k+2) interior(0) - (k+1) interior(1)`   |

use vstd::prelude::*;

use crate::engine::exact::{exact, lemma_distributes, lemma_negates};
use crate::engine::storage::{Real, Scalar};

verus! {

/// A physical boundary condition on one non-periodic domain face.
#[derive(Debug, Clone, Copy, PartialEq)]
pub enum FaceBc<T> {
    /// Homogeneous Neumann (no-flux): even reflection.
    Mirror,
    /// Dirichlet: the field equals the value *at the face*. Odd reflection
    /// about it.
    Dirichlet(T),
    /// Inhomogeneous Neumann: the outward normal derivative at the face.
    Flux(T),
    /// Linear extrapolation: continue the field linearly from the two edge
    /// cells. Requires at least two interior cells in the normal direction.
    Extrapolate,
}

/// The ghost value at layer `k`, given the interior cells along the normal.
pub open spec fn ghost_formula<T: Real>(
    bc: FaceBc<T>,
    k: int,
    h: T,
    interior: Seq<T>,
) -> T {
    match bc {
        FaceBc::Mirror => interior[k],
        FaceBc::Dirichlet(value) => T::from_u64_spec(2).mul_spec(value).sub_spec(interior[k]),
        FaceBc::Flux(flux) => interior[k].add_spec(
            T::from_i64_spec((2 * k + 1) as i64).mul_spec(h).mul_spec(flux),
        ),
        FaceBc::Extrapolate => T::from_i64_spec((k + 2) as i64).mul_spec(interior[0]).sub_spec(
            T::from_i64_spec((k + 1) as i64).mul_spec(interior[1]),
        ),
    }
}

/// A condition finds the interior cells it reads on a line `n` cells deep.
pub open spec fn reads_within<T>(bc: FaceBc<T>, k: int, n: int) -> bool {
    0 <= k < n && (bc is Extrapolate ==> n >= 2)
}

impl<T: Real> FaceBc<T> {
    /// The ghost value at layer `k` (0 = innermost), from the normal spacing
    /// `h` and a lazy accessor to the interior cells along the outward normal.
    pub fn ghost_value<F: Fn(i64) -> T>(self, k: i64, h: T, interior: F) -> (r: T)
        requires
            0 <= k < 0x3fff_ffff_ffff_ffff,
            self !is Extrapolate ==> call_requires(interior, (k,)),
            self is Extrapolate ==> call_requires(interior, (0i64,)) && call_requires(
                interior,
                (1i64,),
            ),
        ensures
            forall|line: Seq<T>|
                reads_within(self, k as int, line.len() as int) && (forall|j: i64, x: T|
                    0 <= j < line.len() && #[trigger] call_ensures(interior, (j,), x) ==> x
                        == line[j as int]) ==> r == #[trigger] ghost_formula(
                    self,
                    k as int,
                    h,
                    line,
                ),
    {
        match self {
            FaceBc::Mirror => interior(k),
            FaceBc::Dirichlet(value) => T::from_u64(2).mul(value).sub(interior(k)),
            FaceBc::Flux(flux) => interior(k).add(T::from_i64(2 * k + 1).mul(h).mul(flux)),
            FaceBc::Extrapolate => T::from_i64(k + 2).mul(interior(0)).sub(
                T::from_i64(k + 1).mul(interior(1)),
            ),
        }
    }
}

/// In exact arithmetic each condition holds at the face, which lies halfway between a
/// ghost cell and its mirror image: under `Dirichlet` their mean is the prescribed
/// value, under `Flux` their difference quotient is the prescribed derivative, and a
/// zero flux is a mirror.
pub proof fn conditions_hold_at_the_face<T: Real>(
    v: spec_fn(T) -> real,
    bc: FaceBc<T>,
    k: int,
    h: T,
    line: Seq<T>,
)
    requires
        exact(v),
        0 <= k < 0x3fff_ffff_ffff_ffff,
        k < line.len(),
    ensures
        bc is Mirror ==> ghost_formula(bc, k, h, line) == line[k],
        bc matches FaceBc::Dirichlet(value) ==> v(ghost_formula(bc, k, h, line)) + v(line[k])
            == 2 as real * v(value),
        bc matches FaceBc::Flux(flux) ==> v(ghost_formula(bc, k, h, line)) - v(line[k]) == ((2 * k
            + 1) as real * v(h)) * v(flux),
        bc matches FaceBc::Flux(flux) && v(flux) == 0 as real ==> v(
            ghost_formula(bc, k, h, line),
        ) == v(line[k]),
{
    match bc {
        FaceBc::Flux(flux) => {
            let step = (2 * k + 1) as real * v(h);
            assert(v(ghost_formula(bc, k, h, line)) == v(line[k]) + step * v(flux));
            assert(step * (0 as real) == 0 as real) by (nonlinear_arith);
        },
        _ => {},
    }
}

/// In exact arithmetic extrapolation continues a line: where the interior cells
/// descend evenly by `slope` from `edge`, so do the ghosts beyond the face.
pub proof fn extrapolation_continues_a_line<T: Real>(
    v: spec_fn(T) -> real,
    k: int,
    h: T,
    line: Seq<T>,
    edge: real,
    slope: real,
)
    requires
        exact(v),
        0 <= k < 0x3fff_ffff_ffff_ffff,
        line.len() >= 2,
        v(line[0]) == edge,
        v(line[1]) == edge - slope,
    ensures
        v(ghost_formula(FaceBc::Extrapolate, k, h, line)) == edge + (k + 1) as real * slope,
{
    let n = (k + 1) as real;
    assert((k + 2) as real == n + 1 as real);
    lemma_distributes(edge, n, 1 as real);
    lemma_distributes(n, edge, -slope);
    lemma_negates(n, slope);
    assert(1 as real * edge == edge) by (nonlinear_arith);
}

/// Reflection of `c` across the boundaries of `[lo, hi)`.
pub open spec fn reflected(c: int, lo: int, hi: int) -> int {
    if c < lo {
        2 * lo - 1 - c
    } else if c >= hi {
        2 * hi - 1 - c
    } else {
        c
    }
}

/// Reflect coordinate `c` across a `[lo, hi)` interior interval's boundaries
/// (the no-flux image); interior coordinates pass through unchanged.
pub fn reflect_coord(c: i64, lo: i64, hi: i64) -> (r: i64)
    requires
        c < lo ==> i64::MIN <= 2 * lo && 2 * lo - 1 - c <= i64::MAX && i64::MIN <= 2 * lo - 1
            && 2 * lo <= i64::MAX,
        c >= hi && c >= lo ==> i64::MIN <= 2 * hi - 1 - c && 2 * hi <= i64::MAX && i64::MIN
            <= 2 * hi - 1 && i64::MIN <= 2 * hi,
    ensures
        r == reflected(c as int, lo as int, hi as int),
{
    if c < lo {
        2 * lo - 1 - c
    } else if c >= hi {
        2 * hi - 1 - c
    } else {
        c
    }
}

/// A ghost within one interval length of the boundary reflects into the
/// interval.
pub proof fn reflection_lands_inside(c: int, lo: int, hi: int)
    requires
        lo < hi,
        lo - (hi - lo) <= c < hi + (hi - lo),
    ensures
        lo <= reflected(c, lo, hi) < hi,
{
}

/// Interior cells along the outward normal of one ghost cell.
pub trait NormalLine<T> {
    /// The interior cells, measured inward from the face.
    spec fn cells(&self) -> Seq<T>;

    /// The `j`-th interior cell measured inward from the face.
    fn interior(&self, j: i64) -> (r: T)
        requires
            0 <= j < self.cells().len(),
        ensures
            r == self.cells()[j as int],
    ;
}

/// What fills the ghosts behind each physical face of the domain.
pub trait FaceRule<T: Scalar> {
    /// The rule can be applied on dimension `d` of a block `n` cells thick.
    spec fn applies(&self, d: int, n: int) -> bool;

    /// The ghost value at layer `k` behind face `(d, dir)`.
    spec fn value(&self, d: int, dir: int, k: int, line: Seq<T>) -> T;

    /// The ghost value at layer `k` behind face `(d, dir)`.
    fn ghost<L: NormalLine<T>>(&self, d: usize, dir: isize, k: i64, line: &L) -> (r: T)
        requires
            0 <= k < line.cells().len() < 0x3fff_ffff_ffff_ffff,
            self.applies(d as int, line.cells().len() as int),
            dir == 1 || dir == -1,
        ensures
            r == self.value(d as int, dir as int, k as int, line.cells()),
    ;
}

/// The no-flux mirror on every physical face.
#[derive(Debug, Clone, Copy, Default)]
pub struct MirrorFaces;

impl<T: Scalar> FaceRule<T> for MirrorFaces {
    open spec fn applies(&self, d: int, n: int) -> bool {
        true
    }

    open spec fn value(&self, d: int, dir: int, k: int, line: Seq<T>) -> T {
        line[k]
    }

    fn ghost<L: NormalLine<T>>(&self, d: usize, dir: isize, k: i64, line: &L) -> (r: T) {
        line.interior(k)
    }
}

/// A condition per (dimension, side), with the cell spacing along each normal.
#[derive(Debug, Clone, Copy)]
pub struct FaceTable<T, const D: usize> {
    /// Conditions on the low faces.
    pub low: [FaceBc<T>; D],
    /// Conditions on the high faces.
    pub high: [FaceBc<T>; D],
    /// Cell spacing per dimension.
    pub spacing: [T; D],
}

impl<T: Real, const D: usize> FaceRule<T> for FaceTable<T, D> {
    open spec fn applies(&self, d: int, n: int) -> bool {
        &&& 0 <= d < D
        &&& self.low[d] is Extrapolate ==> n >= 2
        &&& self.high[d] is Extrapolate ==> n >= 2
    }

    open spec fn value(&self, d: int, dir: int, k: int, line: Seq<T>) -> T {
        ghost_formula(
            if dir < 0 {
                self.low[d]
            } else {
                self.high[d]
            },
            k,
            self.spacing[d],
            line,
        )
    }

    fn ghost<L: NormalLine<T>>(&self, d: usize, dir: isize, k: i64, line: &L) -> (r: T) {
        let bc = if dir < 0 {
            self.low[d]
        } else {
            self.high[d]
        };
        let read = |j: i64| -> (x: T)
            requires
                0 <= j < line.cells().len(),
            ensures
                x == line.cells()[j as int],
            { line.interior(j) };
        let r = bc.ghost_value(k, self.spacing[d], read);
        assert(r == ghost_formula(bc, k as int, self.spacing[d as int], line.cells()));
        r
    }
}

/// A table of conditions applies on each face the one given for it, at that dimension's
/// spacing.
pub proof fn tables_apply_the_condition_of_the_face<T: Real, const D: usize>(
    table: FaceTable<T, D>,
    d: int,
    k: int,
    line: Seq<T>,
)
    requires
        0 <= d < D,
    ensures
        table.value(d, -1, k, line) == ghost_formula(table.low[d], k, table.spacing[d], line),
        table.value(d, 1, k, line) == ghost_formula(table.high[d], k, table.spacing[d], line),
{
}

/// A cell and its reflection lie evenly about the face between them: as many cells outside
/// it as inside, the two beside the face facing each other. Cells inside reflect to
/// themselves.
pub proof fn reflections_lie_evenly_about_the_face(c: int, lo: int, hi: int)
    requires
        lo < hi,
    ensures
        lo <= c < hi ==> reflected(c, lo, hi) == c,
        c < lo ==> lo - c == reflected(c, lo, hi) - (lo - 1),
        c >= hi ==> c - (hi - 1) == hi - reflected(c, lo, hi),
        reflected(lo - 1, lo, hi) == lo,
        reflected(hi, lo, hi) == hi - 1,
{
}

} // verus!
