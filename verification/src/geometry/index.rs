//! Mixed-radix indexing: the arithmetic behind every dense, dimension-0-fastest
//! layout in the crate.
//!
//! A coordinate vector `c` inside extents `ext` is stored at offset
//! `lin(c, ext) = c[0] + ext[0] * (c[1] + ext[1] * (c[2] + ...))`, and `delin`
//! undoes that map. Slabs, block numbering, cell keys, ownership maps and the
//! visiting order of boxes are all instances.

use vstd::prelude::*;

verus! {

/// Product of the extents.
pub open spec fn volume(ext: Seq<int>) -> int
    decreases ext.len(),
{
    if ext.len() == 0 {
        1
    } else {
        ext[0] * volume(ext.drop_first())
    }
}

/// Offset of coordinates `c` in a dense box of extents `ext`, dimension 0
/// fastest.
pub open spec fn lin(c: Seq<int>, ext: Seq<int>) -> int
    decreases ext.len(),
{
    if ext.len() == 0 {
        0
    } else {
        c[0] + ext[0] * lin(c.drop_first(), ext.drop_first())
    }
}

/// Coordinates stored at offset `k` in a dense box of extents `ext`.
pub open spec fn delin(k: int, ext: Seq<int>) -> Seq<int>
    decreases ext.len(),
{
    if ext.len() == 0 {
        Seq::empty()
    } else {
        seq![k % ext[0]] + delin(k / ext[0], ext.drop_first())
    }
}

/// `c` lies in `[0, ext)` along every axis.
pub open spec fn in_ext(c: Seq<int>, ext: Seq<int>) -> bool {
    &&& c.len() == ext.len()
    &&& forall|d: int| 0 <= d < ext.len() ==> 0 <= #[trigger] c[d] < ext[d]
}

/// Every extent is at least one.
pub open spec fn positive(ext: Seq<int>) -> bool {
    forall|d: int| 0 <= d < ext.len() ==> 0 < #[trigger] ext[d]
}

/// Componentwise `a + b`.
pub open spec fn plus(a: Seq<int>, b: Seq<int>) -> Seq<int> {
    Seq::new(a.len(), |d: int| a[d] + b[d])
}

/// Componentwise `a - b`.
pub open spec fn minus(a: Seq<int>, b: Seq<int>) -> Seq<int> {
    Seq::new(a.len(), |d: int| a[d] - b[d])
}

/// `c` lies in the half-open box `lo..hi` along every axis.
pub open spec fn in_box(c: Seq<int>, lo: Seq<int>, hi: Seq<int>) -> bool {
    &&& c.len() == lo.len()
    &&& forall|d: int| 0 <= d < lo.len() ==> lo[d] <= #[trigger] c[d] < hi[d]
}

/// The box `lo..hi` holds no cell.
pub open spec fn empty_box(lo: Seq<int>, hi: Seq<int>) -> bool {
    exists|d: int| 0 <= d < lo.len() && #[trigger] lo[d] >= hi[d]
}

/// Position of `c` in the dimension-0-fastest enumeration of `lo..hi`.
pub open spec fn rank(c: Seq<int>, lo: Seq<int>, hi: Seq<int>) -> int {
    lin(minus(c, lo), minus(hi, lo))
}

/// The cells of `lo..hi` in visiting order, dimension 0 fastest.
pub open spec fn box_cells(lo: Seq<int>, hi: Seq<int>) -> Seq<Seq<int>> {
    if empty_box(lo, hi) {
        Seq::empty()
    } else {
        Seq::new(
            volume(minus(hi, lo)) as nat,
            |k: int| plus(lo, delin(k, minus(hi, lo))),
        )
    }
}

/// The signed coordinates of an array, as integers.
pub open spec fn ints<const D: usize>(a: [i64; D]) -> Seq<int> {
    Seq::new(D as nat, |d: int| a[d] as int)
}

/// Machine-word signed coordinates, as integers.
pub open spec fn isizes<const D: usize>(a: [isize; D]) -> Seq<int> {
    Seq::new(D as nat, |d: int| a[d] as int)
}

/// Unsigned coordinates or extents, as integers.
pub open spec fn usizes<const D: usize>(a: [usize; D]) -> Seq<int> {
    Seq::new(D as nat, |d: int| a[d] as int)
}

/// All-zero coordinates.
pub open spec fn origin(n: nat) -> Seq<int> {
    Seq::new(n, |d: int| 0int)
}

spec fn array_prefix<const D: usize>(s: Seq<i64>, n: nat) -> [i64; D]
    decreases n,
{
    if n == 0 {
        vstd::array::spec_array_fill_for_copy_type(0i64)
    } else {
        vstd::array::spec_array_update(array_prefix::<D>(s, (n - 1) as nat), n - 1, s[n - 1])
    }
}

/// The array with the entries of `s`.
pub closed spec fn array_of<const D: usize>(s: Seq<i64>) -> [i64; D] {
    array_prefix::<D>(s, D as nat)
}

proof fn lemma_array_prefix<const D: usize>(s: Seq<i64>, n: nat)
    requires
        s.len() == D,
        n <= D,
    ensures
        forall|d: int| 0 <= d < n ==> #[trigger] array_prefix::<D>(s, n)[d] == s[d],
    decreases n,
{
    if n > 0 {
        lemma_array_prefix::<D>(s, (n - 1) as nat);
        let p = array_prefix::<D>(s, (n - 1) as nat);
        vstd::array::axiom_spec_array_update(p, n - 1, s[n - 1]);
        assert(array_prefix::<D>(s, n)@ == p@.update(n - 1, s[n - 1]));
        assert forall|d: int| 0 <= d < n implies #[trigger] array_prefix::<D>(s, n)[d] == s[d] by {
            if d < n - 1 {
                assert(p[d] == s[d]);
            }
        }
    }
}

pub proof fn lemma_array_of<const D: usize>(s: Seq<i64>)
    requires
        s.len() == D,
    ensures
        forall|d: int| 0 <= d < D ==> #[trigger] array_of::<D>(s)[d] == s[d],
{
    lemma_array_prefix::<D>(s, D as nat);
}

pub proof fn lemma_volume_positive(ext: Seq<int>)
    requires
        positive(ext),
    ensures
        volume(ext) >= 1,
    decreases ext.len(),
{
    if ext.len() > 0 {
        assert(ext[0] > 0);
        assert forall|d: int| 0 <= d < ext.drop_first().len() implies 0
            < #[trigger] ext.drop_first()[d] by {
            assert(ext[d + 1] > 0);
        }
        lemma_volume_positive(ext.drop_first());
        let a = ext[0];
        let b = volume(ext.drop_first());
        assert(a * b >= 1) by (nonlinear_arith)
            requires
                a >= 1,
                b >= 1,
        ;
    }
}

proof fn lemma_tail_in_ext(c: Seq<int>, ext: Seq<int>)
    requires
        in_ext(c, ext),
        ext.len() > 0,
    ensures
        in_ext(c.drop_first(), ext.drop_first()),
        0 <= c[0] < ext[0],
{
    assert forall|d: int| 0 <= d < ext.drop_first().len() implies 0 <= #[trigger] c.drop_first()[d]
        < ext.drop_first()[d] by {
        assert(0 <= c[d + 1] < ext[d + 1]);
    }
    assert(0 <= c[0] < ext[0]);
}

/// Offsets of coordinates inside the box lie in `[0, volume)`.
pub proof fn lemma_lin_bounds(c: Seq<int>, ext: Seq<int>)
    requires
        in_ext(c, ext),
    ensures
        0 <= lin(c, ext) < volume(ext),
    decreases ext.len(),
{
    if ext.len() > 0 {
        lemma_tail_in_ext(c, ext);
        lemma_lin_bounds(c.drop_first(), ext.drop_first());
        let a = c[0];
        let e = ext[0];
        let l = lin(c.drop_first(), ext.drop_first());
        let v = volume(ext.drop_first());
        assert(0 <= a + e * l < e * v) by (nonlinear_arith)
            requires
                0 <= a < e,
                0 <= l < v,
        ;
    }
}

/// `delin` undoes `lin` on coordinates inside the box.
pub proof fn lemma_delin_lin(c: Seq<int>, ext: Seq<int>)
    requires
        in_ext(c, ext),
    ensures
        delin(lin(c, ext), ext) == c,
    decreases ext.len(),
{
    if ext.len() == 0 {
        assert(delin(lin(c, ext), ext) =~= c);
    } else {
        lemma_tail_in_ext(c, ext);
        lemma_delin_lin(c.drop_first(), ext.drop_first());
        let l = lin(c.drop_first(), ext.drop_first());
        vstd::arithmetic::mul::lemma_mul_is_commutative(ext[0], l);
        vstd::arithmetic::div_mod::lemma_fundamental_div_mod_converse(
            lin(c, ext),
            ext[0],
            l,
            c[0],
        );
        assert(delin(lin(c, ext), ext) =~= c);
    }
}

/// `lin` undoes `delin` on offsets inside the box.
pub proof fn lemma_lin_delin(k: int, ext: Seq<int>)
    requires
        positive(ext),
        0 <= k < volume(ext),
    ensures
        in_ext(delin(k, ext), ext),
        lin(delin(k, ext), ext) == k,
    decreases ext.len(),
{
    if ext.len() > 0 {
        let e = ext[0];
        let rest = ext.drop_first();
        assert(e > 0);
        assert forall|d: int| 0 <= d < rest.len() implies 0 < #[trigger] rest[d] by {
            assert(ext[d + 1] > 0);
        }
        let v = volume(rest);
        let q = k / e;
        vstd::arithmetic::div_mod::lemma_fundamental_div_mod(k, e);
        vstd::arithmetic::div_mod::lemma_mod_bound(k, e);
        let r = k % e;
        assert(0 <= q < v) by (nonlinear_arith)
            requires
                k == e * q + r,
                0 <= r < e,
                0 <= k < e * v,
        ;
        lemma_lin_delin(q, rest);
        let c = delin(k, ext);
        assert(c.drop_first() =~= delin(q, rest));
        assert forall|d: int| 0 <= d < ext.len() implies 0 <= #[trigger] c[d] < ext[d] by {
            if d > 0 {
                assert(c[d] == delin(q, rest)[d - 1]);
                assert(ext[d] == rest[d - 1]);
            }
        }
    }
}

pub proof fn lemma_delin_len(k: int, ext: Seq<int>)
    ensures
        delin(k, ext).len() == ext.len(),
    decreases ext.len(),
{
    if ext.len() > 0 {
        lemma_delin_len(k / ext[0], ext.drop_first());
    }
}

/// Coordinates are determined by their offset.
pub proof fn lemma_lin_injective(a: Seq<int>, b: Seq<int>, ext: Seq<int>)
    requires
        in_ext(a, ext),
        in_ext(b, ext),
        lin(a, ext) == lin(b, ext),
    ensures
        a == b,
{
    lemma_delin_lin(a, ext);
    lemma_delin_lin(b, ext);
}

/// Splitting after the first `n` axes.
pub proof fn lemma_lin_split(c: Seq<int>, ext: Seq<int>, n: int)
    requires
        0 <= n <= ext.len(),
        c.len() == ext.len(),
    ensures
        lin(c, ext) == lin(c.take(n), ext.take(n)) + volume(ext.take(n)) * lin(
            c.skip(n),
            ext.skip(n),
        ),
        volume(ext) == volume(ext.take(n)) * volume(ext.skip(n)),
    decreases n,
{
    if n == 0 {
        assert(c.skip(0) =~= c);
        assert(ext.skip(0) =~= ext);
    } else {
        let c1 = c.drop_first();
        let e1 = ext.drop_first();
        lemma_lin_split(c1, e1, n - 1);
        assert(c.take(n).drop_first() =~= c1.take(n - 1));
        assert(ext.take(n).drop_first() =~= e1.take(n - 1));
        assert(c.skip(n) =~= c1.skip(n - 1));
        assert(ext.skip(n) =~= e1.skip(n - 1));
        let x = lin(c1.take(n - 1), e1.take(n - 1));
        let v = volume(e1.take(n - 1));
        let y = lin(c1.skip(n - 1), e1.skip(n - 1));
        let w = volume(e1.skip(n - 1));
        let e = ext[0];
        assert(c.take(n)[0] == c[0]);
        assert(ext.take(n)[0] == e);
        assert(c[0] + e * (x + v * y) == (c[0] + e * x) + (e * v) * y) by (nonlinear_arith);
        assert(e * (v * w) == (e * v) * w) by (nonlinear_arith);
    }
}

/// One step of accumulating an offset axis by axis.
pub proof fn lemma_lin_step(c: Seq<int>, ext: Seq<int>, d: int)
    requires
        0 <= d < ext.len(),
        c.len() == ext.len(),
    ensures
        lin(c.take(d + 1), ext.take(d + 1)) == lin(c.take(d), ext.take(d)) + volume(ext.take(d))
            * c[d],
        volume(ext.take(d + 1)) == volume(ext.take(d)) * ext[d],
{
    let cc = c.take(d + 1);
    let ee = ext.take(d + 1);
    lemma_lin_split(cc, ee, d);
    assert(cc.take(d) =~= c.take(d));
    assert(ee.take(d) =~= ext.take(d));
    let ct = cc.skip(d);
    let et = ee.skip(d);
    assert(ct =~= seq![c[d]]);
    assert(et =~= seq![ext[d]]);
    assert(et.drop_first() =~= Seq::<int>::empty());
    assert(ct.drop_first() =~= Seq::<int>::empty());
    assert(lin(ct.drop_first(), et.drop_first()) == 0);
    assert(volume(et.drop_first()) == 1);
    assert(lin(ct, et) == c[d]);
    assert(volume(et) == ext[d]);
}

pub proof fn lemma_take_zero(c: Seq<int>, ext: Seq<int>)
    ensures
        lin(c.take(0), ext.take(0)) == 0,
        volume(ext.take(0)) == 1,
{
}

/// Partial volumes never exceed the whole.
pub proof fn lemma_volume_prefix(ext: Seq<int>, n: int)
    requires
        positive(ext),
        0 <= n <= ext.len(),
    ensures
        1 <= volume(ext.take(n)) <= volume(ext),
{
    lemma_lin_split(ext, ext, n);
    assert(positive(ext.take(n)));
    assert forall|d: int| 0 <= d < ext.skip(n).len() implies 0 < #[trigger] ext.skip(n)[d] by {
        assert(ext[d + n] > 0);
    }
    lemma_volume_positive(ext.take(n));
    lemma_volume_positive(ext.skip(n));
    let a = volume(ext.take(n));
    let b = volume(ext.skip(n));
    assert(a <= a * b) by (nonlinear_arith)
        requires
            a >= 1,
            b >= 1,
    ;
}

/// A partial offset stays below the partial volume.
pub proof fn lemma_lin_prefix_bounds(c: Seq<int>, ext: Seq<int>, n: int)
    requires
        in_ext(c, ext),
        0 <= n <= ext.len(),
    ensures
        0 <= lin(c.take(n), ext.take(n)) < volume(ext.take(n)),
{
    assert(in_ext(c.take(n), ext.take(n)));
    lemma_lin_bounds(c.take(n), ext.take(n));
}

/// The last cell of a box has the largest offset.
pub proof fn lemma_lin_last(c: Seq<int>, ext: Seq<int>)
    requires
        c.len() == ext.len(),
        forall|d: int| 0 <= d < ext.len() ==> #[trigger] c[d] == ext[d] - 1,
    ensures
        lin(c, ext) == volume(ext) - 1,
    decreases ext.len(),
{
    if ext.len() > 0 {
        assert forall|d: int| 0 <= d < ext.drop_first().len() implies #[trigger] c.drop_first()[d]
            == ext.drop_first()[d] - 1 by {
            assert(c[d + 1] == ext[d + 1] - 1);
        }
        lemma_lin_last(c.drop_first(), ext.drop_first());
        let e = ext[0];
        let v = volume(ext.drop_first());
        assert((e - 1) + e * (v - 1) == e * v - 1) by (nonlinear_arith);
        assert(c[0] == ext[0] - 1);
    }
}

/// The origin has offset zero.
pub proof fn lemma_lin_zero(c: Seq<int>, ext: Seq<int>)
    requires
        c.len() == ext.len(),
        forall|d: int| 0 <= d < ext.len() ==> #[trigger] c[d] == 0,
    ensures
        lin(c, ext) == 0,
    decreases ext.len(),
{
    if ext.len() > 0 {
        assert forall|d: int| 0 <= d < ext.drop_first().len() implies #[trigger] c.drop_first()[d]
            == 0 by {
            assert(c[d + 1] == 0);
        }
        lemma_lin_zero(c.drop_first(), ext.drop_first());
        let e = ext[0];
        assert(e * 0 == 0);
    }
}

/// Odometer step: resetting the saturated axes below `d` and advancing axis
/// `d` moves to the next offset.
pub proof fn lemma_odometer(c: Seq<int>, n: Seq<int>, ext: Seq<int>, d: int)
    requires
        0 <= d < ext.len(),
        c.len() == ext.len(),
        n.len() == ext.len(),
        forall|e: int| 0 <= e < d ==> #[trigger] c[e] == ext[e] - 1,
        forall|e: int| 0 <= e < d ==> #[trigger] n[e] == 0,
        n[d] == c[d] + 1,
        forall|e: int| d < e < ext.len() ==> #[trigger] n[e] == c[e],
    ensures
        lin(n, ext) == lin(c, ext) + 1,
{
    lemma_lin_split(c, ext, d + 1);
    lemma_lin_split(n, ext, d + 1);
    assert(c.skip(d + 1) =~= n.skip(d + 1));
    lemma_lin_step(c, ext, d);
    lemma_lin_step(n, ext, d);
    lemma_lin_last(c.take(d), ext.take(d));
    lemma_lin_zero(n.take(d), ext.take(d));
    let v = volume(ext.take(d));
    let x = c[d];
    assert(v * (x + 1) == (v - 1) + v * x + 1) by (nonlinear_arith);
}

/// Ranks enumerate the box.
pub proof fn lemma_rank(c: Seq<int>, lo: Seq<int>, hi: Seq<int>)
    requires
        in_box(c, lo, hi),
        hi.len() == lo.len(),
    ensures
        in_ext(minus(c, lo), minus(hi, lo)),
        positive(minus(hi, lo)),
        !empty_box(lo, hi),
        0 <= rank(c, lo, hi) < volume(minus(hi, lo)),
        box_cells(lo, hi).len() == volume(minus(hi, lo)),
        box_cells(lo, hi)[rank(c, lo, hi)] == c,
{
    let o = minus(c, lo);
    let ext = minus(hi, lo);
    assert forall|d: int| 0 <= d < ext.len() implies 0 <= #[trigger] o[d] < ext[d] by {
        assert(lo[d] <= c[d] < hi[d]);
    }
    assert forall|d: int| 0 <= d < ext.len() implies 0 < #[trigger] ext[d] by {
        assert(0 <= o[d] < ext[d]);
    }
    lemma_lin_bounds(o, ext);
    lemma_delin_lin(o, ext);
    assert forall|d: int| 0 <= d < lo.len() implies !(#[trigger] lo[d] >= hi[d]) by {
        assert(lo[d] <= c[d] < hi[d]);
    }
    assert(plus(lo, o) =~= c);
}

/// Every listed cell lies in the box, at its own rank.
pub proof fn lemma_unrank(k: int, lo: Seq<int>, hi: Seq<int>)
    requires
        hi.len() == lo.len(),
        0 <= k < box_cells(lo, hi).len(),
    ensures
        in_box(box_cells(lo, hi)[k], lo, hi),
        rank(box_cells(lo, hi)[k], lo, hi) == k,
{
    let ext = minus(hi, lo);
    assert forall|d: int| 0 <= d < ext.len() implies 0 < #[trigger] ext[d] by {
        assert(!(lo[d] >= hi[d]));
    }
    lemma_volume_positive(ext);
    lemma_lin_delin(k, ext);
    let o = delin(k, ext);
    let c = plus(lo, o);
    assert(minus(c, lo) =~= o);
    assert forall|d: int| 0 <= d < lo.len() implies lo[d] <= #[trigger] c[d] < hi[d] by {
        assert(0 <= o[d] < ext[d]);
    }
}

/// A box listing names each cell of the box exactly once.
pub proof fn box_listing_is_exact(lo: Seq<int>, hi: Seq<int>)
    requires
        lo.len() == hi.len(),
    ensures
        forall|c: Seq<int>| in_box(c, lo, hi) <==> #[trigger] box_cells(lo, hi).contains(c),
        box_cells(lo, hi).no_duplicates(),
{
    let cells = box_cells(lo, hi);
    assert forall|c: Seq<int>| in_box(c, lo, hi) <==> #[trigger] cells.contains(c) by {
        if in_box(c, lo, hi) {
            lemma_rank(c, lo, hi);
            assert(cells[rank(c, lo, hi)] == c);
        }
        if cells.contains(c) {
            let k = choose|k: int| 0 <= k < cells.len() && cells[k] == c;
            lemma_unrank(k, lo, hi);
        }
    }
    assert forall|i: int, j: int|
        0 <= i < cells.len() && 0 <= j < cells.len() && i != j implies cells[i] != cells[j] by {
        lemma_unrank(i, lo, hi);
        lemma_unrank(j, lo, hi);
    }
}

/// Advance `idx` to the next cell of `lo..hi`, dimension 0 fastest; wraps to
/// `lo` and returns `false` after the last cell.
pub fn next_cell<const D: usize>(idx: &mut [i64; D], lo: &[i64; D], hi: &[i64; D]) -> (more: bool)
    requires
        in_box(ints(*old(idx)), ints(*lo), ints(*hi)),
    ensures
        more ==> in_box(ints(*final(idx)), ints(*lo), ints(*hi)) && rank(
            ints(*final(idx)),
            ints(*lo),
            ints(*hi),
        ) == rank(ints(*old(idx)), ints(*lo), ints(*hi)) + 1,
        !more ==> ints(*final(idx)) == ints(*lo) && rank(ints(*old(idx)), ints(*lo), ints(*hi)) + 1
            == volume(minus(ints(*hi), ints(*lo))),
{
    let ghost start = *idx;
    let ghost l = ints(*lo);
    let ghost h = ints(*hi);
    let ghost c = minus(ints(start), l);
    let ghost ext = minus(h, l);
    let mut d: usize = 0;
    while d < D
        invariant
            d <= D,
            start == *old(idx),
            l == ints(*lo),
            h == ints(*hi),
            c == minus(ints(start), l),
            ext == minus(h, l),
            in_box(ints(start), l, h),
            forall|e: int| 0 <= e < d ==> #[trigger] c[e] == ext[e] - 1,
            forall|e: int| 0 <= e < d ==> #[trigger] idx[e] == lo[e],
            forall|e: int| d <= e < D ==> #[trigger] idx[e] == start[e],
        decreases D - d,
    {
        assert(l[d as int] <= ints(start)[d as int] < h[d as int]);
        idx[d] = idx[d] + 1;
        if idx[d] < hi[d] {
            proof {
                let n = minus(ints(*idx), l);
                lemma_odometer(c, n, ext, d as int);
                assert forall|e: int| 0 <= e < D implies l[e] <= #[trigger] ints(*idx)[e] < h[e] by {
                    assert(l[e] <= ints(start)[e] < h[e]);
                    assert(lo[e] == l[e]);
                    if e < d {
                        assert(idx[e] == lo[e]);
                    } else if e > d {
                        assert(idx[e] == start[e]);
                    }
                }
            }
            return true;
        }
        idx[d] = lo[d];
        d += 1;
    }
    proof {
        lemma_lin_last(c, ext);
        assert(ints(*idx) =~= l);
    }
    false
}

/// [`next_cell`] on machine-word indices, the index type of block views.
pub fn next_index<const D: usize>(
    idx: &mut [isize; D],
    lo: &[isize; D],
    hi: &[isize; D],
) -> (more: bool)
    requires
        in_box(isizes(*old(idx)), isizes(*lo), isizes(*hi)),
    ensures
        more ==> in_box(isizes(*final(idx)), isizes(*lo), isizes(*hi)) && rank(
            isizes(*final(idx)),
            isizes(*lo),
            isizes(*hi),
        ) == rank(isizes(*old(idx)), isizes(*lo), isizes(*hi)) + 1,
        !more ==> isizes(*final(idx)) == isizes(*lo) && rank(
            isizes(*old(idx)),
            isizes(*lo),
            isizes(*hi),
        ) + 1 == volume(minus(isizes(*hi), isizes(*lo))),
{
    let ghost start = *idx;
    let ghost l = isizes(*lo);
    let ghost h = isizes(*hi);
    let ghost c = minus(isizes(start), l);
    let ghost ext = minus(h, l);
    let mut d: usize = 0;
    while d < D
        invariant
            d <= D,
            start == *old(idx),
            l == isizes(*lo),
            h == isizes(*hi),
            c == minus(isizes(start), l),
            ext == minus(h, l),
            in_box(isizes(start), l, h),
            forall|e: int| 0 <= e < d ==> #[trigger] c[e] == ext[e] - 1,
            forall|e: int| 0 <= e < d ==> #[trigger] idx[e] == lo[e],
            forall|e: int| d <= e < D ==> #[trigger] idx[e] == start[e],
        decreases D - d,
    {
        assert(l[d as int] <= isizes(start)[d as int] < h[d as int]);
        idx[d] = idx[d] + 1;
        if idx[d] < hi[d] {
            proof {
                let n = minus(isizes(*idx), l);
                lemma_odometer(c, n, ext, d as int);
                assert forall|e: int| 0 <= e < D implies l[e] <= #[trigger] isizes(*idx)[e] < h[e] by {
                    assert(l[e] <= isizes(start)[e] < h[e]);
                    assert(lo[e] == l[e]);
                    if e < d {
                        assert(idx[e] == lo[e]);
                    } else if e > d {
                        assert(idx[e] == start[e]);
                    }
                }
            }
            return true;
        }
        idx[d] = lo[d];
        d += 1;
    }
    proof {
        lemma_lin_last(c, ext);
        assert(isizes(*idx) =~= l);
    }
    false
}

} // verus!
