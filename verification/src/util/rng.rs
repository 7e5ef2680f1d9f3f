//! Counter-based random numbers for stochastic terms.
//!
//! Noise must be deterministic *and independent of scheduling order*, so there
//! is no generator state to advance. Every random number is a pure function of
//! a key built by chaining a `SplitMix64` finalizer: any worker, in any order,
//! computes the identical bits for a given cell at a given step.

use vstd::prelude::*;

use crate::engine::storage::Real;

verus! {

/// The `SplitMix64` finalizer as a function on 64-bit words: add the golden
/// gamma, then two rounds of xor-shift and odd multiplication, then a last
/// xor-shift, all modulo 2^64.
pub open spec fn splitmix64_spec(z: u64) -> u64 {
    let a: u64 = z.wrapping_add(0x9E37_79B9_7F4A_7C15);
    let b: u64 = (a ^ (a >> 30)).wrapping_mul(0xBF58_476D_1CE4_E5B9);
    let c: u64 = (b ^ (b >> 27)).wrapping_mul(0x94D0_49BB_1331_11EB);
    c ^ (c >> 31)
}

/// Left fold of the finalizer over the key components, each xor-ed into the
/// running word.
pub open spec fn mix_key_spec(seed: u64, parts: Seq<u64>) -> u64
    decreases parts.len(),
{
    if parts.len() == 0 {
        splitmix64_spec(seed)
    } else {
        splitmix64_spec(mix_key_spec(seed, parts.drop_last()) ^ parts.last())
    }
}

/// `SplitMix64` finalizer: a high-quality 64-bit mixing function.
pub fn splitmix64(z: u64) -> (r: u64)
    ensures
        r == splitmix64_spec(z),
{
    let a: u64 = z.wrapping_add(0x9E37_79B9_7F4A_7C15);
    let b: u64 = (a ^ (a >> 30)).wrapping_mul(0xBF58_476D_1CE4_E5B9);
    let c: u64 = (b ^ (b >> 27)).wrapping_mul(0x94D0_49BB_1331_11EB);
    c ^ (c >> 31)
}

/// Chain-mix a sequence of key components into one 64-bit state.
pub fn mix_key(seed: u64, parts: &[u64]) -> (r: u64)
    ensures
        r == mix_key_spec(seed, parts@),
{
    let mut s: u64 = splitmix64(seed);
    let mut i: usize = 0;
    assert(parts@.take(0) =~= Seq::<u64>::empty());
    while i < parts.len()
        invariant
            i <= parts@.len(),
            s == mix_key_spec(seed, parts@.take(i as int)),
        decreases parts.len() - i,
    {
        assert(parts@.take(i + 1).drop_last() =~= parts@.take(i as int));
        s = splitmix64(s ^ parts[i]);
        i += 1;
    }
    assert(parts@.take(i as int) =~= parts@);
    s
}

proof fn lemma_xorshift_injective(x: u64, y: u64)
    ensures
        x ^ (x >> 30) == y ^ (y >> 30) ==> x == y,
        x ^ (x >> 27) == y ^ (y >> 27) ==> x == y,
        x ^ (x >> 31) == y ^ (y >> 31) ==> x == y,
{
    assert(x ^ (x >> 30) == y ^ (y >> 30) ==> x == y) by (bit_vector);
    assert(x ^ (x >> 27) == y ^ (y >> 27) ==> x == y) by (bit_vector);
    assert(x ^ (x >> 31) == y ^ (y >> 31) ==> x == y) by (bit_vector);
}

/// Multiplication by `c` modulo 2^64 is undone by multiplication by `d` when
/// `c * d` is one more than a multiple of 2^64.
proof fn lemma_odd_mul_injective(x: u64, y: u64, c: u64, d: int, k: int)
    requires
        c * d == k * 0x1_0000_0000_0000_0000 + 1,
        x.wrapping_mul(c) == y.wrapping_mul(c),
    ensures
        x == y,
{
    let m: int = 0x1_0000_0000_0000_0000;
    lemma_mul_back(x, c, d, k);
    lemma_mul_back(y, c, d, k);
}

proof fn lemma_mul_back(x: u64, c: u64, d: int, k: int)
    requires
        c * d == k * 0x1_0000_0000_0000_0000 + 1,
    ensures
        (x.wrapping_mul(c) * d) % 0x1_0000_0000_0000_0000 == x,
{
    let m: int = 0x1_0000_0000_0000_0000;
    let p: int = x * c;
    assert(x.wrapping_mul(c) == p % m);
    vstd::arithmetic::div_mod::lemma_mul_mod_noop_left(p, d, m);
    assert(p * d == x * (c * d)) by (nonlinear_arith)
        requires
            p == x * c,
    ;
    assert(x * (k * m + 1) == m * (x * k) + x) by (nonlinear_arith);
    vstd::arithmetic::div_mod::lemma_mod_multiples_vanish(x * k, x as int, m);
    vstd::arithmetic::div_mod::lemma_small_mod(x as nat, m as nat);
}

/// Distinct words mix to distinct words: the finalizer loses nothing of its
/// input, so two different keys never collapse to one stream.
pub proof fn splitmix64_is_injective(x: u64, y: u64)
    requires
        splitmix64_spec(x) == splitmix64_spec(y),
    ensures
        x == y,
{
    let ax: u64 = x.wrapping_add(0x9E37_79B9_7F4A_7C15);
    let ay: u64 = y.wrapping_add(0x9E37_79B9_7F4A_7C15);
    let bx: u64 = (ax ^ (ax >> 30)).wrapping_mul(0xBF58_476D_1CE4_E5B9);
    let by_: u64 = (ay ^ (ay >> 30)).wrapping_mul(0xBF58_476D_1CE4_E5B9);
    let cx: u64 = (bx ^ (bx >> 27)).wrapping_mul(0x94D0_49BB_1331_11EB);
    let cy: u64 = (by_ ^ (by_ >> 27)).wrapping_mul(0x94D0_49BB_1331_11EB);
    lemma_xorshift_injective(cx, cy);
    lemma_odd_mul_injective(
        bx ^ (bx >> 27),
        by_ ^ (by_ >> 27),
        0x94D0_49BB_1331_11EB,
        0x319642b2d24d8ec3int,
        0x1cd336eda85f1453int,
    );
    lemma_xorshift_injective(bx, by_);
    lemma_odd_mul_injective(
        ax ^ (ax >> 30),
        ay ^ (ay >> 30),
        0xBF58_476D_1CE4_E5B9,
        0x96de1b173f119089int,
        0x70c3bca78f27f46cint,
    );
    lemma_xorshift_injective(ax, ay);
}

/// Within one block's stream every cell draws from its own key: the keys
/// `splitmix64(block_key ^ cell)` of two different cells differ.
pub proof fn cell_keys_are_distinct(block_key: u64, cell: u64, other: u64)
    requires
        cell != other,
    ensures
        splitmix64_spec(block_key ^ cell) != splitmix64_spec(block_key ^ other),
{
    if splitmix64_spec(block_key ^ cell) == splitmix64_spec(block_key ^ other) {
        splitmix64_is_injective(block_key ^ cell, block_key ^ other);
        assert(block_key ^ cell == block_key ^ other ==> cell == other) by (bit_vector);
    }
}

/// The 53 high bits of a word, counted from one: the numerator of a uniform
/// deviate over 2^53.
pub open spec fn unit_ticks(bits: u64) -> int {
    (bits >> 11) + 1
}

/// A uniform deviate is a positive number of ticks, at most the full 2^53: it
/// is never zero, so its logarithm exists, and never exceeds one.
pub proof fn unit_ticks_are_in_range(bits: u64)
    ensures
        1 <= unit_ticks(bits) <= 0x20_0000_0000_0000,
{
    assert(bits >> 11 <= 0x1f_ffff_ffff_ffff) by (bit_vector);
}

/// Uniform deviate in (0, 1] from 64 random bits.
pub open spec fn unit_open_spec<R: Real>(bits: u64) -> R {
    R::from_u64_spec(unit_ticks(bits) as u64).mul_spec(
        R::one_spec().div_spec(R::from_u64_spec(0x20_0000_0000_0000)),
    )
}

/// Standard normal deviate of a key: Box–Muller, cosine branch, from two
/// uniforms derived from the key.
pub open spec fn standard_normal_spec<R: Real>(key: u64) -> R {
    let a = splitmix64_spec(key);
    let b = splitmix64_spec(a ^ 0xD1B5_4A32_D192_ED03);
    let u: R = unit_open_spec(a);
    let v: R = unit_open_spec(b);
    R::from_i64_spec((-2) as i64).mul_spec(u.ln_spec()).sqrt_spec().mul_spec(
        R::tau_spec().mul_spec(v).cos_spec(),
    )
}

/// Map 64 random bits to a uniform deviate in `(0, 1]` (53 mantissa bits;
/// never zero, so `ln()` is safe).
pub fn unit_open<R: Real>(bits: u64) -> (r: R)
    ensures
        r == unit_open_spec::<R>(bits),
{
    proof {
        unit_ticks_are_in_range(bits);
    }
    let ticks: u64 = (bits >> 11) + 1;
    R::from_u64(ticks).mul(R::one().div(R::from_u64(0x20_0000_0000_0000)))
}

/// Standard normal deviate as a pure function of `key`.
pub fn standard_normal<R: Real>(key: u64) -> (r: R)
    ensures
        r == standard_normal_spec::<R>(key),
{
    let a: u64 = splitmix64(key);
    let b: u64 = splitmix64(a ^ 0xD1B5_4A32_D192_ED03);
    let u: R = unit_open(a);
    let v: R = unit_open(b);
    R::from_i64(-2).mul(u.ln()).sqrt().mul(R::tau().mul(v).cos())
}

} // verus!
