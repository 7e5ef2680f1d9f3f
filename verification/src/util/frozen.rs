//! Vectors that have stopped growing.
use vstd::prelude::*;

verus! {

/// Calls `Vec::into_boxed_slice`: the vector's elements, in order, in a box of their
/// own length. Two boxed slices with the same elements are the same value, whatever
/// vectors they came from.
#[verifier::external_body]
pub(crate) fn frozen<T>(v: Vec<T>) -> (r: Box<[T]>)
    ensures
        r@ == v@,
{
    v.into_boxed_slice()
}

/// A growing copy of the elements.
pub(crate) fn thawed<T: Copy>(s: &[T]) -> (r: Vec<T>)
    ensures
        r@ == s@,
{
    let mut r: Vec<T> = Vec::with_capacity(s.len());
    let mut i: usize = 0;
    while i < s.len()
        invariant
            i <= s@.len(),
            r@ == s@.take(i as int),
        decreases s.len() - i,
    {
        r.push(s[i]);
        i += 1;
        assert(r@ =~= s@.take(i as int));
    }
    assert(r@ =~= s@);
    r
}

} // verus!
