//! Per-worker scratch memory.
//!
//! Models declare their scratch needs up front as a [`ScratchSpec`]; the
//! simulation allocates a [`ScratchPool`] from it at setup. Inside the hot loop a
//! model borrows pre-sized slabs by index. Slabs are block-sized (ghost-inclusive
//! for the largest ghost width the model uses) so a scratch slab can be viewed
//! through the grid exactly like a field slab.
use std::marker::PhantomData;

use vstd::prelude::*;

use crate::engine::storage::{Allocator, Scalar, StorageBackend};

verus! {

/// A lock around a value. Its contents change behind shared references, so
/// nothing is known of what a lock holds.
#[verifier::external_type_specification]
#[verifier::external_body]
#[verifier::reject_recursive_types(R)]
#[verifier::reject_recursive_types(X)]
pub struct ExMutex<R, X: ?Sized>(parking_lot::lock_api::Mutex<R, X>);

/// The word-sized lock state of [`parking_lot::Mutex`].
#[verifier::external_type_specification]
#[verifier::external_body]
pub struct ExRawMutex(parking_lot::RawMutex);

/// Calls `parking_lot::Mutex::new`: an unlocked lock around `value`.
#[verifier::external_body]
fn new_lock<X>(value: X) -> parking_lot::lock_api::Mutex<parking_lot::RawMutex, X> {
    parking_lot::Mutex::new(value)
}

/// Calls `parking_lot::Mutex::lock`, puts `value` in and hands out what was
/// there. What that is depends on the other users of the lock.
#[verifier::external_body]
fn exchange<X>(slot: &parking_lot::lock_api::Mutex<parking_lot::RawMutex, X>, value: X) -> X {
    std::mem::replace(&mut *slot.lock(), value)
}

/// How many block-sized scratch slabs a model needs, and how long each must be.
/// `slab_len` is grid-dependent, so models compute it from the block length for
/// their widest-ghost field.
#[derive(Debug, Clone, Copy)]
pub struct ScratchSpec {
    /// Number of block-sized scratch slabs required.
    pub slabs: usize,
    /// Length of each slab in elements (ghost-inclusive block length).
    pub slab_len: usize,
}

impl ScratchSpec {
    /// No scratch required.
    pub fn none() -> (r: Self)
        ensures
            r.slabs == 0,
            r.slab_len == 0,
    {
        ScratchSpec { slabs: 0, slab_len: 0 }
    }
}

/// A worker-private set of scratch slabs.
#[verifier::reject_recursive_types(T)]
#[verifier::reject_recursive_types(S)]
pub struct Scratch<T: Scalar, S: StorageBackend<T>> {
    slabs: Vec<S>,
    marker: PhantomData<T>,
}

impl<T: Scalar, S: StorageBackend<T>> Scratch<T, S> {
    /// Contents of the slabs.
    pub closed spec fn contents(&self) -> Seq<Seq<T>> {
        Seq::new(self.slabs@.len(), |i: int| self.slabs@[i].data())
    }

    /// There are as many slabs as asked for, each as long as asked for.
    pub open spec fn meets(&self, spec: ScratchSpec) -> bool {
        &&& self.contents().len() == spec.slabs
        &&& forall|i: int|
            0 <= i < self.contents().len() ==> (#[trigger] self.contents()[i]).len()
                == spec.slab_len
    }

    /// Allocate the slabs described by `spec` (setup-time only).
    pub fn allocate<A: Allocator<T, Storage = S>>(spec: ScratchSpec, alloc: &A) -> (r: Self)
        ensures
            r.contents() == Seq::new(
                spec.slabs as nat,
                |i: int| Seq::new(spec.slab_len as nat, |k: int| T::zero_spec()),
            ),
            r.meets(spec),
    {
        let mut slabs: Vec<S> = Vec::new();
        while slabs.len() < spec.slabs
            invariant
                slabs@.len() <= spec.slabs,
                forall|i: int|
                    0 <= i < slabs@.len() ==> (#[trigger] slabs@[i]).data() == Seq::new(
                        spec.slab_len as nat,
                        |k: int| T::zero_spec(),
                    ),
            decreases spec.slabs - slabs.len(),
        {
            slabs.push(alloc.allocate(spec.slab_len));
        }
        let r = Scratch { slabs, marker: PhantomData };
        proof {
            assert(r.contents() =~~= Seq::new(
                spec.slabs as nat,
                |i: int| Seq::new(spec.slab_len as nat, |k: int| T::zero_spec()),
            ));
        }
        r
    }

    /// Whether the slabs are as asked for.
    pub fn serves(&self, spec: ScratchSpec) -> (r: bool)
        ensures
            r == self.meets(spec),
    {
        if self.slabs.len() != spec.slabs {
            return false;
        }
        let mut i: usize = 0;
        while i < self.slabs.len()
            invariant
                i <= self.slabs@.len(),
                forall|k: int|
                    0 <= k < i ==> (#[trigger] self.contents()[k]).len() == spec.slab_len,
            decreases self.slabs.len() - i,
        {
            if self.slabs[i].len() != spec.slab_len {
                assert(self.contents()[i as int].len() != spec.slab_len);
                return false;
            }
            assert(self.contents()[i as int].len() == spec.slab_len);
            i += 1;
        }
        true
    }

    /// Borrow one slab. Contents are unspecified between uses; callers overwrite
    /// before reading.
    pub fn slab_mut(&mut self, i: usize) -> (r: &mut [T])
        requires
            i < old(self).contents().len(),
        ensures
            r@ == old(self).contents()[i as int],
            final(r)@.len() == r@.len() ==> final(self).contents() =~~= old(self).contents().update(
                i as int,
                final(r)@,
            ),
    {
        self.slabs[i].as_mut_slice()
    }

    /// Borrow all slabs at once (each independently mutable).
    pub fn slabs_mut(&mut self) -> (r: &mut [S])
        ensures
            r@.len() == old(self).contents().len(),
            forall|i: int|
                0 <= i < r@.len() ==> (#[trigger] r@[i]).data() == old(self).contents()[i],
            final(self).contents() =~= Seq::new(
                final(r)@.len(),
                |i: int| final(r)@[i].data(),
            ),
    {
        self.slabs.as_mut_slice()
    }
}

/// A fixed pool of [`Scratch`] instances for worker checkout.
///
/// Allocated once at simulation setup, with one instance per concurrently
/// running worker, so a sweep of the slots finds a free instance; allocating
/// another one is a safety net, not an expected path.
#[verifier::reject_recursive_types(T)]
#[verifier::reject_recursive_types(S)]
pub struct ScratchPool<T: Scalar, S: StorageBackend<T>> {
    spec_of: ScratchSpec,
    slots: Vec<parking_lot::lock_api::Mutex<parking_lot::RawMutex, Option<Scratch<T, S>>>>,
}

/// A scratch instance out of the pool, and the slot it goes back to.
#[verifier::reject_recursive_types(T)]
#[verifier::reject_recursive_types(S)]
pub struct Checkout<T: Scalar, S: StorageBackend<T>> {
    /// The instance.
    pub scratch: Scratch<T, S>,
    /// Where it came from.
    pub slot: Option<usize>,
}

impl<T: Scalar, S: StorageBackend<T>> ScratchPool<T, S> {
    /// The slabs each instance carries.
    pub closed spec fn spec(&self) -> ScratchSpec {
        self.spec_of
    }

    /// How many instances the pool keeps.
    pub closed spec fn capacity(&self) -> nat {
        self.slots@.len()
    }

    /// Allocate `concurrency` scratch instances of the given spec, at least one.
    pub fn allocate<A: Allocator<T, Storage = S>>(
        spec: ScratchSpec,
        alloc: &A,
        concurrency: usize,
    ) -> (r: Self)
        ensures
            r.spec() == spec,
            r.capacity() == if concurrency > 1 { concurrency as nat } else { 1 },
    {
        let n: usize = if concurrency > 1 {
            concurrency
        } else {
            1
        };
        let mut slots: Vec<
            parking_lot::lock_api::Mutex<parking_lot::RawMutex, Option<Scratch<T, S>>>,
        > = Vec::new();
        while slots.len() < n
            invariant
                slots@.len() <= n,
            decreases n - slots.len(),
        {
            slots.push(new_lock(Some(Scratch::allocate(spec, alloc))));
        }
        ScratchPool { spec_of: spec, slots }
    }

    /// Check out a scratch instance: the first free one, or a new one when every
    /// instance is out.
    pub fn checkout<A: Allocator<T, Storage = S>>(&self, alloc: &A) -> (r: Checkout<T, S>)
        ensures
            r.scratch.meets(self.spec()),
            r.slot matches Some(i) ==> i < self.capacity(),
    {
        let mut i: usize = 0;
        while i < self.slots.len()
            invariant
                i <= self.slots@.len(),
            decreases self.slots.len() - i,
        {
            if let Some(scratch) = exchange(&self.slots[i], None) {
                if scratch.serves(self.spec_of) {
                    return Checkout { scratch, slot: Some(i) };
                }
            }
            i += 1;
        }
        Checkout { scratch: Scratch::allocate(self.spec_of, alloc), slot: None }
    }

    /// Hand an instance back to the slot it came from.
    pub fn give_back(&self, lease: Checkout<T, S>) {
        if let Some(i) = lease.slot {
            if i < self.slots.len() {
                let _ = exchange(&self.slots[i], Some(lease.scratch));
            }
        }
    }
}

} // verus!
