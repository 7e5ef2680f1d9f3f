//! Simulation state: named fields over blocked storage.
//!
//! - **Block-major layout.** A state is `blocks x fields`: a block bundles
//!   every field slab it owns, so the scheduler can hand each worker a disjoint
//!   `&mut BlockStorage`.
//! - **Typed handles, untyped storage.** Registration returns a typed index.
//! - **Ghost cells live in the slab.** Each field declares its ghost width at
//!   registration; slabs are allocated ghost-inclusive, which makes every
//!   state-shaped buffer slab-congruent with the state itself.
//! - **Integrators see a vector space.** Stage combination is pure slab
//!   arithmetic, without spatial indexing.

use std::marker::PhantomData;
use std::sync::Arc;

use vstd::prelude::*;

use crate::engine::driver::{driven, scatter_field, scattered, Driver, DriverKind, DriverSet};
use crate::engine::scheduler::{BlockTask, Scheduler};
use crate::engine::storage::{Allocator, Real, Scalar, StorageBackend};
use crate::geometry::grid::{ghosted, slab_fits, BlockId, Grid};
use crate::geometry::index::volume;
use crate::geometry::view::{CartesianView, CartesianViewMut};
use crate::util::rng::{mix_key, mix_key_spec};

verus! {

/// Typed index of a registered field, valid for every state built from the
/// layout it was registered in.
#[derive(Debug)]
pub struct FieldHandle<T: Scalar> {
    index: usize,
    marker: PhantomData<T>,
}

impl<T: Scalar> Clone for FieldHandle<T> {
    fn clone(&self) -> (r: Self)
        ensures
            r == *self,
    {
        *self
    }
}

impl<T: Scalar> Copy for FieldHandle<T> {

}

impl<T: Scalar> FieldHandle<T> {
    /// Position of this field in the state layout.
    pub closed spec fn pos(self) -> int {
        self.index as int
    }

    /// Position of this field in the state layout.
    pub fn index(self) -> (r: usize)
        ensures
            r == self.pos(),
    {
        self.index
    }
}

/// Declaration of one field: a name for observers, the ghost-ring width its
/// stencils require, and the drivers that move it. A field moved by no driver
/// is *static*: tendency buffers allocate nothing for it and the vector-space
/// operations skip it.
#[derive(Debug, Clone)]
pub struct FieldSpec {
    /// Field name, used by observers and writers as the column name.
    pub name: &'static str,
    /// Ghost-ring width (the maximum stencil support of any operator applied
    /// to this field).
    pub halo: u32,
    /// The drivers that move this field.
    pub drivers: Vec<Driver>,
}

impl FieldSpec {
    /// The field is moved by `driver`.
    pub open spec fn moved_by(self, driver: Driver) -> bool {
        self.drivers@.contains(driver)
    }

    /// Whether `driver` moves this field.
    pub fn is_driven_by(&self, driver: Driver) -> (r: bool)
        ensures
            r == self.moved_by(driver),
    {
        let mut i: usize = 0;
        while i < self.drivers.len()
            invariant
                i <= self.drivers@.len(),
                forall|j: int| 0 <= j < i ==> #[trigger] self.drivers@[j] != driver,
            decreases self.drivers.len() - i,
        {
            if self.drivers[i] == driver {
                assert(self.drivers@[i as int] == driver);
                return true;
            }
            i += 1;
        }
        false
    }

    /// Whether no driver moves this field.
    pub fn is_static(&self) -> (r: bool)
        ensures
            r == forall|driver: Driver| !#[trigger] self.moved_by(driver),
    {
        let r = self.drivers.len() == 0;
        proof {
            if !r {
                assert(self.moved_by(self.drivers@[0]));
            }
        }
        r
    }
}

/// Immutable description of a state's fields, shared by every state-shaped
/// buffer so congruence is guaranteed by construction.
#[derive(Debug)]
pub struct StateLayout {
    specs: Vec<FieldSpec>,
}

impl StateLayout {
    /// The registered field declarations, in registration order.
    pub closed spec fn fields(&self) -> Seq<FieldSpec> {
        self.specs@
    }

    /// Ghost-ring width of a field.
    pub open spec fn halo(&self, f: int) -> int {
        self.fields()[f].halo as int
    }

    /// The registered field declarations, in registration order.
    pub fn specs(&self) -> (r: &[FieldSpec])
        ensures
            r@ == self.fields(),
    {
        self.specs.as_slice()
    }

    /// Ghost-ring width of the field at `index`.
    pub fn ghost(&self, index: usize) -> (r: u32)
        requires
            index < self.fields().len(),
        ensures
            r == self.halo(index as int),
    {
        self.specs[index].halo
    }

    /// Number of registered fields.
    pub fn num_fields(&self) -> (r: usize)
        ensures
            r == self.fields().len(),
    {
        self.specs.len()
    }
}

/// Collects field registrations before allocation; the only place field
/// handles are minted.
pub struct StateBuilder<T: Scalar> {
    specs: Vec<FieldSpec>,
    marker: PhantomData<T>,
}

impl<T: Scalar> Default for StateBuilder<T> {
    fn default() -> (r: Self)
        ensures
            r.fields() == Seq::<FieldSpec>::empty(),
    {
        Self::new()
    }
}

impl<T: Scalar> StateBuilder<T> {
    /// The fields registered so far.
    pub closed spec fn fields(&self) -> Seq<FieldSpec> {
        self.specs@
    }

    /// An empty builder with no fields registered.
    pub fn new() -> (r: Self)
        ensures
            r.fields() == Seq::<FieldSpec>::empty(),
    {
        StateBuilder { specs: Vec::new(), marker: PhantomData }
    }

    /// Register a field moved by the given drivers and return its handle.
    pub fn register_driven(
        &mut self,
        name: &'static str,
        ghost: u32,
        drivers: &[Driver],
    ) -> (r: FieldHandle<T>)
        ensures
            r.pos() == old(self).fields().len(),
            final(self).fields().len() == old(self).fields().len() + 1,
            final(self).fields().drop_last() == old(self).fields(),
            final(self).fields().last().name == name,
            final(self).fields().last().halo == ghost,
            final(self).fields().last().drivers@ == drivers@,
    {
        let index = self.specs.len();
        let mut list: Vec<Driver> = Vec::new();
        let mut i: usize = 0;
        while i < drivers.len()
            invariant
                i <= drivers@.len(),
                list@ == drivers@.take(i as int),
            decreases drivers.len() - i,
        {
            list.push(drivers[i]);
            i += 1;
            assert(list@ =~= drivers@.take(i as int));
        }
        assert(list@ =~= drivers@);
        self.specs.push(FieldSpec { name, halo: ghost, drivers: list });
        assert(self.fields().drop_last() =~= old(self).fields());
        FieldHandle { index, marker: PhantomData }
    }

    /// Allocate the state: the single up-front allocation of field memory.
    pub fn build<R: Real, G: Grid<R, D>, A: Allocator<T>, const D: usize>(
        self,
        grid: &G,
        alloc: &A,
    ) -> (r: State<T, A::Storage>)
        requires
            grid.valid(),
            layout_fits::<R, G, D>(self.fields(), grid),
            interiors_fit::<R, G, D>(grid),
        ensures
            r.fields() == self.fields(),
            r.values() == Seq::new(
                grid.blocks(),
                |b: int| fresh_block::<T>(self.fields(), grid.extent_of(b), None),
            ),
    {
        let ghost fields = self.fields();
        let layout = Arc::new(StateLayout { specs: self.specs });
        let blocks = allocate_blocks(&layout, grid, alloc, None);
        let r = State { layout, blocks };
        assert(r.values() =~= Seq::new(
            grid.blocks(),
            |b: int| fresh_block::<T>(fields, grid.extent_of(b), None),
        ));
        r
    }

    /// Register a field moved by the clock, by name with the given ghost-ring
    /// width, and return its handle.
    pub fn register(&mut self, name: &'static str, ghost: u32) -> (r: FieldHandle<T>)
        ensures
            r.pos() == old(self).fields().len(),
            final(self).fields().len() == old(self).fields().len() + 1,
            final(self).fields().drop_last() == old(self).fields(),
            final(self).fields().last().name == name,
            final(self).fields().last().halo == ghost,
            final(self).fields().last().drivers@ == seq![Driver::Time],
    {
        let drivers: [Driver; 1] = [Driver::Time];
        assert(drivers@ =~= seq![Driver::Time]);
        self.register_driven(name, ghost, &drivers)
    }

    /// Register a field with zero time derivative. It is integrated past, and
    /// tendency buffers do not allocate storage for it.
    pub fn register_static(&mut self, name: &'static str, ghost: u32) -> (r: FieldHandle<T>)
        ensures
            r.pos() == old(self).fields().len(),
            final(self).fields().len() == old(self).fields().len() + 1,
            final(self).fields().drop_last() == old(self).fields(),
            final(self).fields().last().name == name,
            final(self).fields().last().halo == ghost,
            final(self).fields().last().drivers@ == Seq::<Driver>::empty(),
    {
        let drivers: [Driver; 0] = [];
        assert(drivers@ =~= Seq::<Driver>::empty());
        self.register_driven(name, ghost, &drivers)
    }
}

/// The contents of one block: every field slab, and the jump-intensity slab of
/// a jump driver's buffer (empty otherwise).
#[verifier::ext_equal]
pub struct BlockValues<T> {
    pub fields: Seq<Seq<T>>,
    pub rate: Seq<T>,
}

/// Every field slab owned by one block: the unit of parallel dispatch and of
/// migration between grids.
#[derive(Debug)]
#[verifier::reject_recursive_types(T)]
pub struct BlockStorage<T: Scalar, S: StorageBackend<T>> {
    fields: Vec<S>,
    rate: S,
    marker: PhantomData<T>,
}

/// The buffer carries the fields `driver` moves, or every field if no driver
/// is named.
pub open spec fn carries(spec: FieldSpec, driver: Option<Driver>) -> bool {
    driver matches Some(d) ==> spec.moved_by(d)
}

/// A zeroed slab.
pub open spec fn zeros<T: Scalar>(n: int) -> Seq<T> {
    Seq::new(n as nat, |i: int| T::zero_spec())
}

/// Contents of a freshly allocated block: zeroed slabs, ghost-inclusive, for
/// the fields the buffer carries; a zeroed interior-sized intensity slab for a
/// jump driver.
pub open spec fn fresh_block<T: Scalar>(
    specs: Seq<FieldSpec>,
    ext: Seq<int>,
    driver: Option<Driver>,
) -> BlockValues<T> {
    BlockValues {
        fields: Seq::new(
            specs.len(),
            |f: int|
                zeros::<T>(
                    if carries(specs[f], driver) {
                        volume(ghosted(ext, specs[f].halo as int))
                    } else {
                        0
                    },
                ),
        ),
        rate: zeros::<T>(
            if driver matches Some(Driver::Jump(_)) {
                volume(ext)
            } else {
                0
            },
        ),
    }
}

/// Every slab of every block of `grid` can be addressed.
pub open spec fn layout_fits<R: Real, G: Grid<R, D>, const D: usize>(
    specs: Seq<FieldSpec>,
    grid: &G,
) -> bool {
    forall|b: int, f: int|
        #![trigger grid.extent_of(b), specs[f]]
        0 <= b < grid.blocks() && 0 <= f < specs.len() ==> slab_fits(
            grid.extent_of(b),
            specs[f].halo as int,
        )
}

/// Every field has a slab on every block of `grid`, ghost-inclusive.
pub open spec fn allocated_on<T, R: Real, G: Grid<R, D>, const D: usize>(
    specs: Seq<FieldSpec>,
    grid: &G,
    v: Seq<BlockValues<T>>,
) -> bool {
    &&& v.len() == grid.blocks()
    &&& layout_fits::<R, G, D>(specs, grid)
    &&& interiors_fit::<R, G, D>(grid)
    &&& forall|b: int| 0 <= b < v.len() ==> full_block(specs, grid.extent_of(b), #[trigger] v[b])
}

/// Every field has a slab on a block of these extents, ghost-inclusive; there
/// are no intensities.
pub open spec fn full_block<T>(specs: Seq<FieldSpec>, ext: Seq<int>, v: BlockValues<T>) -> bool {
    &&& v.fields.len() == specs.len()
    &&& v.rate.len() == 0
    &&& forall|f: int|
        0 <= f < specs.len() ==> (#[trigger] v.fields[f]).len() == volume(
            ghosted(ext, specs[f].halo as int),
        )
}

/// The block carries slabs for exactly the fields `driver` moves, and an
/// intensity per interior cell if it is a jump driver.
pub open spec fn tailored<T>(
    specs: Seq<FieldSpec>,
    ext: Seq<int>,
    driver: Driver,
    v: BlockValues<T>,
) -> bool {
    &&& v.fields.len() == specs.len()
    &&& forall|f: int|
        0 <= f < specs.len() ==> (#[trigger] v.fields[f]).len() == (if specs[f].moved_by(driver) {
            volume(ghosted(ext, specs[f].halo as int))
        } else {
            0
        })
    &&& v.rate.len() == (if driver is Jump {
        volume(ext)
    } else {
        0
    })
}

/// Every block of a buffer is tailored to the driver.
pub open spec fn tailored_on<T, R: Real, G: Grid<R, D>, const D: usize>(
    specs: Seq<FieldSpec>,
    grid: &G,
    driver: Driver,
    v: Seq<BlockValues<T>>,
) -> bool {
    &&& v.len() == grid.blocks()
    &&& forall|b: int| 0 <= b < v.len() ==> tailored(specs, grid.extent_of(b), driver, #[trigger] v[b])
}

/// Every block's interior can be addressed.
pub open spec fn interiors_fit<R: Real, G: Grid<R, D>, const D: usize>(grid: &G) -> bool {
    forall|b: int| 0 <= b < grid.blocks() ==> slab_fits(#[trigger] grid.extent_of(b), 0)
}

impl<T: Scalar, S: StorageBackend<T>> BlockStorage<T, S> {
    /// The contents of this block.
    pub closed spec fn values(&self) -> BlockValues<T> {
        BlockValues {
            fields: Seq::new(self.fields@.len(), |f: int| self.fields@[f].data()),
            rate: self.rate.data(),
        }
    }

    fn allocate<R: Real, G: Grid<R, D>, A: Allocator<T, Storage = S>, const D: usize>(
        layout: &StateLayout,
        grid: &G,
        block: BlockId,
        alloc: &A,
        driver: Option<Driver>,
    ) -> (r: Self)
        requires
            grid.valid(),
            block.id() < grid.blocks(),
            layout_fits::<R, G, D>(layout.fields(), grid),
            interiors_fit::<R, G, D>(grid),
        ensures
            r.values() == fresh_block::<T>(layout.fields(), grid.extent_of(block.id()), driver),
    {
        let ghost ext = grid.extent_of(block.id());
        let ghost want = fresh_block::<T>(layout.fields(), ext, driver);
        let mut fields: Vec<S> = Vec::new();
        let mut f: usize = 0;
        let n = layout.num_fields();
        while f < n
            invariant
                f <= n,
                n == layout.fields().len(),
                grid.valid(),
                block.id() < grid.blocks(),
                ext == grid.extent_of(block.id()),
                layout_fits::<R, G, D>(layout.fields(), grid),
                want == fresh_block::<T>(layout.fields(), ext, driver),
                fields@.len() == f,
                forall|k: int| 0 <= k < f ==> (#[trigger] fields@[k]).data() == want.fields[k],
            decreases n - f,
        {
            let spec = &layout.specs[f];
            let carried = match driver {
                None => true,
                Some(d) => spec.is_driven_by(d),
            };
            assert(layout.fields()[f as int] == *spec);
            assert(slab_fits(grid.extent_of(block.id()), spec.halo as int));
            let len: usize = if carried {
                grid.block_len(block, spec.halo)
            } else {
                0
            };
            let slab = alloc.allocate(len);
            assert(slab.data() =~= want.fields[f as int]);
            fields.push(slab);
            f += 1;
        }
        assert(slab_fits(grid.extent_of(block.id()), 0));
        assert(ghosted(ext, 0) =~= ext);
        let rate_len: usize = match driver {
            Some(Driver::Jump(_)) => grid.block_len(block, 0),
            _ => 0,
        };
        let rate = alloc.allocate(rate_len);
        let r = BlockStorage { fields, rate, marker: PhantomData };
        proof {
            assert(r.values().fields =~= want.fields);
            assert(r.values().rate =~= want.rate);
        }
        r
    }

    /// Zero every slab of this block.
    pub fn fill_zero(&mut self)
        ensures
            final(self).values() == zeroed(old(self).values()),
    {
        let n = self.fields.len();
        let ghost before = *self;
        let mut f: usize = 0;
        while f < n
            invariant
                f <= n,
                n == self.fields@.len(),
                before.fields@.len() == n,
                self.rate == before.rate,
                forall|k: int|
                    0 <= k < f ==> (#[trigger] self.fields@[k]).data() == zeros::<T>(
                        before.fields@[k].data().len() as int,
                    ),
                forall|k: int| f <= k < n ==> #[trigger] self.fields@[k] == before.fields@[k],
            decreases n - f,
        {
            let slab = self.fields[f].as_mut_slice();
            fill_with_zero(slab);
            f += 1;
        }
        let slab = self.rate.as_mut_slice();
        fill_with_zero(slab);
        proof {
            assert(self.values().fields =~= zeroed(before.values()).fields);
            assert(self.values().rate =~= zeroed(before.values()).rate);
        }
    }
}

/// A block with every entry zero.
pub open spec fn zeroed<T: Scalar>(v: BlockValues<T>) -> BlockValues<T> {
    BlockValues {
        fields: Seq::new(v.fields.len(), |f: int| zeros::<T>(v.fields[f].len() as int)),
        rate: zeros::<T>(v.rate.len() as int),
    }
}

fn fill_with_zero<T: Scalar>(slab: &mut [T])
    ensures
        final(slab)@ == zeros::<T>(old(slab)@.len() as int),
{
    let n = slab.len();
    let mut i: usize = 0;
    while i < n
        invariant
            i <= n,
            slab@.len() == n,
            old(slab)@.len() == n,
            forall|j: int| 0 <= j < i ==> #[trigger] slab@[j] == T::zero_spec(),
        decreases n - i,
    {
        slab[i] = T::zero();
        i += 1;
    }
    assert(slab@ =~= zeros::<T>(old(slab)@.len() as int));
}

/// The complete simulation state, or any state-shaped buffer: integrator
/// stages, tendencies, noise amplitudes.
#[derive(Debug)]
#[verifier::reject_recursive_types(T)]
pub struct State<T: Scalar, S: StorageBackend<T>> {
    layout: Arc<StateLayout>,
    blocks: Vec<BlockStorage<T, S>>,
}

impl<T: Scalar, S: StorageBackend<T>> State<T, S> {
    /// The field declarations this state was built from.
    pub closed spec fn fields(&self) -> Seq<FieldSpec> {
        self.layout.fields()
    }

    /// The contents, block by block.
    pub closed spec fn values(&self) -> Seq<BlockValues<T>> {
        Seq::new(self.blocks@.len(), |b: int| self.blocks@[b].values())
    }

    /// One field slab of one block.
    pub open spec fn slab_of(&self, b: int, f: int) -> Seq<T> {
        self.values()[b].fields[f]
    }

    /// The shared field layout this state was built from.
    pub fn layout(&self) -> (r: &StateLayout)
        ensures
            r.fields() == self.fields(),
    {
        &self.layout
    }

    /// Number of blocks this state spans.
    pub fn num_blocks(&self) -> (r: usize)
        ensures
            r == self.values().len(),
    {
        self.blocks.len()
    }

    /// A congruent, zeroed buffer sharing this state's layout, carrying every
    /// field including statics (snapshot rings, stage states).
    pub fn like<R: Real, G: Grid<R, D>, A: Allocator<T, Storage = S>, const D: usize>(
        &self,
        grid: &G,
        alloc: &A,
    ) -> (r: Self)
        requires
            grid.valid(),
            layout_fits::<R, G, D>(self.fields(), grid),
            interiors_fit::<R, G, D>(grid),
        ensures
            r.fields() == self.fields(),
            r.values() == Seq::new(
                grid.blocks(),
                |b: int| fresh_block::<T>(self.fields(), grid.extent_of(b), None),
            ),
    {
        self.like_impl(grid, alloc, None)
    }

    /// A congruent, zeroed buffer for one driver's vector field: storage for
    /// exactly the fields that driver moves, and an intensity slab for a jump
    /// driver. Other fields get zero-length storage and are skipped by the
    /// vector-space operations.
    pub fn like_for<R: Real, G: Grid<R, D>, A: Allocator<T, Storage = S>, const D: usize>(
        &self,
        grid: &G,
        alloc: &A,
        driver: Driver,
    ) -> (r: Self)
        requires
            grid.valid(),
            layout_fits::<R, G, D>(self.fields(), grid),
            interiors_fit::<R, G, D>(grid),
        ensures
            r.fields() == self.fields(),
            r.values() == Seq::new(
                grid.blocks(),
                |b: int| fresh_block::<T>(self.fields(), grid.extent_of(b), Some(driver)),
            ),
    {
        self.like_impl(grid, alloc, Some(driver))
    }

    /// A congruent buffer for *tendencies* of the clock: static fields get
    /// zero-length storage.
    pub fn like_tendency<R: Real, G: Grid<R, D>, A: Allocator<T, Storage = S>, const D: usize>(
        &self,
        grid: &G,
        alloc: &A,
    ) -> (r: Self)
        requires
            grid.valid(),
            layout_fits::<R, G, D>(self.fields(), grid),
            interiors_fit::<R, G, D>(grid),
        ensures
            r.fields() == self.fields(),
            r.values() == Seq::new(
                grid.blocks(),
                |b: int| fresh_block::<T>(self.fields(), grid.extent_of(b), Some(Driver::Time)),
            ),
    {
        self.like_impl(grid, alloc, Some(Driver::Time))
    }

    /// A zeroed state with this layout over another grid.
    pub fn reshaped<R: Real, G: Grid<R, D>, A: Allocator<T, Storage = S>, const D: usize>(
        &self,
        grid: &G,
        alloc: &A,
    ) -> (r: Self)
        requires
            grid.valid(),
            layout_fits::<R, G, D>(self.fields(), grid),
            interiors_fit::<R, G, D>(grid),
        ensures
            r.fields() == self.fields(),
            r.values() == Seq::new(
                grid.blocks(),
                |b: int| fresh_block::<T>(self.fields(), grid.extent_of(b), None),
            ),
    {
        self.like_impl(grid, alloc, None)
    }

    /// Handle of the field at a layout position.
    pub fn handle_at(index: usize) -> (r: FieldHandle<T>)
        ensures
            r.pos() == index,
    {
        FieldHandle { index, marker: PhantomData }
    }

    /// Handle of the first field registered under `name`.
    pub fn field(&self, name: &str) -> (r: Option<FieldHandle<T>>)
        ensures
            r is None <==> forall|f: int|
                0 <= f < self.fields().len() ==> (#[trigger] self.fields()[f]).name@ != name@,
            r matches Some(h) ==> 0 <= h.pos() < self.fields().len() && self.fields()[h.pos()].name@
                == name@ && forall|f: int|
                0 <= f < h.pos() ==> (#[trigger] self.fields()[f]).name@ != name@,
    {
        let specs = self.layout().specs();
        let wanted: String = name.to_owned();
        let mut i: usize = 0;
        while i < specs.len()
            invariant
                i <= specs@.len(),
                specs@ == self.fields(),
                wanted@ == name@,
                forall|f: int| 0 <= f < i ==> (#[trigger] self.fields()[f]).name@ != name@,
            decreases specs.len() - i,
        {
            let candidate: String = specs[i].name.to_owned();
            if candidate == wanted {
                return Some(Self::handle_at(i));
            }
            i += 1;
        }
        None
    }

    /// The block and field exist.
    pub open spec fn has_slab(&self, b: int, f: int) -> bool {
        0 <= b < self.values().len() && 0 <= f < self.values()[b].fields.len()
    }

    /// The slab of a field on a block has the length the grid gives it.
    pub open spec fn slab_matches<R: Real, G: Grid<R, D>, const D: usize>(
        &self,
        grid: &G,
        b: int,
        f: int,
    ) -> bool {
        &&& self.has_slab(b, f)
        &&& b < grid.blocks()
        &&& f < self.fields().len()
        &&& slab_fits(grid.extent_of(b), self.fields()[f].halo as int)
        &&& self.slab_of(b, f).len() == volume(
            ghosted(grid.extent_of(b), self.fields()[f].halo as int),
        )
    }

    /// Raw slab of one field on one block (ghost-inclusive).
    pub fn slab(&self, block: BlockId, handle: FieldHandle<T>) -> (r: &[T])
        requires
            self.has_slab(block.id(), handle.pos()),
        ensures
            r@ == self.slab_of(block.id(), handle.pos()),
    {
        self.blocks[block.index()].fields[handle.index()].as_slice()
    }

    /// Mutable raw slab of one field on one block (ghost-inclusive).
    pub fn slab_mut(&mut self, block: BlockId, handle: FieldHandle<T>) -> (r: &mut [T])
        requires
            old(self).has_slab(block.id(), handle.pos()),
        ensures
            r@ == old(self).slab_of(block.id(), handle.pos()),
            final(r)@.len() == r@.len() ==> final(self).fields() == old(self).fields()
                && final(self).values() =~~= with_slab(
                old(self).values(),
                block.id(),
                handle.pos(),
                final(r)@,
            ),
    {
        self.blocks[block.index()].fields[handle.index()].as_mut_slice()
    }

    /// Typed read view of one field on one block.
    pub fn view<'a, R: Real, G: Grid<R, D>, const D: usize>(
        &'a self,
        grid: &'a G,
        block: BlockId,
        handle: FieldHandle<T>,
    ) -> (r: CartesianView<'a, T, D>)
        requires
            grid.valid(),
            self.slab_matches::<R, G, D>(grid, block.id(), handle.pos()),
        ensures
            r.valid(),
            r.data() == self.slab_of(block.id(), handle.pos()),
            r.ext() == grid.extent_of(block.id()),
            r.width() == self.fields()[handle.pos()].halo,
    {
        let ghost_width = self.layout.ghost(handle.index());
        grid.view(block, ghost_width, self.slab(block, handle))
    }

    /// Typed mutable view of one field on one block.
    pub fn view_mut<'a, R: Real, G: Grid<R, D>, const D: usize>(
        &'a mut self,
        grid: &'a G,
        block: BlockId,
        handle: FieldHandle<T>,
    ) -> (r: CartesianViewMut<'a, T, D>)
        requires
            grid.valid(),
            old(self).slab_matches::<R, G, D>(grid, block.id(), handle.pos()),
        ensures
            r.valid(),
            r.data@ == old(self).slab_of(block.id(), handle.pos()),
            r.ext() == grid.extent_of(block.id()),
            r.width() == old(self).fields()[handle.pos()].halo,
            final(r.data)@.len() == r.data@.len() ==> final(self).fields() == old(self).fields()
                && final(self).values() =~~= with_slab(
                old(self).values(),
                block.id(),
                handle.pos(),
                final(r.data)@,
            ),
    {
        let ghost_width = self.layout.ghost(handle.index());
        grid.view_mut(block, ghost_width, self.slab_mut(block, handle))
    }

    /// Split into layout and per-block storage for parallel dispatch. The
    /// scheduler pairs each `&mut BlockStorage` with a worker; disjointness is
    /// structural.
    pub fn split_blocks_mut(&mut self) -> (r: (&StateLayout, &mut [BlockStorage<T, S>]))
        ensures
            r.0.fields() == old(self).fields(),
            block_values(r.1@) == old(self).values(),
            final(self).fields() == old(self).fields(),
            final(self).values() == block_values(final(r.1)@),
    {
        (&self.layout, self.blocks.as_mut_slice())
    }

    /// One field's slab mutably on `dst` and immutably on `src` at once.
    pub fn slab_pair_mut(
        &mut self,
        dst: BlockId,
        src: BlockId,
        handle: FieldHandle<T>,
    ) -> (r: (&mut [T], &[T]))
        requires
            dst != src,
            old(self).has_slab(dst.id(), handle.pos()),
            old(self).has_slab(src.id(), handle.pos()),
        ensures
            r.0@ == old(self).slab_of(dst.id(), handle.pos()),
            r.1@ == old(self).slab_of(src.id(), handle.pos()),
            final(r.0)@.len() == r.0@.len() ==> final(self).fields() == old(self).fields()
                && final(self).values() =~~= with_slab(
                old(self).values(),
                dst.id(),
                handle.pos(),
                final(r.0)@,
            ),
    {
        let d = dst.index();
        let s = src.index();
        let f = handle.index();
        if d < s {
            let (low, high) = self.blocks.as_mut_slice().split_at_mut(s);
            (low[d].fields[f].as_mut_slice(), high[0].fields[f].as_slice())
        } else {
            let (low, high) = self.blocks.as_mut_slice().split_at_mut(d);
            (high[0].fields[f].as_mut_slice(), low[s].fields[f].as_slice())
        }
    }

    fn like_impl<R: Real, G: Grid<R, D>, A: Allocator<T, Storage = S>, const D: usize>(
        &self,
        grid: &G,
        alloc: &A,
        driver: Option<Driver>,
    ) -> (r: Self)
        requires
            grid.valid(),
            layout_fits::<R, G, D>(self.fields(), grid),
            interiors_fit::<R, G, D>(grid),
        ensures
            r.fields() == self.fields(),
            r.values() == Seq::new(
                grid.blocks(),
                |b: int| fresh_block::<T>(self.fields(), grid.extent_of(b), driver),
            ),
    {
        let layout = Arc::clone(&self.layout);
        let blocks = allocate_blocks(&layout, grid, alloc, driver);
        let r = State { layout, blocks };
        assert(r.values() =~= Seq::new(
            grid.blocks(),
            |b: int| fresh_block::<T>(self.fields(), grid.extent_of(b), driver),
        ));
        r
    }
}

fn allocate_blocks<
    T: Scalar,
    S: StorageBackend<T>,
    R: Real,
    G: Grid<R, D>,
    A: Allocator<T, Storage = S>,
    const D: usize,
>(layout: &StateLayout, grid: &G, alloc: &A, driver: Option<Driver>) -> (blocks: Vec<
    BlockStorage<T, S>,
>)
    requires
        grid.valid(),
        layout_fits::<R, G, D>(layout.fields(), grid),
        interiors_fit::<R, G, D>(grid),
    ensures
        blocks@.len() == grid.blocks(),
        forall|b: int|
            0 <= b < grid.blocks() ==> (#[trigger] blocks@[b]).values() == fresh_block::<T>(
                layout.fields(),
                grid.extent_of(b),
                driver,
            ),
{
    let n = grid.num_blocks();
    proof {
        grid.lemma_blocks();
    }
    let mut blocks: Vec<BlockStorage<T, S>> = Vec::new();
    let mut b: usize = 0;
    while b < n
        invariant
            b <= n,
            n == grid.blocks(),
            n <= u32::MAX,
            grid.valid(),
            layout_fits::<R, G, D>(layout.fields(), grid),
            interiors_fit::<R, G, D>(grid),
            blocks@.len() == b,
            forall|k: int|
                0 <= k < b ==> (#[trigger] blocks@[k]).values() == fresh_block::<T>(
                    layout.fields(),
                    grid.extent_of(k),
                    driver,
                ),
        decreases n - b,
    {
        let block = BlockStorage::allocate(layout, grid, BlockId(b as u32), alloc, driver);
        blocks.push(block);
        b += 1;
    }
    blocks
}

/// The contents with one slab replaced.
pub open spec fn with_slab<T>(
    v: Seq<BlockValues<T>>,
    b: int,
    f: int,
    slab: Seq<T>,
) -> Seq<BlockValues<T>> {
    v.update(b, BlockValues { fields: v[b].fields.update(f, slab), rate: v[b].rate })
}

/// The contents of a run of blocks.
pub open spec fn block_values<T: Scalar, S: StorageBackend<T>>(
    blocks: Seq<BlockStorage<T, S>>,
) -> Seq<BlockValues<T>> {
    Seq::new(blocks.len(), |b: int| blocks[b].values())
}

/// Mutable access to every field of *one* block, as handed to a model for its
/// output.
#[verifier::reject_recursive_types(T)]
pub struct BlockStateMut<'a, T: Scalar, S: StorageBackend<T>> {
    pub layout: &'a StateLayout,
    pub storage: &'a mut BlockStorage<T, S>,
}

impl<T: Scalar, S: StorageBackend<T>> BlockStorage<T, S> {
    /// Bind this block's storage to its layout for typed mutable access.
    pub fn bind_mut<'a>(&'a mut self, layout: &'a StateLayout) -> (r: BlockStateMut<'a, T, S>)
        ensures
            r.storage.values() == old(self).values(),
            r.layout.fields() == layout.fields(),
            *final(r.storage) == *final(self),
    {
        BlockStateMut { layout, storage: self }
    }
}

impl<'a, T: Scalar, S: StorageBackend<T>> BlockStateMut<'a, T, S> {
    /// Mutable raw slab of one field (ghost-inclusive).
    pub fn slab_mut(&mut self, handle: FieldHandle<T>) -> (r: &mut [T])
        requires
            0 <= handle.pos() < old(self).storage.values().fields.len(),
        ensures
            r@ == old(self).storage.values().fields[handle.pos()],
            final(self).layout == old(self).layout,
            *final(final(self).storage) == *final(old(self).storage),
            final(r)@.len() == r@.len() ==> final(self).storage.values() =~~= (BlockValues {
                fields: old(self).storage.values().fields.update(handle.pos(), final(r)@),
                rate: old(self).storage.values().rate,
            }),
    {
        self.storage.fields[handle.index()].as_mut_slice()
    }

    /// Mutable view of one field.
    pub fn view_mut<'s, R: Real, G: Grid<R, D>, const D: usize>(
        &'s mut self,
        grid: &'s G,
        block: BlockId,
        handle: FieldHandle<T>,
    ) -> (r: CartesianViewMut<'s, T, D>)
        requires
            grid.valid(),
            block.id() < grid.blocks(),
            0 <= handle.pos() < old(self).storage.values().fields.len(),
            handle.pos() < old(self).layout.fields().len(),
            slab_fits(grid.extent_of(block.id()), old(self).layout.halo(handle.pos())),
            old(self).storage.values().fields[handle.pos()].len() == volume(
                ghosted(grid.extent_of(block.id()), old(self).layout.halo(handle.pos())),
            ),
        ensures
            r.valid(),
            r.data@ == old(self).storage.values().fields[handle.pos()],
            r.ext() == grid.extent_of(block.id()),
            r.width() == old(self).layout.halo(handle.pos()),
            final(self).layout == old(self).layout,
            *final(final(self).storage) == *final(old(self).storage),
            final(r.data)@.len() == r.data@.len() ==> final(self).storage.values() =~~= (
            BlockValues {
                fields: old(self).storage.values().fields.update(handle.pos(), final(r.data)@),
                rate: old(self).storage.values().rate,
            }),
    {
        let ghost_width = self.layout.ghost(handle.index());
        grid.view_mut(block, ghost_width, self.slab_mut(handle))
    }

    /// Mutable view of the jump-intensity slab: one entry per interior cell.
    pub fn intensity_mut<'s, R: Real, G: Grid<R, D>, const D: usize>(
        &'s mut self,
        grid: &'s G,
        block: BlockId,
    ) -> (r: CartesianViewMut<'s, T, D>)
        requires
            grid.valid(),
            block.id() < grid.blocks(),
            slab_fits(grid.extent_of(block.id()), 0),
            old(self).storage.values().rate.len() == volume(ghosted(grid.extent_of(block.id()), 0)),
        ensures
            r.valid(),
            r.data@ == old(self).storage.values().rate,
            r.ext() == grid.extent_of(block.id()),
            r.width() == 0,
            final(self).layout == old(self).layout,
            *final(final(self).storage) == *final(old(self).storage),
            final(r.data)@.len() == r.data@.len() ==> final(self).storage.values() =~~= (
            BlockValues { fields: old(self).storage.values().fields, rate: final(r.data)@ }),
    {
        grid.view_mut(block, 0, self.storage.rate.as_mut_slice())
    }

    /// Simultaneously borrow one field mutably and another immutably: the
    /// idiom for coupled tendencies.
    pub fn view_split<'s, R: Real, G: Grid<R, D>, const D: usize>(
        &'s mut self,
        grid: &'s G,
        block: BlockId,
        write: FieldHandle<T>,
        read: FieldHandle<T>,
    ) -> (r: (CartesianViewMut<'s, T, D>, CartesianView<'s, T, D>))
        requires
            grid.valid(),
            block.id() < grid.blocks(),
            write.pos() != read.pos(),
            0 <= write.pos() < old(self).storage.values().fields.len(),
            0 <= read.pos() < old(self).storage.values().fields.len(),
            write.pos() < old(self).layout.fields().len(),
            read.pos() < old(self).layout.fields().len(),
            slab_fits(grid.extent_of(block.id()), old(self).layout.halo(write.pos())),
            slab_fits(grid.extent_of(block.id()), old(self).layout.halo(read.pos())),
            old(self).storage.values().fields[write.pos()].len() == volume(
                ghosted(grid.extent_of(block.id()), old(self).layout.halo(write.pos())),
            ),
            old(self).storage.values().fields[read.pos()].len() == volume(
                ghosted(grid.extent_of(block.id()), old(self).layout.halo(read.pos())),
            ),
        ensures
            r.0.valid(),
            r.0.data@ == old(self).storage.values().fields[write.pos()],
            r.0.ext() == grid.extent_of(block.id()),
            r.0.width() == old(self).layout.halo(write.pos()),
            r.1.valid(),
            r.1.data() == old(self).storage.values().fields[read.pos()],
            r.1.ext() == grid.extent_of(block.id()),
            r.1.width() == old(self).layout.halo(read.pos()),
            final(self).layout == old(self).layout,
            *final(final(self).storage) == *final(old(self).storage),
            final(r.0.data)@.len() == r.0.data@.len() ==> final(self).storage.values() =~~= (
            BlockValues {
                fields: old(self).storage.values().fields.update(write.pos(), final(r.0.data)@),
                rate: old(self).storage.values().rate,
            }),
    {
        let w = write.index();
        let q = read.index();
        let write_width = self.layout.ghost(w);
        let read_width = self.layout.ghost(q);
        if w < q {
            let (low, high) = self.storage.fields.as_mut_slice().split_at_mut(q);
            (
                grid.view_mut(block, write_width, low[w].as_mut_slice()),
                grid.view(block, read_width, high[0].as_slice()),
            )
        } else {
            let (low, high) = self.storage.fields.as_mut_slice().split_at_mut(w);
            (
                grid.view_mut(block, write_width, high[0].as_mut_slice()),
                grid.view(block, read_width, low[q].as_slice()),
            )
        }
    }
}

/// `x + alpha * y`, entry by entry; a slab paired with an empty one (a field
/// the other buffer does not carry) is left alone.
pub open spec fn axpy_slab<T: Real>(x: Seq<T>, alpha: T, y: Seq<T>) -> Seq<T> {
    if x.len() == 0 || y.len() == 0 {
        x
    } else {
        Seq::new(x.len(), |i: int| x[i].add_spec(alpha.mul_spec(y[i])))
    }
}

/// `y`, unless one of the two slabs is empty.
pub open spec fn copied_slab<T>(x: Seq<T>, y: Seq<T>) -> Seq<T> {
    if x.len() == 0 || y.len() == 0 {
        x
    } else {
        y
    }
}

/// `v + alpha * w` on every field of a block.
pub open spec fn axpy_block<T: Real>(v: BlockValues<T>, alpha: T, w: BlockValues<T>) -> BlockValues<
    T,
> {
    BlockValues {
        fields: Seq::new(v.fields.len(), |f: int| axpy_slab(v.fields[f], alpha, w.fields[f])),
        rate: v.rate,
    }
}

/// `w` copied over `v` on every field both carry.
pub open spec fn copied_block<T>(v: BlockValues<T>, w: BlockValues<T>) -> BlockValues<T> {
    BlockValues {
        fields: Seq::new(v.fields.len(), |f: int| copied_slab(v.fields[f], w.fields[f])),
        rate: v.rate,
    }
}

/// The slabs of the two blocks pair up: equal lengths wherever both carry the
/// field.
pub open spec fn matched<T>(v: BlockValues<T>, w: BlockValues<T>) -> bool {
    &&& v.fields.len() == w.fields.len()
    &&& forall|f: int|
        #![trigger v.fields[f]]
        #![trigger w.fields[f]]
        0 <= f < v.fields.len() ==> v.fields[f].len() == w.fields[f].len() || v.fields[f].len()
            == 0 || w.fields[f].len() == 0
}

/// The two buffers pair up block by block.
pub open spec fn congruent<T>(v: Seq<BlockValues<T>>, w: Seq<BlockValues<T>>) -> bool {
    &&& v.len() == w.len()
    &&& forall|b: int|
        #![trigger v[b]]
        #![trigger w[b]]
        0 <= b < v.len() ==> matched(v[b], w[b])
}

/// `v + alpha * w` on every block.
pub open spec fn axpy_values<T: Real>(
    v: Seq<BlockValues<T>>,
    alpha: T,
    w: Seq<BlockValues<T>>,
) -> Seq<BlockValues<T>> {
    Seq::new(v.len(), |b: int| axpy_block(v[b], alpha, w[b]))
}

/// `w` copied over `v` on every block.
pub open spec fn copied_values<T>(
    v: Seq<BlockValues<T>>,
    w: Seq<BlockValues<T>>,
) -> Seq<BlockValues<T>> {
    Seq::new(v.len(), |b: int| copied_block(v[b], w[b]))
}

fn block_axpy<T: Real, S: StorageBackend<T>>(
    mine: &mut BlockStorage<T, S>,
    theirs: &BlockStorage<T, S>,
    alpha: T,
)
    requires
        matched(old(mine).values(), theirs.values()),
    ensures
        final(mine).values() == axpy_block(old(mine).values(), alpha, theirs.values()),
{
    let ghost v = mine.values();
    let ghost w = theirs.values();
    let ghost want = axpy_block(v, alpha, w);
    let n = mine.fields.len();
    let mut f: usize = 0;
    while f < n
        invariant
            f <= n,
            n == mine.fields@.len(),
            n == theirs.fields@.len(),
            n == v.fields.len(),
            w == theirs.values(),
            matched(v, w),
            want == axpy_block(v, alpha, w),
            mine.rate.data() == v.rate,
            forall|k: int| 0 <= k < f ==> (#[trigger] mine.fields@[k]).data() == want.fields[k],
            forall|k: int| f <= k < n ==> (#[trigger] mine.fields@[k]).data() == v.fields[k],
        decreases n - f,
    {
        assert(theirs.fields@[f as int].data() == w.fields[f as int]);
        assert(mine.fields@[f as int].data() == v.fields[f as int]);
        if !mine.fields[f].is_empty() && !theirs.fields[f].is_empty() {
            let y = theirs.fields[f].as_slice();
            let x = mine.fields[f].as_mut_slice();
            slab_axpy(x, y, alpha);
        }
        assert(mine.fields@[f as int].data() =~= want.fields[f as int]);
        f += 1;
    }
    assert(mine.values() =~~= want);
}

fn slab_axpy<T: Real>(x: &mut [T], y: &[T], alpha: T)
    requires
        old(x)@.len() == y@.len(),
    ensures
        final(x)@ == Seq::new(
            old(x)@.len(),
            |i: int| old(x)@[i].add_spec(alpha.mul_spec(y@[i])),
        ),
{
    let ghost x0 = x@;
    let n = x.len();
    let mut i: usize = 0;
    while i < n
        invariant
            i <= n,
            n == x@.len(),
            n == y@.len(),
            n == x0.len(),
            forall|j: int|
                0 <= j < i ==> #[trigger] x@[j] == x0[j].add_spec(alpha.mul_spec(y@[j])),
            forall|j: int| i <= j < n ==> #[trigger] x@[j] == x0[j],
        decreases n - i,
    {
        x[i] = x[i].add(alpha.mul(y[i]));
        i += 1;
    }
    assert(x@ =~= Seq::new(x0.len(), |i: int| x0[i].add_spec(alpha.mul_spec(y@[i]))));
}

fn slab_copy<T: Scalar>(x: &mut [T], y: &[T])
    requires
        old(x)@.len() == y@.len(),
    ensures
        final(x)@ == y@,
{
    let n = x.len();
    let mut i: usize = 0;
    while i < n
        invariant
            i <= n,
            n == x@.len(),
            n == y@.len(),
            forall|j: int| 0 <= j < i ==> #[trigger] x@[j] == y@[j],
        decreases n - i,
    {
        x[i] = y[i];
        i += 1;
    }
    assert(x@ =~= y@);
}

fn block_copy<T: Scalar, S: StorageBackend<T>>(
    mine: &mut BlockStorage<T, S>,
    theirs: &BlockStorage<T, S>,
)
    requires
        matched(old(mine).values(), theirs.values()),
    ensures
        final(mine).values() == copied_block(old(mine).values(), theirs.values()),
{
    let ghost v = mine.values();
    let ghost w = theirs.values();
    let ghost want = copied_block(v, w);
    let n = mine.fields.len();
    let mut f: usize = 0;
    while f < n
        invariant
            f <= n,
            n == mine.fields@.len(),
            n == theirs.fields@.len(),
            n == v.fields.len(),
            w == theirs.values(),
            matched(v, w),
            want == copied_block(v, w),
            mine.rate.data() == v.rate,
            forall|k: int| 0 <= k < f ==> (#[trigger] mine.fields@[k]).data() == want.fields[k],
            forall|k: int| f <= k < n ==> (#[trigger] mine.fields@[k]).data() == v.fields[k],
        decreases n - f,
    {
        assert(theirs.fields@[f as int].data() == w.fields[f as int]);
        assert(mine.fields@[f as int].data() == v.fields[f as int]);
        if !mine.fields[f].is_empty() && !theirs.fields[f].is_empty() {
            let y = theirs.fields[f].as_slice();
            let x = mine.fields[f].as_mut_slice();
            slab_copy(x, y);
        }
        assert(mine.fields@[f as int].data() =~= want.fields[f as int]);
        f += 1;
    }
    assert(mine.values() =~~= want);
}

#[verifier::reject_recursive_types(T)]
struct AxpyTask<'a, T: Scalar, S: StorageBackend<T>> {
    other: &'a State<T, S>,
    alpha: T,
}

impl<'a, T: Real, S: StorageBackend<T>> BlockTask<BlockStorage<T, S>, ()> for AxpyTask<'a, T, S> {
    closed spec fn ready(&self, b: int, item: BlockStorage<T, S>) -> bool {
        b < self.other.values().len() && matched(item.values(), self.other.values()[b])
    }

    closed spec fn done(
        &self,
        b: int,
        before: BlockStorage<T, S>,
        after: BlockStorage<T, S>,
    ) -> bool {
        after.values() == axpy_block(before.values(), self.alpha, self.other.values()[b])
    }

    fn run(&self, block: BlockId, item: &mut BlockStorage<T, S>, scratch: &mut ()) {
        block_axpy(item, &self.other.blocks[block.index()], self.alpha);
    }
}

#[verifier::reject_recursive_types(T)]
struct CopyTask<'a, T: Scalar, S: StorageBackend<T>> {
    other: &'a State<T, S>,
}

impl<'a, T: Scalar, S: StorageBackend<T>> BlockTask<BlockStorage<T, S>, ()> for CopyTask<
    'a,
    T,
    S,
> {
    closed spec fn ready(&self, b: int, item: BlockStorage<T, S>) -> bool {
        b < self.other.values().len() && matched(item.values(), self.other.values()[b])
    }

    closed spec fn done(
        &self,
        b: int,
        before: BlockStorage<T, S>,
        after: BlockStorage<T, S>,
    ) -> bool {
        after.values() == copied_block(before.values(), self.other.values()[b])
    }

    fn run(&self, block: BlockId, item: &mut BlockStorage<T, S>, scratch: &mut ()) {
        block_copy(item, &self.other.blocks[block.index()]);
    }
}

struct ZeroTask;

impl<T: Scalar, S: StorageBackend<T>> BlockTask<BlockStorage<T, S>, ()> for ZeroTask {
    closed spec fn ready(&self, b: int, item: BlockStorage<T, S>) -> bool {
        true
    }

    closed spec fn done(
        &self,
        b: int,
        before: BlockStorage<T, S>,
        after: BlockStorage<T, S>,
    ) -> bool {
        after.values() == zeroed(before.values())
    }

    fn run(&self, block: BlockId, item: &mut BlockStorage<T, S>, scratch: &mut ()) {
        item.fill_zero();
    }
}

/// Whether two blocks pair up slab by slab.
fn blocks_match<T: Scalar, S: StorageBackend<T>>(
    mine: &BlockStorage<T, S>,
    theirs: &BlockStorage<T, S>,
) -> (r: bool)
    ensures
        r == matched(mine.values(), theirs.values()),
{
    let ghost v = mine.values();
    let ghost w = theirs.values();
    let n = mine.fields.len();
    if theirs.fields.len() != n {
        return false;
    }
    let mut f: usize = 0;
    while f < n
        invariant
            f <= n,
            n == mine.fields@.len(),
            n == theirs.fields@.len(),
            v == mine.values(),
            w == theirs.values(),
            forall|k: int|
                0 <= k < f ==> (#[trigger] v.fields[k]).len() == 0 || w.fields[k].len() == 0
                    || v.fields[k].len() == w.fields[k].len(),
        decreases n - f,
    {
        assert(mine.fields@[f as int].data() == v.fields[f as int]);
        assert(theirs.fields@[f as int].data() == w.fields[f as int]);
        let a = mine.fields[f].len();
        let b = theirs.fields[f].len();
        if a != 0 && b != 0 && a != b {
            assert(v.fields[f as int].len() != w.fields[f as int].len());
            return false;
        }
        f += 1;
    }
    true
}

impl<T: Real, S: StorageBackend<T>> State<T, S> {
    /// `self += alpha * other`, entry by entry over every slab.
    pub fn axpy(&mut self, alpha: T, other: &Self)
        requires
            congruent(old(self).values(), other.values()),
        ensures
            final(self).fields() == old(self).fields(),
            final(self).values() == axpy_values(old(self).values(), alpha, other.values()),
    {
        let ghost v = self.values();
        let n = self.blocks.len();
        let mut b: usize = 0;
        while b < n
            invariant
                b <= n,
                n == self.blocks@.len(),
                n == v.len(),
                v == old(self).values(),
                self.fields() == old(self).fields(),
                congruent(v, other.values()),
                forall|k: int|
                    0 <= k < b ==> (#[trigger] self.blocks@[k]).values() == axpy_block(
                        v[k],
                        alpha,
                        other.values()[k],
                    ),
                forall|k: int| b <= k < n ==> (#[trigger] self.blocks@[k]).values() == v[k],
            decreases n - b,
        {
            assert(self.blocks@[b as int].values() == v[b as int]);
            block_axpy(&mut self.blocks[b], &other.blocks[b], alpha);
            b += 1;
        }
        assert(self.values() =~= axpy_values(v, alpha, other.values()));
    }

    /// Scheduler-driven [`State::axpy`].
    pub fn axpy_with<Sch: Scheduler>(&mut self, scheduler: &Sch, alpha: T, other: &Self)
        requires
            old(self).values().len() <= u32::MAX,
            congruent(old(self).values(), other.values()),
        ensures
            final(self).fields() == old(self).fields(),
            final(self).values() == axpy_values(old(self).values(), alpha, other.values()),
    {
        let ghost v = self.values();
        let task = AxpyTask { other, alpha };
        let ghost before = self.blocks@;
        assert forall|b: int| 0 <= b < before.len() implies task.ready(b, #[trigger] before[b]) by {
            assert(before[b].values() == v[b]);
        }
        scheduler.for_each_block_mut(
            self.blocks.as_mut_slice(),
            || -> (u: ()) { () },
            &task,
        );
        proof {
            assert forall|b: int| 0 <= b < v.len() implies (#[trigger] self.blocks@[b]).values()
                == axpy_block(v[b], alpha, other.values()[b]) by {
                assert(task.done(b, before[b], self.blocks@[b]));
            }
            assert(self.values() =~= axpy_values(v, alpha, other.values()));
        }
    }

    /// Whether the two states pair up slab by slab.
    pub fn is_congruent(&self, other: &Self) -> (r: bool)
        ensures
            r == congruent(self.values(), other.values()),
    {
        let n = self.blocks.len();
        if other.blocks.len() != n {
            return false;
        }
        let mut b: usize = 0;
        while b < n
            invariant
                b <= n,
                n == self.blocks@.len(),
                n == other.blocks@.len(),
                forall|k: int|
                    0 <= k < b ==> matched(#[trigger] self.values()[k], other.values()[k]),
            decreases n - b,
        {
            assert(self.blocks@[b as int].values() == self.values()[b as int]);
            assert(other.blocks@[b as int].values() == other.values()[b as int]);
            if !blocks_match(&self.blocks[b], &other.blocks[b]) {
                return false;
            }
            b += 1;
        }
        true
    }

    /// Overwrite every slab from a congruent buffer.
    pub fn copy_from(&mut self, other: &Self)
        requires
            congruent(old(self).values(), other.values()),
        ensures
            final(self).fields() == old(self).fields(),
            final(self).values() == copied_values(old(self).values(), other.values()),
    {
        let ghost v = self.values();
        let n = self.blocks.len();
        let mut b: usize = 0;
        while b < n
            invariant
                b <= n,
                n == self.blocks@.len(),
                n == v.len(),
                v == old(self).values(),
                self.fields() == old(self).fields(),
                congruent(v, other.values()),
                forall|k: int|
                    0 <= k < b ==> (#[trigger] self.blocks@[k]).values() == copied_block(
                        v[k],
                        other.values()[k],
                    ),
                forall|k: int| b <= k < n ==> (#[trigger] self.blocks@[k]).values() == v[k],
            decreases n - b,
        {
            assert(self.blocks@[b as int].values() == v[b as int]);
            block_copy(&mut self.blocks[b], &other.blocks[b]);
            b += 1;
        }
        assert(self.values() =~= copied_values(v, other.values()));
    }

    /// Scheduler-driven [`State::copy_from`].
    pub fn copy_from_with<Sch: Scheduler>(&mut self, scheduler: &Sch, other: &Self)
        requires
            old(self).values().len() <= u32::MAX,
            congruent(old(self).values(), other.values()),
        ensures
            final(self).fields() == old(self).fields(),
            final(self).values() == copied_values(old(self).values(), other.values()),
    {
        let ghost v = self.values();
        let task = CopyTask { other };
        let ghost before = self.blocks@;
        assert forall|b: int| 0 <= b < before.len() implies task.ready(b, #[trigger] before[b]) by {
            assert(before[b].values() == v[b]);
        }
        scheduler.for_each_block_mut(
            self.blocks.as_mut_slice(),
            || -> (u: ()) { () },
            &task,
        );
        proof {
            assert forall|b: int| 0 <= b < v.len() implies (#[trigger] self.blocks@[b]).values()
                == copied_block(v[b], other.values()[b]) by {
                assert(task.done(b, before[b], self.blocks@[b]));
            }
            assert(self.values() =~= copied_values(v, other.values()));
        }
    }

    /// Zero every slab.
    pub fn fill_zero(&mut self)
        ensures
            final(self).fields() == old(self).fields(),
            final(self).values() == Seq::new(
                old(self).values().len(),
                |b: int| zeroed(old(self).values()[b]),
            ),
    {
        let ghost v = self.values();
        let n = self.blocks.len();
        let mut b: usize = 0;
        while b < n
            invariant
                b <= n,
                n == self.blocks@.len(),
                n == v.len(),
                v == old(self).values(),
                self.fields() == old(self).fields(),
                forall|k: int|
                    0 <= k < b ==> (#[trigger] self.blocks@[k]).values() == zeroed(v[k]),
                forall|k: int| b <= k < n ==> (#[trigger] self.blocks@[k]).values() == v[k],
            decreases n - b,
        {
            assert(self.blocks@[b as int].values() == v[b as int]);
            self.blocks[b].fill_zero();
            b += 1;
        }
        assert(self.values() =~= Seq::new(v.len(), |b: int| zeroed(v[b])));
    }

    /// Scheduler-driven [`State::fill_zero`].
    pub fn fill_zero_with<Sch: Scheduler>(&mut self, scheduler: &Sch)
        requires
            old(self).values().len() <= u32::MAX,
        ensures
            final(self).fields() == old(self).fields(),
            final(self).values() == Seq::new(
                old(self).values().len(),
                |b: int| zeroed(old(self).values()[b]),
            ),
    {
        let ghost v = self.values();
        let task = ZeroTask;
        let ghost before = self.blocks@;
        scheduler.for_each_block_mut(
            self.blocks.as_mut_slice(),
            || -> (u: ()) { () },
            &task,
        );
        proof {
            assert forall|b: int| 0 <= b < v.len() implies (#[trigger] self.blocks@[b]).values()
                == zeroed(v[b]) by {
                assert(before[b].values() == v[b]);
                assert(BlockTask::<BlockStorage<T, S>, ()>::done(&task, b, before[b], self.blocks@[b]));
            }
            assert(self.values() =~= Seq::new(v.len(), |b: int| zeroed(v[b])));
        }
    }
}

/// The block's slabs have the lengths the layout gives them on a box of these
/// extents, or are empty.
pub open spec fn shaped<T>(specs: Seq<FieldSpec>, ext: Seq<int>, v: BlockValues<T>) -> bool {
    &&& v.fields.len() == specs.len()
    &&& forall|f: int|
        #![trigger v.fields[f]]
        #![trigger specs[f]]
        0 <= f < specs.len() && v.fields[f].len() != 0 ==> slab_fits(ext, specs[f].halo as int)
            && v.fields[f].len() == volume(ghosted(ext, specs[f].halo as int))
}

/// Every block is shaped for the grid.
pub open spec fn shaped_on<T, R: Real, G: Grid<R, D>, const D: usize>(
    specs: Seq<FieldSpec>,
    grid: &G,
    v: Seq<BlockValues<T>>,
) -> bool {
    &&& v.len() == grid.blocks()
    &&& forall|b: int| 0 <= b < v.len() ==> shaped(specs, grid.extent_of(b), #[trigger] v[b])
}

/// A jump driver's buffer carries an intensity per interior cell.
pub open spec fn rated<T>(ext: Seq<int>, driver: Driver, amp: BlockValues<T>) -> bool {
    driver is Jump ==> amp.rate.len() == volume(ext)
}

/// Every block of a driver's buffer is shaped for the grid, intensities
/// included.
pub open spec fn driver_buffer<T, R: Real, G: Grid<R, D>, const D: usize>(
    specs: Seq<FieldSpec>,
    grid: &G,
    driver: Driver,
    v: Seq<BlockValues<T>>,
) -> bool {
    &&& shaped_on::<T, R, G, D>(specs, grid, v)
    &&& forall|b: int| 0 <= b < v.len() ==> rated(grid.extent_of(b), driver, #[trigger] v[b])
}

/// A block after one driver's measure over a step of size `dt`.
pub open spec fn driven_block<T: Real>(
    specs: Seq<FieldSpec>,
    ext: Seq<int>,
    b: int,
    driver: Driver,
    dt: T,
    seed: u64,
    salt: u64,
    v: BlockValues<T>,
    amp: BlockValues<T>,
) -> BlockValues<T> {
    BlockValues {
        fields: Seq::new(
            v.fields.len(),
            |f: int|
                if v.fields[f].len() == 0 || amp.fields[f].len() == 0 {
                    v.fields[f]
                } else {
                    driven(
                        driver,
                        ext,
                        specs[f].halo as int,
                        b,
                        dt,
                        seed,
                        salt,
                        amp.rate,
                        amp.fields[f],
                        v.fields[f],
                    )
                },
        ),
        rate: v.rate,
    }
}

/// A block after the drift and the first `n` stochastic drivers of a set.
pub open spec fn stepped_block<T: Real, N: DriverSet>(
    specs: Seq<FieldSpec>,
    ext: Seq<int>,
    b: int,
    dt: T,
    seed: u64,
    salt: u64,
    v: BlockValues<T>,
    drift: BlockValues<T>,
    amps: Seq<BlockValues<T>>,
    n: nat,
) -> BlockValues<T>
    decreases n,
{
    if n == 0 {
        driven_block(specs, ext, b, Driver::Time, dt, seed, salt, v, drift)
    } else {
        driven_block(
            specs,
            ext,
            b,
            N::member(n - 1),
            dt,
            seed,
            salt,
            stepped_block::<T, N>(
                specs,
                ext,
                b,
                dt,
                seed,
                salt,
                v,
                drift,
                amps,
                (n - 1) as nat,
            ),
            amps[n - 1],
        )
    }
}

/// A driver's update keeps every slab length.
pub proof fn lemma_driven_shape<T: Real>(
    specs: Seq<FieldSpec>,
    ext: Seq<int>,
    b: int,
    driver: Driver,
    dt: T,
    seed: u64,
    salt: u64,
    v: BlockValues<T>,
    amp: BlockValues<T>,
)
    ensures
        ({
            let w = driven_block(specs, ext, b, driver, dt, seed, salt, v, amp);
            &&& w.fields.len() == v.fields.len()
            &&& forall|f: int|
                0 <= f < v.fields.len() ==> (#[trigger] w.fields[f]).len() == v.fields[f].len()
            &&& shaped(specs, ext, v) ==> shaped(specs, ext, w)
        }),
{
}

fn block_drive<T: Real, S: StorageBackend<T>, G: Grid<T, D>, const D: usize>(
    grid: &G,
    layout: &StateLayout,
    block: BlockId,
    driver: Driver,
    dt: T,
    seed: u64,
    salt: u64,
    mine: &mut BlockStorage<T, S>,
    amp: &BlockStorage<T, S>,
)
    requires
        grid.valid(),
        block.id() < grid.blocks(),
        shaped(layout.fields(), grid.extent_of(block.id()), old(mine).values()),
        shaped(layout.fields(), grid.extent_of(block.id()), amp.values()),
        rated(grid.extent_of(block.id()), driver, amp.values()),
    ensures
        final(mine).values() == driven_block(
            layout.fields(),
            grid.extent_of(block.id()),
            block.id(),
            driver,
            dt,
            seed,
            salt,
            old(mine).values(),
            amp.values(),
        ),
{
    let ghost v = mine.values();
    let ghost w = amp.values();
    let ghost specs = layout.fields();
    let ghost ext = grid.extent_of(block.id());
    let ghost want = driven_block(specs, ext, block.id(), driver, dt, seed, salt, v, w);
    let n = mine.fields.len();
    let mut f: usize = 0;
    while f < n
        invariant
            f <= n,
            n == mine.fields@.len(),
            n == amp.fields@.len(),
            n == v.fields.len(),
            n == specs.len(),
            grid.valid(),
            block.id() < grid.blocks(),
            ext == grid.extent_of(block.id()),
            specs == layout.fields(),
            w == amp.values(),
            shaped(specs, ext, v),
            shaped(specs, ext, w),
            rated(ext, driver, w),
            want == driven_block(specs, ext, block.id(), driver, dt, seed, salt, v, w),
            mine.rate.data() == v.rate,
            forall|k: int| 0 <= k < f ==> (#[trigger] mine.fields@[k]).data() == want.fields[k],
            forall|k: int| f <= k < n ==> (#[trigger] mine.fields@[k]).data() == v.fields[k],
        decreases n - f,
    {
        assert(amp.fields@[f as int].data() == w.fields[f as int]);
        assert(mine.fields@[f as int].data() == v.fields[f as int]);
        if !mine.fields[f].is_empty() && !amp.fields[f].is_empty() {
            let width = layout.ghost(f);
            assert(width == specs[f as int].halo);
            let a = amp.fields[f].as_slice();
            let x = mine.fields[f].as_mut_slice();
            let rate = amp.rate.as_slice();
            driver.apply_field(grid, block, dt, seed, salt, Some(rate), width, a, x);
        }
        assert(mine.fields@[f as int].data() =~= want.fields[f as int]);
        f += 1;
    }
    assert(mine.values() =~~= want);
}

/// The update of one block in one step: drift, then every stochastic driver in
/// order, on the blocks of one level or of all.
#[verifier::reject_recursive_types(T)]
struct StepTask<'a, T: Scalar, S: StorageBackend<T>, G, N, const D: usize> {
    grid: &'a G,
    layout: &'a StateLayout,
    drift: &'a State<T, S>,
    amps: &'a [State<T, S>],
    dt: T,
    seed: u64,
    salt: u64,
    level: Option<u8>,
    marker: PhantomData<N>,
}

/// The step updates block `b`: every block, or only those of one level.
pub open spec fn selects<R: Real, G: Grid<R, D>, const D: usize>(
    grid: &G,
    level: Option<u8>,
    b: int,
) -> bool {
    level matches Some(l) ==> grid.level_of(b) == l
}

/// A static field never moves: neither a step under any drivers nor adding a multiple
/// of a derivative buffer changes it.
pub proof fn static_fields_never_move<T: Real, N: DriverSet>(
    specs: Seq<FieldSpec>,
    ext: Seq<int>,
    b: int,
    dt: T,
    seed: u64,
    salt: u64,
    v: BlockValues<T>,
    drift: BlockValues<T>,
    amps: Seq<BlockValues<T>>,
    n: nat,
    f: int,
)
    requires
        0 <= f < specs.len(),
        specs[f].drivers@.len() == 0,
        v.fields.len() == specs.len(),
        tailored(specs, ext, Driver::Time, drift),
        n <= N::size(),
        forall|i: int| 0 <= i < n ==> tailored(specs, ext, N::member(i), #[trigger] amps[i]),
    ensures
        stepped_block::<T, N>(specs, ext, b, dt, seed, salt, v, drift, amps, n).fields[f]
            == v.fields[f],
        axpy_block(v, dt, drift).fields[f] == v.fields[f],
    decreases n,
{
    assert(!specs[f].moved_by(Driver::Time));
    assert(drift.fields[f].len() == 0);
    if n > 0 {
        let i = n - 1;
        static_fields_never_move::<T, N>(
            specs,
            ext,
            b,
            dt,
            seed,
            salt,
            v,
            drift,
            amps,
            i as nat,
            f,
        );
        lemma_stepped_width::<T, N>(specs, ext, b, dt, seed, salt, v, drift, amps, i as nat);
        assert(tailored(specs, ext, N::member(i), amps[i]));
        assert(!specs[f].moved_by(N::member(i)));
        assert(amps[i].fields[f].len() == 0);
    }
}

proof fn lemma_stepped_width<T: Real, N: DriverSet>(
    specs: Seq<FieldSpec>,
    ext: Seq<int>,
    b: int,
    dt: T,
    seed: u64,
    salt: u64,
    v: BlockValues<T>,
    drift: BlockValues<T>,
    amps: Seq<BlockValues<T>>,
    n: nat,
)
    ensures
        stepped_block::<T, N>(specs, ext, b, dt, seed, salt, v, drift, amps, n).fields.len()
            == v.fields.len(),
    decreases n,
{
    if n > 0 {
        lemma_stepped_width::<T, N>(
            specs,
            ext,
            b,
            dt,
            seed,
            salt,
            v,
            drift,
            amps,
            (n - 1) as nat,
        );
    }
}

/// Contents after one step: drift, then every stochastic driver of the set, on
/// the selected blocks.
pub open spec fn stepped_values<T: Real, G: Grid<T, D>, N: DriverSet, const D: usize>(
    specs: Seq<FieldSpec>,
    grid: &G,
    level: Option<u8>,
    dt: T,
    seed: u64,
    salt: u64,
    v: Seq<BlockValues<T>>,
    drift: Seq<BlockValues<T>>,
    amps: Seq<Seq<BlockValues<T>>>,
) -> Seq<BlockValues<T>> {
    Seq::new(
        v.len(),
        |b: int|
            if selects::<T, G, D>(grid, level, b) {
                stepped_block::<T, N>(
                    specs,
                    grid.extent_of(b),
                    b,
                    dt,
                    seed,
                    salt,
                    v[b],
                    drift[b],
                    Seq::new(amps.len(), |i: int| amps[i][b]),
                    N::size(),
                )
            } else {
                v[b]
            },
    )
}

/// The contents of a list of states.
pub open spec fn all_values<T: Scalar, S: StorageBackend<T>>(states: Seq<State<T, S>>) -> Seq<
    Seq<BlockValues<T>>,
> {
    Seq::new(states.len(), |i: int| states[i].values())
}

impl<'a, T: Real, S: StorageBackend<T>, G: Grid<T, D>, N: DriverSet, const D: usize> StepTask<
    'a,
    T,
    S,
    G,
    N,
    D,
> {
    spec fn amps_at(&self, b: int) -> Seq<BlockValues<T>> {
        Seq::new(self.amps@.len(), |i: int| self.amps@[i].values()[b])
    }

    spec fn buffers_ready(&self) -> bool {
        &&& self.grid.valid()
        &&& driver_buffer::<T, T, G, D>(
            self.layout.fields(),
            self.grid,
            Driver::Time,
            self.drift.values(),
        )
        &&& self.amps@.len() == N::size()
        &&& forall|i: int|
            0 <= i < self.amps@.len() ==> driver_buffer::<T, T, G, D>(
                self.layout.fields(),
                self.grid,
                N::member(i),
                (#[trigger] self.amps@[i]).values(),
            )
    }
}

impl<'a, T: Real, S: StorageBackend<T>, G: Grid<T, D>, N: DriverSet, const D: usize> BlockTask<
    BlockStorage<T, S>,
    (),
> for StepTask<'a, T, S, G, N, D> {
    closed spec fn ready(&self, b: int, item: BlockStorage<T, S>) -> bool {
        &&& self.buffers_ready()
        &&& 0 <= b < self.grid.blocks()
        &&& shaped(self.layout.fields(), self.grid.extent_of(b), item.values())
    }

    closed spec fn done(
        &self,
        b: int,
        before: BlockStorage<T, S>,
        after: BlockStorage<T, S>,
    ) -> bool {
        after.values() == if selects::<T, G, D>(self.grid, self.level, b) {
            stepped_block::<T, N>(
                self.layout.fields(),
                self.grid.extent_of(b),
                b,
                self.dt,
                self.seed,
                self.salt,
                before.values(),
                self.drift.values()[b],
                self.amps_at(b),
                N::size(),
            )
        } else {
            before.values()
        }
    }

    fn run(&self, block: BlockId, item: &mut BlockStorage<T, S>, scratch: &mut ()) {
        let ghost specs = self.layout.fields();
        let ghost ext = self.grid.extent_of(block.id());
        let ghost v = item.values();
        let ghost drift = self.drift.values()[block.id()];
        let ghost amps = self.amps_at(block.id());
        let skip = match self.level {
            Some(l) => self.grid.level(block) != l,
            None => false,
        };
        if skip {
            return;
        }
        let b = block.index();
        assert(self.drift.blocks@[b as int].values() == drift);
        block_drive(
            self.grid,
            self.layout,
            block,
            Driver::Time,
            self.dt,
            self.seed,
            self.salt,
            item,
            &self.drift.blocks[b],
        );
        proof {
            lemma_driven_shape(
                specs,
                ext,
                block.id(),
                Driver::Time,
                self.dt,
                self.seed,
                self.salt,
                v,
                drift,
            );
        }
        let n = N::len();
        let mut i: usize = 0;
        while i < n
            invariant
                i <= n,
                n == N::size(),
                self.buffers_ready(),
                block.id() < self.grid.blocks(),
                b == block.id(),
                specs == self.layout.fields(),
                ext == self.grid.extent_of(block.id()),
                amps == self.amps_at(block.id()),
                shaped(specs, ext, item.values()),
                item.values() == stepped_block::<T, N>(
                    specs,
                    ext,
                    block.id(),
                    self.dt,
                    self.seed,
                    self.salt,
                    v,
                    drift,
                    amps,
                    i as nat,
                ),
            decreases n - i,
        {
            let ghost w = item.values();
            assert(driver_buffer::<T, T, G, D>(
                specs,
                self.grid,
                N::member(i as int),
                self.amps@[i as int].values(),
            ));
            assert(self.amps@[i as int].values()[b as int] == amps[i as int]);
            assert(self.amps@[i as int].blocks@[b as int].values() == amps[i as int]);
            let driver = N::driver(i);
            block_drive(
                self.grid,
                self.layout,
                block,
                driver,
                self.dt,
                self.seed,
                self.salt,
                item,
                &self.amps[i].blocks[b],
            );
            proof {
                lemma_driven_shape(
                    specs,
                    ext,
                    block.id(),
                    driver,
                    self.dt,
                    self.seed,
                    self.salt,
                    w,
                    amps[i as int],
                );
            }
            i += 1;
        }
    }
}

/// One Wiener driver's noise on one block.
#[verifier::reject_recursive_types(T)]
struct WienerTask<'a, T: Scalar, S: StorageBackend<T>, G, const D: usize> {
    grid: &'a G,
    layout: &'a StateLayout,
    amplitude: &'a State<T, S>,
    scale: T,
    seed: u64,
    salt: u64,
    driver: usize,
}

impl<'a, T: Real, S: StorageBackend<T>, G: Grid<T, D>, const D: usize> BlockTask<
    BlockStorage<T, S>,
    (),
> for WienerTask<'a, T, S, G, D> {
    closed spec fn ready(&self, b: int, item: BlockStorage<T, S>) -> bool {
        &&& self.grid.valid()
        &&& 0 <= b < self.grid.blocks()
        &&& shaped(self.layout.fields(), self.grid.extent_of(b), item.values())
        &&& shaped_on::<T, T, G, D>(self.layout.fields(), self.grid, self.amplitude.values())
    }

    closed spec fn done(
        &self,
        b: int,
        before: BlockStorage<T, S>,
        after: BlockStorage<T, S>,
    ) -> bool {
        after.values() == noisy_block(
            self.layout.fields(),
            self.grid.extent_of(b),
            self.scale,
            mix_key_spec(self.seed, seq![self.salt, self.driver as u64, b as u64]),
            before.values(),
            self.amplitude.values()[b],
        )
    }

    fn run(&self, block: BlockId, item: &mut BlockStorage<T, S>, scratch: &mut ()) {
        let b = block.index();
        assert(self.amplitude.blocks@[b as int].values() == self.amplitude.values()[b as int]);
        let parts: [u64; 3] = [self.salt, self.driver as u64, b as u64];
        let key: u64 = mix_key(self.seed, &parts);
        assert(parts@ =~= seq![self.salt, self.driver as u64, b as u64]);
        block_add_wiener(
            self.grid,
            self.layout,
            item,
            &self.amplitude.blocks[b],
            block,
            self.scale,
            key,
        );
    }
}

/// One driver's measure on one block.
#[verifier::reject_recursive_types(T)]
struct DriveTask<'a, T: Scalar, S: StorageBackend<T>, G, const D: usize> {
    grid: &'a G,
    layout: &'a StateLayout,
    amp: &'a State<T, S>,
    driver: Driver,
    dt: T,
    seed: u64,
    salt: u64,
}

impl<'a, T: Real, S: StorageBackend<T>, G: Grid<T, D>, const D: usize> BlockTask<
    BlockStorage<T, S>,
    (),
> for DriveTask<'a, T, S, G, D> {
    closed spec fn ready(&self, b: int, item: BlockStorage<T, S>) -> bool {
        &&& self.grid.valid()
        &&& 0 <= b < self.grid.blocks()
        &&& shaped(self.layout.fields(), self.grid.extent_of(b), item.values())
        &&& driver_buffer::<T, T, G, D>(
            self.layout.fields(),
            self.grid,
            self.driver,
            self.amp.values(),
        )
    }

    closed spec fn done(
        &self,
        b: int,
        before: BlockStorage<T, S>,
        after: BlockStorage<T, S>,
    ) -> bool {
        after.values() == driven_block(
            self.layout.fields(),
            self.grid.extent_of(b),
            b,
            self.driver,
            self.dt,
            self.seed,
            self.salt,
            before.values(),
            self.amp.values()[b],
        )
    }

    fn run(&self, block: BlockId, item: &mut BlockStorage<T, S>, scratch: &mut ()) {
        let b = block.index();
        assert(self.amp.blocks@[b as int].values() == self.amp.values()[b as int]);
        block_drive(
            self.grid,
            self.layout,
            block,
            self.driver,
            self.dt,
            self.seed,
            self.salt,
            item,
            &self.amp.blocks[b],
        );
    }
}

impl<T: Real, S: StorageBackend<T>> State<T, S> {
    /// `self += scale * amplitude * xi` for one Wiener driver, where `xi` is a
    /// standard normal drawn per *cell* from the counter-based generator keyed
    /// by `(seed, salt, driver, block, cell)`. All fields moved by the driver
    /// receive the same deviate at the same cell; zero-amplitude entries are
    /// skipped and ghost entries never receive noise.
    pub fn add_wiener<G: Grid<T, D>, const D: usize>(
        &mut self,
        grid: &G,
        amplitude: &Self,
        scale: T,
        seed: u64,
        salt: u64,
        driver: usize,
    )
        requires
            grid.valid(),
            shaped_on::<T, T, G, D>(old(self).fields(), grid, old(self).values()),
            shaped_on::<T, T, G, D>(old(self).fields(), grid, amplitude.values()),
        ensures
            final(self).fields() == old(self).fields(),
            final(self).values() == Seq::new(
                old(self).values().len(),
                |b: int|
                    noisy_block(
                        old(self).fields(),
                        grid.extent_of(b),
                        scale,
                        mix_key_spec(seed, seq![salt, driver as u64, b as u64]),
                        old(self).values()[b],
                        amplitude.values()[b],
                    ),
            ),
    {
        let ghost v = self.values();
        let ghost specs = self.fields();
        let ghost want = Seq::new(
            v.len(),
            |b: int|
                noisy_block(
                    specs,
                    grid.extent_of(b),
                    scale,
                    mix_key_spec(seed, seq![salt, driver as u64, b as u64]),
                    v[b],
                    amplitude.values()[b],
                ),
        );
        proof {
            grid.lemma_blocks();
        }
        let n = self.blocks.len();
        let mut b: usize = 0;
        while b < n
            invariant
                b <= n,
                n == self.blocks@.len(),
                n == v.len(),
                n <= u32::MAX,
                v == old(self).values(),
                specs == self.fields(),
                self.fields() == old(self).fields(),
                grid.valid(),
                shaped_on::<T, T, G, D>(specs, grid, v),
                shaped_on::<T, T, G, D>(specs, grid, amplitude.values()),
                want == Seq::new(
                    v.len(),
                    |b: int|
                        noisy_block(
                            specs,
                            grid.extent_of(b),
                            scale,
                            mix_key_spec(seed, seq![salt, driver as u64, b as u64]),
                            v[b],
                            amplitude.values()[b],
                        ),
                ),
                forall|k: int| 0 <= k < b ==> (#[trigger] self.blocks@[k]).values() == want[k],
                forall|k: int| b <= k < n ==> (#[trigger] self.blocks@[k]).values() == v[k],
            decreases n - b,
        {
            assert(self.blocks@[b as int].values() == v[b as int]);
            assert(amplitude.blocks@[b as int].values() == amplitude.values()[b as int]);
            let parts: [u64; 3] = [salt, driver as u64, b as u64];
            let key: u64 = mix_key(seed, &parts);
            assert(parts@ =~= seq![salt, driver as u64, b as u64]);
            block_add_wiener(
                grid,
                &self.layout,
                &mut self.blocks[b],
                &amplitude.blocks[b],
                BlockId(b as u32),
                scale,
                key,
            );
            b += 1;
        }
        assert(self.values() =~= want);
    }

    /// Apply one driver's measure over a step of size `dt` to the whole state.
    pub fn apply_driver<G: Grid<T, D>, const D: usize>(
        &mut self,
        grid: &G,
        amp: &Self,
        driver: Driver,
        dt: T,
        seed: u64,
        salt: u64,
    )
        requires
            grid.valid(),
            shaped_on::<T, T, G, D>(old(self).fields(), grid, old(self).values()),
            driver_buffer::<T, T, G, D>(old(self).fields(), grid, driver, amp.values()),
        ensures
            final(self).fields() == old(self).fields(),
            final(self).values() == Seq::new(
                old(self).values().len(),
                |b: int|
                    driven_block(
                        old(self).fields(),
                        grid.extent_of(b),
                        b,
                        driver,
                        dt,
                        seed,
                        salt,
                        old(self).values()[b],
                        amp.values()[b],
                    ),
            ),
    {
        let ghost v = self.values();
        let ghost specs = self.fields();
        proof {
            grid.lemma_blocks();
        }
        let n = self.blocks.len();
        let mut b: usize = 0;
        while b < n
            invariant
                b <= n,
                n == self.blocks@.len(),
                n == v.len(),
                n <= u32::MAX,
                v == old(self).values(),
                specs == self.fields(),
                self.fields() == old(self).fields(),
                grid.valid(),
                shaped_on::<T, T, G, D>(specs, grid, v),
                driver_buffer::<T, T, G, D>(specs, grid, driver, amp.values()),
                forall|k: int|
                    0 <= k < b ==> (#[trigger] self.blocks@[k]).values() == driven_block(
                        specs,
                        grid.extent_of(k),
                        k,
                        driver,
                        dt,
                        seed,
                        salt,
                        v[k],
                        amp.values()[k],
                    ),
                forall|k: int| b <= k < n ==> (#[trigger] self.blocks@[k]).values() == v[k],
            decreases n - b,
        {
            assert(self.blocks@[b as int].values() == v[b as int]);
            assert(amp.blocks@[b as int].values() == amp.values()[b as int]);
            block_drive(
                grid,
                &self.layout,
                BlockId(b as u32),
                driver,
                dt,
                seed,
                salt,
                &mut self.blocks[b],
                &amp.blocks[b],
            );
            b += 1;
        }
        assert(self.values() =~= Seq::new(
            v.len(),
            |b: int|
                driven_block(
                    specs,
                    grid.extent_of(b),
                    b,
                    driver,
                    dt,
                    seed,
                    salt,
                    v[b],
                    amp.values()[b],
                ),
        ));
    }

    /// Scheduler-driven [`State::add_wiener`]: identical results under any
    /// scheduling, because keys depend only on driver, block and cell.
    pub fn add_wiener_with<G: Grid<T, D>, Sch: Scheduler, const D: usize>(
        &mut self,
        scheduler: &Sch,
        grid: &G,
        amplitude: &Self,
        scale: T,
        seed: u64,
        salt: u64,
        driver: usize,
    )
        requires
            grid.valid(),
            shaped_on::<T, T, G, D>(old(self).fields(), grid, old(self).values()),
            shaped_on::<T, T, G, D>(old(self).fields(), grid, amplitude.values()),
        ensures
            final(self).fields() == old(self).fields(),
            final(self).values() == Seq::new(
                old(self).values().len(),
                |b: int|
                    noisy_block(
                        old(self).fields(),
                        grid.extent_of(b),
                        scale,
                        mix_key_spec(seed, seq![salt, driver as u64, b as u64]),
                        old(self).values()[b],
                        amplitude.values()[b],
                    ),
            ),
    {
        let ghost v = self.values();
        let ghost specs = self.fields();
        let ghost before = self.blocks@;
        let layout = self.layout.clone();
        let task: WienerTask<'_, T, S, G, D> = WienerTask {
            grid,
            layout: &layout,
            amplitude,
            scale,
            seed,
            salt,
            driver,
        };
        proof {
            grid.lemma_blocks();
            assert forall|b: int| 0 <= b < before.len() implies task.ready(
                b,
                #[trigger] before[b],
            ) by {
                assert(before[b].values() == v[b]);
            }
        }
        scheduler.for_each_block_mut(self.blocks.as_mut_slice(), || -> (u: ()) { () }, &task);
        proof {
            let want = Seq::new(
                v.len(),
                |b: int|
                    noisy_block(
                        specs,
                        grid.extent_of(b),
                        scale,
                        mix_key_spec(seed, seq![salt, driver as u64, b as u64]),
                        v[b],
                        amplitude.values()[b],
                    ),
            );
            assert forall|b: int| 0 <= b < v.len() implies (#[trigger] self.blocks@[b]).values()
                == want[b] by {
                assert(task.done(b, before[b], self.blocks@[b]));
            }
            assert(self.values() =~= want);
        }
    }

    /// Scheduler-driven [`State::apply_driver`].
    pub fn apply_driver_with<G: Grid<T, D>, Sch: Scheduler, const D: usize>(
        &mut self,
        scheduler: &Sch,
        grid: &G,
        amp: &Self,
        driver: Driver,
        dt: T,
        seed: u64,
        salt: u64,
    )
        requires
            grid.valid(),
            shaped_on::<T, T, G, D>(old(self).fields(), grid, old(self).values()),
            driver_buffer::<T, T, G, D>(old(self).fields(), grid, driver, amp.values()),
        ensures
            final(self).fields() == old(self).fields(),
            final(self).values() == Seq::new(
                old(self).values().len(),
                |b: int|
                    driven_block(
                        old(self).fields(),
                        grid.extent_of(b),
                        b,
                        driver,
                        dt,
                        seed,
                        salt,
                        old(self).values()[b],
                        amp.values()[b],
                    ),
            ),
    {
        let ghost v = self.values();
        let ghost specs = self.fields();
        let ghost before = self.blocks@;
        let layout = self.layout.clone();
        let task: DriveTask<'_, T, S, G, D> = DriveTask {
            grid,
            layout: &layout,
            amp,
            driver,
            dt,
            seed,
            salt,
        };
        proof {
            grid.lemma_blocks();
            assert forall|b: int| 0 <= b < before.len() implies task.ready(
                b,
                #[trigger] before[b],
            ) by {
                assert(before[b].values() == v[b]);
            }
        }
        scheduler.for_each_block_mut(self.blocks.as_mut_slice(), || -> (u: ()) { () }, &task);
        proof {
            let want = Seq::new(
                v.len(),
                |b: int|
                    driven_block(
                        specs,
                        grid.extent_of(b),
                        b,
                        driver,
                        dt,
                        seed,
                        salt,
                        v[b],
                        amp.values()[b],
                    ),
            );
            assert forall|b: int| 0 <= b < v.len() implies (#[trigger] self.blocks@[b]).values()
                == want[b] by {
                assert(task.done(b, before[b], self.blocks@[b]));
            }
            assert(self.values() =~= want);
        }
    }

    fn apply_selected<G: Grid<T, D>, N: DriverSet, Sch: Scheduler, const D: usize>(
        &mut self,
        scheduler: &Sch,
        grid: &G,
        drift: &Self,
        amps: &[Self],
        dt: T,
        seed: u64,
        salt: u64,
        level: Option<u8>,
    )
        requires
            grid.valid(),
            shaped_on::<T, T, G, D>(old(self).fields(), grid, old(self).values()),
            driver_buffer::<T, T, G, D>(old(self).fields(), grid, Driver::Time, drift.values()),
            amps@.len() == N::size(),
            forall|i: int|
                0 <= i < amps@.len() ==> driver_buffer::<T, T, G, D>(
                    old(self).fields(),
                    grid,
                    N::member(i),
                    (#[trigger] amps@[i]).values(),
                ),
        ensures
            final(self).fields() == old(self).fields(),
            final(self).values() == stepped_values::<T, G, N, D>(
                old(self).fields(),
                grid,
                level,
                dt,
                seed,
                salt,
                old(self).values(),
                drift.values(),
                all_values(amps@),
            ),
    {
        let ghost v = self.values();
        let ghost specs = self.fields();
        let ghost before = self.blocks@;
        let layout = Arc::clone(&self.layout);
        proof {
            grid.lemma_blocks();
        }
        let task = StepTask::<'_, T, S, G, N, D> {
            grid,
            layout: &layout,
            drift,
            amps,
            dt,
            seed,
            salt,
            level,
            marker: PhantomData,
        };
        assert forall|b: int| 0 <= b < before.len() implies task.ready(b, #[trigger] before[b]) by {
            assert(before[b].values() == v[b]);
        }
        scheduler.for_each_block_mut(
            self.blocks.as_mut_slice(),
            || -> (u: ()) { () },
            &task,
        );
        proof {
            let want = stepped_values::<T, G, N, D>(
                specs,
                grid,
                level,
                dt,
                seed,
                salt,
                v,
                drift.values(),
                all_values(amps@),
            );
            assert forall|b: int| 0 <= b < v.len() implies (#[trigger] self.blocks@[b]).values()
                == want[b] by {
                assert(before[b].values() == v[b]);
                assert(task.done(b, before[b], self.blocks@[b]));
                assert(task.amps_at(b) =~= Seq::new(
                    all_values(amps@).len(),
                    |i: int| all_values(amps@)[i][b],
                ));
            }
            assert(self.values() =~= want);
        }
    }

    /// Drift plus every stochastic driver of the set applied in one dispatch,
    /// block by block.
    pub fn apply_step_with<G: Grid<T, D>, N: DriverSet, Sch: Scheduler, const D: usize>(
        &mut self,
        scheduler: &Sch,
        grid: &G,
        drift: &Self,
        amps: &[Self],
        dt: T,
        seed: u64,
        salt: u64,
    )
        requires
            grid.valid(),
            shaped_on::<T, T, G, D>(old(self).fields(), grid, old(self).values()),
            driver_buffer::<T, T, G, D>(old(self).fields(), grid, Driver::Time, drift.values()),
            amps@.len() == N::size(),
            forall|i: int|
                0 <= i < amps@.len() ==> driver_buffer::<T, T, G, D>(
                    old(self).fields(),
                    grid,
                    N::member(i),
                    (#[trigger] amps@[i]).values(),
                ),
        ensures
            final(self).fields() == old(self).fields(),
            final(self).values() == stepped_values::<T, G, N, D>(
                old(self).fields(),
                grid,
                None,
                dt,
                seed,
                salt,
                old(self).values(),
                drift.values(),
                all_values(amps@),
            ),
    {
        self.apply_selected::<G, N, Sch, D>(scheduler, grid, drift, amps, dt, seed, salt, None);
    }

    /// [`State::apply_step_with`] restricted to the blocks of one refinement
    /// level; every other block is left alone.
    pub fn apply_step_level<G: Grid<T, D>, N: DriverSet, Sch: Scheduler, const D: usize>(
        &mut self,
        scheduler: &Sch,
        grid: &G,
        drift: &Self,
        amps: &[Self],
        dt: T,
        seed: u64,
        salt: u64,
        level: u8,
    )
        requires
            grid.valid(),
            shaped_on::<T, T, G, D>(old(self).fields(), grid, old(self).values()),
            driver_buffer::<T, T, G, D>(old(self).fields(), grid, Driver::Time, drift.values()),
            amps@.len() == N::size(),
            forall|i: int|
                0 <= i < amps@.len() ==> driver_buffer::<T, T, G, D>(
                    old(self).fields(),
                    grid,
                    N::member(i),
                    (#[trigger] amps@[i]).values(),
                ),
        ensures
            final(self).fields() == old(self).fields(),
            final(self).values() == stepped_values::<T, G, N, D>(
                old(self).fields(),
                grid,
                Some(level),
                dt,
                seed,
                salt,
                old(self).values(),
                drift.values(),
                all_values(amps@),
            ),
    {
        self.apply_selected::<G, N, Sch, D>(
            scheduler,
            grid,
            drift,
            amps,
            dt,
            seed,
            salt,
            Some(level),
        );
    }
}

/// A block after `scale * amplitude * deviate` was added to every field both
/// carry.
pub open spec fn noisy_block<T: Real>(
    specs: Seq<FieldSpec>,
    ext: Seq<int>,
    scale: T,
    block_key: u64,
    v: BlockValues<T>,
    amp: BlockValues<T>,
) -> BlockValues<T> {
    BlockValues {
        fields: Seq::new(
            v.fields.len(),
            |f: int|
                if v.fields[f].len() == 0 || amp.fields[f].len() == 0 {
                    v.fields[f]
                } else {
                    scattered(
                        ext,
                        specs[f].halo as int,
                        scale,
                        block_key,
                        amp.fields[f],
                        v.fields[f],
                    )
                },
        ),
        rate: v.rate,
    }
}

fn block_add_wiener<T: Real, S: StorageBackend<T>, G: Grid<T, D>, const D: usize>(
    grid: &G,
    layout: &StateLayout,
    mine: &mut BlockStorage<T, S>,
    amp: &BlockStorage<T, S>,
    block: BlockId,
    scale: T,
    block_key: u64,
)
    requires
        grid.valid(),
        block.id() < grid.blocks(),
        shaped(layout.fields(), grid.extent_of(block.id()), old(mine).values()),
        shaped(layout.fields(), grid.extent_of(block.id()), amp.values()),
    ensures
        final(mine).values() == noisy_block(
            layout.fields(),
            grid.extent_of(block.id()),
            scale,
            block_key,
            old(mine).values(),
            amp.values(),
        ),
{
    let ghost v = mine.values();
    let ghost w = amp.values();
    let ghost specs = layout.fields();
    let ghost ext = grid.extent_of(block.id());
    let ghost want = noisy_block(specs, ext, scale, block_key, v, w);
    let n = mine.fields.len();
    let mut f: usize = 0;
    while f < n
        invariant
            f <= n,
            n == mine.fields@.len(),
            n == amp.fields@.len(),
            n == v.fields.len(),
            n == specs.len(),
            grid.valid(),
            block.id() < grid.blocks(),
            ext == grid.extent_of(block.id()),
            specs == layout.fields(),
            w == amp.values(),
            shaped(specs, ext, v),
            shaped(specs, ext, w),
            want == noisy_block(specs, ext, scale, block_key, v, w),
            mine.rate.data() == v.rate,
            forall|k: int| 0 <= k < f ==> (#[trigger] mine.fields@[k]).data() == want.fields[k],
            forall|k: int| f <= k < n ==> (#[trigger] mine.fields@[k]).data() == v.fields[k],
        decreases n - f,
    {
        assert(amp.fields@[f as int].data() == w.fields[f as int]);
        assert(mine.fields@[f as int].data() == v.fields[f as int]);
        if !mine.fields[f].is_empty() && !amp.fields[f].is_empty() {
            let width = layout.ghost(f);
            assert(width == specs[f as int].halo);
            let a = amp.fields[f].as_slice();
            let x = mine.fields[f].as_mut_slice();
            scatter_field(grid, block, width, scale, block_key, a, x);
        }
        assert(mine.fields@[f as int].data() =~= want.fields[f as int]);
        f += 1;
    }
    assert(mine.values() =~~= want);
}

} // verus!
