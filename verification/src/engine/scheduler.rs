//! Block dispatch. The only module that names Rayon.
//!
//! A scheduler's contract is deliberately narrow: run one task over disjoint
//! block work items, giving each worker private scratch. Work items are
//! disjoint `&mut` blocks and results land at fixed places, so the outcome does
//! not depend on the order in which blocks are visited: every scheduler meets
//! the same contract.

use vstd::prelude::*;

use rayon::iter::{IndexedParallelIterator, IntoParallelRefMutIterator, ParallelIterator};

use crate::geometry::grid::BlockId;

verus! {

/// Work to be done once per block, with disjoint access to the block's item
/// and worker-private scratch.
pub trait BlockTask<Item, Sc>: Send + Sync {
    /// The item of block `b` can be worked on.
    open spec fn ready(&self, b: int, item: Item) -> bool {
        true
    }

    /// What the task makes of the item of block `b`.
    open spec fn done(&self, b: int, before: Item, after: Item) -> bool {
        true
    }

    /// Do the work of one block.
    fn run(&self, block: BlockId, item: &mut Item, scratch: &mut Sc)
        requires
            self.ready(block.id(), *old(item)),
        ensures
            self.done(block.id(), *old(item), *final(item)),
    ;
}

/// Dispatches per-block work.
pub trait Scheduler: Send + Sync {
    /// Run `task` once per item, with disjoint `&mut` access and
    /// worker-private scratch.
    fn for_each_block_mut<Item, Sc, Init, K>(&self, items: &mut [Item], scratch: Init, task: &K)
        where Item: Send, Init: Fn() -> Sc + Send + Sync, K: BlockTask<Item, Sc>
        requires
            old(items)@.len() <= u32::MAX,
            call_requires(scratch, ()),
            forall|b: int|
                0 <= b < old(items)@.len() ==> task.ready(b, #[trigger] old(items)@[b]),
        ensures
            final(items)@.len() == old(items)@.len(),
            forall|b: int|
                0 <= b < old(items)@.len() ==> task.done(
                    b,
                    old(items)@[b],
                    #[trigger] final(items)@[b],
                ),
    ;

    /// Upper bound on concurrently executing tasks. Sizes the worker-pinned
    /// scratch pool at setup.
    fn max_concurrency(&self) -> usize;
}

/// Single-threaded reference scheduler.
#[derive(Debug, Clone, Copy, Default)]
pub struct SerialScheduler;

impl Scheduler for SerialScheduler {
    fn for_each_block_mut<Item, Sc, Init, K>(&self, items: &mut [Item], scratch: Init, task: &K)
        where Item: Send, Init: Fn() -> Sc + Send + Sync, K: BlockTask<Item, Sc>
    {
        let mut sc = scratch();
        let n = items.len();
        let ghost before = items@;
        let mut b: usize = 0;
        while b < n
            invariant
                b <= n,
                n == items@.len(),
                n == before.len(),
                n <= u32::MAX,
                before == old(items)@,
                forall|k: int| 0 <= k < n ==> task.ready(k, #[trigger] before[k]),
                forall|k: int| b <= k < n ==> #[trigger] items@[k] == before[k],
                forall|k: int| 0 <= k < b ==> task.done(k, before[k], #[trigger] items@[k]),
            decreases n - b,
        {
            assert(task.ready(b as int, before[b as int]));
            task.run(BlockId(b as u32), &mut items[b], &mut sc);
            b += 1;
        }
    }

    fn max_concurrency(&self) -> (r: usize)
        ensures
            r == 1,
    {
        1
    }
}

/// Rayon-backed work-stealing scheduler.
#[derive(Debug, Clone, Copy, Default)]
pub struct RayonScheduler;

impl Scheduler for RayonScheduler {
    fn for_each_block_mut<Item, Sc, Init, K>(&self, items: &mut [Item], scratch: Init, task: &K)
        where Item: Send, Init: Fn() -> Sc + Send + Sync, K: BlockTask<Item, Sc>
    {
        par_for_each_init(items, scratch, task);
    }

    fn max_concurrency(&self) -> usize {
        rayon_threads()
    }
}

/// `rayon::iter::ParallelIterator::for_each_init` over the enumerated
/// `par_iter_mut` of a slice: every item is handed to the operation exactly
/// once, with its own index and exclusive access, together with a scratch value
/// made by the initializer. No item is left out or visited twice; the order in
/// which items are visited, and how many scratch values are made, is left open.
#[verifier::external_body]
fn par_for_each_init<Item, Sc, Init, K>(items: &mut [Item], scratch: Init, task: &K)
    where Item: Send, Init: Fn() -> Sc + Send + Sync, K: BlockTask<Item, Sc>
    requires
        old(items)@.len() <= u32::MAX,
        call_requires(scratch, ()),
        forall|b: int| 0 <= b < old(items)@.len() ==> task.ready(b, #[trigger] old(items)@[b]),
    ensures
        final(items)@.len() == old(items)@.len(),
        (forall|b: int|
            0 <= b < old(items)@.len() ==> task.done(
                b,
                old(items)@[b],
                #[trigger] final(items)@[b],
            )),
{
    items.par_iter_mut().panic_fuse().enumerate().for_each_init(
        &scratch,
        |sc, (i, item)| task.run(BlockId(i as u32), item, sc),
    );
}

/// `rayon::current_num_threads`: the number of threads of the current pool,
/// which depends on the machine.
#[verifier::external_body]
fn rayon_threads() -> usize {
    rayon::current_num_threads()
}

} // verus!
