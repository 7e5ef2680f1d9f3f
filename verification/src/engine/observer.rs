//! Observation of simulation state.
use vstd::prelude::*;

use crate::engine::state::{congruent, copied_values, BlockValues, FieldSpec, State};
use crate::engine::storage::{Real, Scalar, StorageBackend};

verus! {

/// What an observer is shown after a step.
#[verifier::ext_equal]
pub struct Sighting<G, T> {
    /// Number of completed steps.
    pub step: u64,
    /// Simulation time.
    pub t: T,
    /// Grid generation.
    pub epoch: u64,
    /// The grid.
    pub grid: G,
    /// The layout of the state.
    pub fields: Seq<FieldSpec>,
    /// The contents of the state.
    pub values: Seq<BlockValues<T>>,
}

/// The solver-facing observation contract: called synchronously after every
/// step, must return fast.
///
/// `observe` receives the *current* grid and its epoch (0 at construction, +1 per
/// adaptive regrid), so geometry-writing observers can follow grid changes by
/// re-emitting statics when the epoch bumps.
pub trait Observer<G, T: Scalar, S: StorageBackend<T>>: Send {
    /// What the observer remembers of what it was shown. An observer that keeps
    /// this and `recalls` as they are here promises nothing of its memory.
    open spec fn memory(&self) -> Seq<Sighting<G, T>> {
        Seq::empty()
    }

    /// What the observer remembers once it has also been shown `next`.
    open spec fn recalls(&self, next: Sighting<G, T>) -> Seq<Sighting<G, T>> {
        Seq::empty()
    }

    /// Called after each completed step. Must not block on IO; copy what you need
    /// and hand off.
    fn observe(&mut self, step: u64, t: T, epoch: u64, grid: &G, state: &State<T, S>)
        ensures
            final(self).memory() == old(self).recalls(
                (Sighting {
                    step,
                    t,
                    epoch,
                    grid: *grid,
                    fields: state.fields(),
                    values: state.values(),
                }),
            ),
    ;
}

/// A consumer of snapshots, free to do slow, blocking work (file IO, statistics,
/// rendering).
pub trait SnapshotSink<T: Scalar, S: StorageBackend<T>>: Send {
    /// Process one snapshot (a deep copy of the state at `step`, time `t`).
    fn consume(&mut self, step: u64, t: T, state: &State<T, S>);

    /// Called once after the last snapshot, when the pipeline shuts down. A sink
    /// with nothing to close stays as it is.
    fn finish(&mut self) {
    }
}

/// Snapshots fire on step 1 and every `every` steps.
pub open spec fn snapshot_at(step: u64, every: u64) -> bool {
    step == 1 || if every == 0 {
        step == 0
    } else {
        step % every == 0
    }
}

/// Whether a snapshot fires on this step.
pub fn snapshot_due(step: u64, every: u64) -> (r: bool)
    ensures
        r == snapshot_at(step, every),
{
    step == 1 || step.is_multiple_of(every)
}

/// A snapshot on its way to the sinks.
#[verifier::reject_recursive_types(T)]
#[verifier::reject_recursive_types(S)]
pub struct Snapshot<T: Scalar, S: StorageBackend<T>> {
    /// The step it was taken at.
    pub step: u64,
    /// The time it was taken at.
    pub t: T,
    /// The copied state.
    pub state: State<T, S>,
}

/// What a snapshot pipeline decides on the solver's side: when to take a snapshot,
/// and what to do without a free buffer.
///
/// **The solver never blocks**: if all buffers are in flight, the snapshot is
/// *dropped* and counted. Backpressure degrades observation, never simulation.
#[derive(Debug, Clone, Copy)]
pub struct SnapshotRing {
    every: u64,
    dropped: u64,
}

impl SnapshotRing {
    /// Steps between snapshots.
    pub closed spec fn cadence(&self) -> u64 {
        self.every
    }

    /// Snapshots skipped so far.
    pub closed spec fn skipped(&self) -> u64 {
        self.dropped
    }

    /// Snapshots fire on step 1 and every `every` steps; none is skipped yet.
    pub fn new(every: u64) -> (r: Self)
        ensures
            r.cadence() == every,
            r.skipped() == 0,
    {
        SnapshotRing { every, dropped: 0 }
    }

    /// Whether a snapshot fires on this step.
    pub fn due(&self, step: u64) -> (r: bool)
        ensures
            r == snapshot_at(step, self.cadence()),
    {
        snapshot_due(step, self.every)
    }

    /// Take a snapshot into a free buffer; without one, count it as skipped.
    pub fn take<T: Real, S: StorageBackend<T>>(
        &mut self,
        step: u64,
        t: T,
        state: &State<T, S>,
        free: Option<State<T, S>>,
    ) -> (r: Option<Snapshot<T, S>>)
        requires
            free matches Some(buf) ==> congruent(buf.values(), state.values()),
            old(self).skipped() < u64::MAX,
        ensures
            final(self).cadence() == old(self).cadence(),
            r is Some <==> free is Some,
            final(self).skipped() == old(self).skipped() + (if free is Some {
                0int
            } else {
                1int
            }),
            r matches Some(snap) ==> snap.step == step && snap.t == t && snap.state.fields()
                == free->0.fields() && snap.state.values() == copied_values(
                free->0.values(),
                state.values(),
            ),
    {
        match free {
            None => {
                self.dropped = self.dropped + 1;
                None
            },
            Some(buf) => {
                let mut buf = buf;
                buf.copy_from(state);
                Some(Snapshot { step, t, state: buf })
            },
        }
    }

    /// A snapshot could not be handed over: count it as skipped.
    pub fn lost(&mut self)
        requires
            old(self).skipped() < u64::MAX,
        ensures
            final(self).cadence() == old(self).cadence(),
            final(self).skipped() == old(self).skipped() + 1,
    {
        self.dropped = self.dropped + 1;
    }

    /// Snapshots skipped because every buffer was still in flight.
    pub fn dropped_snapshots(&self) -> (r: u64)
        ensures
            r == self.skipped(),
    {
        self.dropped
    }
}

/// Snapshots fire on the first step and then keep a steady beat: from one past the first
/// the next comes just `every` steps later, and any `every` steps in a row hold one.
pub proof fn snapshots_keep_a_beat(step: u64, every: u64)
    requires
        every > 0,
    ensures
        snapshot_at(1, every),
        step > 1 && snapshot_at(step, every) && step + every <= u64::MAX ==> snapshot_at(
            (step + every) as u64,
            every,
        ),
        step > 1 && snapshot_at(step, every) ==> forall|r: u64|
            step < r < step + every ==> !#[trigger] snapshot_at(r, every),
        step + every <= u64::MAX ==> exists|r: u64|
            step < r <= step + every && #[trigger] snapshot_at(r, every),
{
    let (s, e) = (step as int, every as int);
    vstd::arithmetic::div_mod::lemma_fundamental_div_mod(s, e);
    vstd::arithmetic::div_mod::lemma_mod_bound(s, e);
    let q = s / e;
    let m = s % e;
    if step + every <= u64::MAX {
        let r = s - m + e;
        assert(e * (q + 1) == e * q + e) by (nonlinear_arith);
        vstd::arithmetic::div_mod::lemma_fundamental_div_mod_converse(r, e, q + 1, 0);
        assert(step < r as u64 <= step + every && snapshot_at(r as u64, every));
    }
    if step > 1 && snapshot_at(step, every) {
        assert forall|r: u64| step < r < step + every implies !#[trigger] snapshot_at(r, every) by {
            vstd::arithmetic::div_mod::lemma_fundamental_div_mod_converse(
                r as int,
                e,
                q,
                r - s,
            );
        }
    }
}

} // verus!
