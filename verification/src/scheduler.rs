//! Tick bookkeeping: what running the resonators over a batch of entities
//! adds up to, and the totals of a tick.

use vstd::prelude::*;
use crate::archetype::EntityId;
use crate::context::{CommandBuffer, SpawnRequest, WriteRequest};

verus! {

/// Totals of one tick.
#[derive(Clone, Copy, Debug)]
pub struct TickResult {
    pub total_calls: u64,
    pub entities_processed: u64,
    pub dirty_count: u64,
    pub despawn_requests: u64,
}

impl Default for TickResult {
    fn default() -> (r: Self)
        ensures
            r.total_calls == 0,
            r.entities_processed == 0,
            r.dirty_count == 0,
            r.despawn_requests == 0,
    {
        TickResult { total_calls: 0, entities_processed: 0, dirty_count: 0, despawn_requests: 0 }
    }
}

/// What running the resonators of one archetype over its live entities gave.
pub struct ArchetypeBatchResult {
    pub calls: u64,
    pub processed: u64,
    pub dirty: u64,
    pub despawn_list: Vec<EntityId>,
    pub commands: CommandBuffer,
}

/// What running every resonator of an archetype on one entity left behind.
pub struct EntityOutcome {
    pub entity: EntityId,
    pub dirty: bool,
    pub despawn: bool,
    pub commands: CommandBuffer,
}

/// Number of outcomes marked dirty.
pub open spec fn dirty_count(s: Seq<EntityOutcome>) -> nat
    decreases s.len(),
{
    if s.len() == 0 {
        0
    } else {
        dirty_count(s.drop_last()) + if s.last().dirty { 1nat } else { 0nat }
    }
}

/// Entities of the outcomes that asked to be removed, in order.
pub open spec fn despawned(s: Seq<EntityOutcome>) -> Seq<EntityId>
    decreases s.len(),
{
    if s.len() == 0 {
        Seq::empty()
    } else {
        let r = despawned(s.drop_last());
        if s.last().despawn { r.push(s.last().entity) } else { r }
    }
}

/// Spawn requests of the outcomes, in order.
pub open spec fn spawns_of(s: Seq<EntityOutcome>) -> Seq<SpawnRequest>
    decreases s.len(),
{
    if s.len() == 0 {
        Seq::empty()
    } else {
        spawns_of(s.drop_last()) + s.last().commands.spawn_requests@
    }
}

/// Write requests of the outcomes, in order.
pub open spec fn writes_of(s: Seq<EntityOutcome>) -> Seq<WriteRequest>
    decreases s.len(),
{
    if s.len() == 0 {
        Seq::empty()
    } else {
        writes_of(s.drop_last()) + s.last().commands.write_requests@
    }
}

/// Despawn requests queued by the outcomes, in order.
pub open spec fn queued_despawns(s: Seq<EntityOutcome>) -> Seq<EntityId>
    decreases s.len(),
{
    if s.len() == 0 {
        Seq::empty()
    } else {
        queued_despawns(s.drop_last()) + s.last().commands.despawn_requests@
    }
}

proof fn lemma_dirty_count_bound(s: Seq<EntityOutcome>)
    ensures
        dirty_count(s) <= s.len(),
    decreases s.len(),
{
    if s.len() > 0 {
        lemma_dirty_count_bound(s.drop_last());
    }
}

/// The result of a batch in which nothing ran.
pub fn empty_batch() -> (r: ArchetypeBatchResult)
    ensures
        r.calls == 0,
        r.processed == 0,
        r.dirty == 0,
        r.despawn_list@ == Seq::<EntityId>::empty(),
        r.commands.spawn_requests@ == Seq::<SpawnRequest>::empty(),
        r.commands.write_requests@ == Seq::<WriteRequest>::empty(),
        r.commands.despawn_requests@ == Seq::<EntityId>::empty(),
{
    ArchetypeBatchResult { calls: 0, processed: 0, dirty: 0, despawn_list: Vec::new(), commands: CommandBuffer::new() }
}

/// Adds up the outcomes of a batch, in batch order: each entity ran
/// `resonators` resonators; dirty entities are counted, those that asked to
/// be removed listed, and their queued commands merged.
pub fn collect_outcomes(outcomes: Vec<EntityOutcome>, resonators: u64) -> (r: ArchetypeBatchResult)
    requires
        outcomes@.len() * resonators <= u64::MAX,
    ensures
        r.calls == outcomes@.len() * resonators,
        r.processed == outcomes@.len(),
        r.dirty == dirty_count(outcomes@),
        r.despawn_list@ == despawned(outcomes@),
        r.commands.spawn_requests@ == spawns_of(outcomes@),
        r.commands.write_requests@ == writes_of(outcomes@),
        r.commands.despawn_requests@ == queued_despawns(outcomes@),
{
    let ghost all = outcomes@;
    let n = outcomes.len();
    let mut outcomes = outcomes;
    let mut rev: Vec<EntityOutcome> = Vec::new();
    while outcomes.len() > 0
        invariant
            outcomes@.len() + rev@.len() == all.len(),
            outcomes@ == all.subrange(0, outcomes@.len() as int),
            forall|k: int| 0 <= k < rev@.len() ==> #[trigger] rev@[k] == all[all.len() - 1 - k],
        decreases outcomes@.len(),
    {
        let ghost before = outcomes@;
        match outcomes.pop() {
            Some(o) => {
                rev.push(o);
                proof {
                    assert(outcomes@ =~= all.subrange(0, outcomes@.len() as int));
                }
            },
            None => {},
        }
    }
    let mut calls: u64 = 0;
    let mut dirty: u64 = 0;
    let mut despawn_list: Vec<EntityId> = Vec::new();
    let mut commands = CommandBuffer::new();
    let mut i: usize = 0;
    proof {
        assert(all.subrange(0, 0) =~= Seq::<EntityOutcome>::empty());
    }
    while rev.len() > 0
        invariant
            n == all.len(),
            i + rev@.len() == n,
            forall|k: int| 0 <= k < rev@.len() ==> #[trigger] rev@[k] == all[n - 1 - k],
            n * resonators <= u64::MAX,
            calls == i * resonators,
            dirty == dirty_count(all.subrange(0, i as int)),
            despawn_list@ == despawned(all.subrange(0, i as int)),
            commands.spawn_requests@ == spawns_of(all.subrange(0, i as int)),
            commands.write_requests@ == writes_of(all.subrange(0, i as int)),
            commands.despawn_requests@ == queued_despawns(all.subrange(0, i as int)),
        decreases rev@.len(),
    {
        let ghost k = rev@.len() - 1;
        let o = match rev.pop() {
            Some(o) => o,
            None => {
                proof {
                    assert(false);
                }
                return empty_batch();
            },
        };
        proof {
            assert(o == all[i as int]);
            assert(all.subrange(0, i + 1).drop_last() =~= all.subrange(0, i as int));
            assert(all.subrange(0, i + 1).last() == all[i as int]);
            lemma_dirty_count_bound(all.subrange(0, i as int));
            assert((i + 1) * resonators <= n * resonators) by (nonlinear_arith)
                requires
                    i + 1 <= n,
            ;
            assert((i + 1) * resonators == i * resonators + resonators) by (nonlinear_arith);
        }
        calls = calls + resonators;
        if o.dirty {
            dirty = dirty + 1;
        }
        if o.despawn {
            despawn_list.push(o.entity);
        }
        commands.merge(o.commands);
        i = i + 1;
    }
    proof {
        assert(all.subrange(0, i as int) =~= all);
    }
    ArchetypeBatchResult { calls, processed: n as u64, dirty, despawn_list, commands }
}

/// Size of the chunks a batch of `batch_len` entities is cut into for
/// `threads` workers: an even share, but no less than `min_chunk`.
pub fn chunk_size(min_chunk: usize, batch_len: usize, threads: usize) -> (c: usize)
    requires
        threads > 0,
    ensures
        c == if min_chunk >= batch_len / threads { min_chunk } else { batch_len / threads },
{
    let share = batch_len / threads;
    if min_chunk >= share {
        min_chunk
    } else {
        share
    }
}

/// How the batch of one archetype runs.
#[derive(Clone, Copy, Debug, PartialEq, Eq, Structural)]
pub enum BatchMode {
    /// No resonator or no live entity: nothing runs.
    Skip,
    /// One entity after another.
    Sequential,
    /// In chunks on worker threads.
    Parallel,
}

/// How a batch of `batch_len` live entities under `resonators` resonators
/// runs: not at all when either is zero, on worker threads from
/// `threshold` entities on, else one entity after another.
pub fn batch_mode(resonators: usize, batch_len: usize, threshold: usize) -> (m: BatchMode)
    ensures
        m == if resonators == 0 || batch_len == 0 {
            BatchMode::Skip
        } else if batch_len >= threshold {
            BatchMode::Parallel
        } else {
            BatchMode::Sequential
        },
{
    if resonators == 0 || batch_len == 0 {
        BatchMode::Skip
    } else if batch_len >= threshold {
        BatchMode::Parallel
    } else {
        BatchMode::Sequential
    }
}

/// Whether the archetypes of one tick group run side by side: only in a
/// tick with phases, and only for a group of two or more; otherwise they
/// run one after another.
pub fn group_side_by_side(phased: bool, group_len: usize) -> (b: bool)
    ensures
        b == (phased && group_len >= 2),
{
    phased && group_len >= 2
}

impl TickResult {
    /// Adds the counts of one batch to the tick's totals.
    pub fn absorb(&mut self, batch: &ArchetypeBatchResult)
        requires
            old(self).total_calls + batch.calls <= u64::MAX,
            old(self).entities_processed + batch.processed <= u64::MAX,
            old(self).dirty_count + batch.dirty <= u64::MAX,
        ensures
            final(self).total_calls == old(self).total_calls + batch.calls,
            final(self).entities_processed == old(self).entities_processed + batch.processed,
            final(self).dirty_count == old(self).dirty_count + batch.dirty,
            final(self).despawn_requests == old(self).despawn_requests,
    {
        self.total_calls = self.total_calls + batch.calls;
        self.entities_processed = self.entities_processed + batch.processed;
        self.dirty_count = self.dirty_count + batch.dirty;
    }
}

} // verus!
