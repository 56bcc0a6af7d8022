//! How tasks are spread over the threads of an indexer: every worker has a thread
//! of its own choice, and its tasks go there in order.

use dashmap::DashMap;
use rustc_hash::FxBuildHasher;
use vstd::prelude::*;

use crate::collections::{
    dash_threads, dash_threads_get, dash_threads_insert, dash_threads_new, fx_get, fx_insert, fx_len,
    FxMap,
};
use crate::indexer::kv_indexer::KvRouterError;
use crate::indexer::pruning::{
    block_entries_for_hashes, by_hash, entries_for, grouped, paired_blocks, remove_event,
    remove_event_view, removes_by_hash, removes_view, stored_event_for_hashes, BlockEntry,
    WorkerRemovesView,
};
use crate::protocols::{
    EventDataView, KvCacheEvent, LocalBlockHash, RouterEvent, RouterEventView, SequenceHash,
    StorageTier, WorkerWithDpRank,
};
use crate::sorting::is_stable_sort;

verus! {

/// Model of a thread pool's bookkeeping.
pub struct PoolState {
    /// The thread of each worker that has one.
    pub threads: Map<u64, usize>,
    /// Number of workers that were given a thread.
    pub assigned: usize,
    /// Number of threads.
    pub num_threads: usize,
    /// Number of the next event that the pool makes itself.
    pub next_event_id: u64,
    /// Whether routing decisions are recorded.
    pub pruning: bool,
}

/// The thread of a worker. A worker without one gets the next in turn, and keeps
/// it.
pub open spec fn assign(state: PoolState, worker_id: u64) -> (PoolState, usize) {
    if state.threads.dom().contains(worker_id) {
        (state, state.threads[worker_id])
    } else {
        let thread = (state.assigned as int % state.num_threads as int) as usize;
        (
            PoolState {
                threads: state.threads.insert(worker_id, thread),
                assigned: next_count(state.assigned),
                ..state
            },
            thread,
        )
    }
}

/// A counter after one more, starting over after the last number.
pub open spec fn next_count(n: usize) -> usize {
    if n == usize::MAX {
        0
    } else {
        (n + 1) as usize
    }
}

/// An event number after one more, starting over after the last number.
pub open spec fn next_id(n: u64) -> u64 {
    if n == u64::MAX {
        0
    } else {
        (n + 1) as u64
    }
}

/// A worker stays on its thread, whatever other workers are given theirs.
pub proof fn assignment_is_sticky(state: PoolState, worker_id: u64, other: u64)
    ensures
        ({
            let (first, thread) = assign(state, worker_id);
            let (later, _) = assign(first, other);
            &&& assign(first, worker_id) == (first, thread)
            &&& assign(later, worker_id).1 == thread
        }),
{
}

/// Workers that are given a thread one after the other are given neighbouring
/// threads, in a ring.
pub proof fn assignment_goes_round(state: PoolState, worker_id: u64, other: u64)
    requires
        state.num_threads > 0,
        state.assigned < usize::MAX,
        !state.threads.dom().contains(worker_id),
        !state.threads.dom().contains(other),
        worker_id != other,
    ensures
        ({
            let (first, thread) = assign(state, worker_id);
            let (_, neighbour) = assign(first, other);
            neighbour == (thread + 1) % state.num_threads as int
        }),
{
    let (first, thread) = assign(state, worker_id);
    let a = state.assigned as int;
    let n = state.num_threads as int;
    vstd::arithmetic::div_mod::lemma_add_mod_noop(a, 1, n);
    vstd::arithmetic::div_mod::lemma_add_mod_noop(a % n, 1, n);
    vstd::arithmetic::div_mod::lemma_mod_twice(a, n);
}

/// Removes handed out to threads: for each its thread and its event.
pub open spec fn dispatched(state: PoolState, removes: Seq<WorkerRemovesView>) -> (
    PoolState,
    Seq<(usize, RouterEventView)>,
)
    decreases removes.len(),
{
    if removes.len() == 0 {
        (state, Seq::empty())
    } else {
        let (before, tasks) = dispatched(state, removes.drop_last());
        let remove = removes.last();
        let event = remove_event_view(remove, before.next_event_id);
        let numbered = PoolState { next_event_id: next_id(before.next_event_id), ..before };
        let (after, thread) = assign(numbered, remove.worker.worker_id);
        (after, tasks.push((thread, event)))
    }
}

/// An event for a thread.
pub struct ThreadTask {
    pub thread: usize,
    pub event: RouterEvent,
}

/// Model of tasks.
pub open spec fn tasks_view(tasks: Seq<ThreadTask>) -> Seq<(usize, RouterEventView)> {
    tasks.map_values(|t: ThreadTask| (t.thread, t.event@))
}

/// What to do with a routing decision: which thread stores it, and how it
/// expires.
pub struct RoutingRecord {
    pub task: ThreadTask,
    pub entries: Vec<BlockEntry>,
}

/// How many blocks each worker holds.
pub struct WorkerLookupStats {
    pub worker_blocks: FxMap<(u64, u32), usize>,
}

/// The sum of what several threads count for a worker.
pub open spec fn total_for(
    parts: Seq<Vec<((u64, u32), usize)>>,
    worker: (u64, u32),
) -> nat
    decreases parts.len(),
{
    if parts.len() == 0 {
        0
    } else {
        total_for(parts.drop_last(), worker) + part_total(parts.last()@, worker)
    }
}

/// The sum of what one thread counts for a worker.
pub open spec fn part_total(part: Seq<((u64, u32), usize)>, worker: (u64, u32)) -> nat
    decreases part.len(),
{
    if part.len() == 0 {
        0
    } else {
        part_total(part.drop_last(), worker) + if part.last().0 == worker {
            part.last().1 as nat
        } else {
            0
        }
    }
}

/// Whether some thread counts for a worker.
pub open spec fn counted(
    parts: Seq<Vec<((u64, u32), usize)>>,
    worker: (u64, u32),
) -> bool {
    exists|i: int| 0 <= i < parts.len() && #[trigger] counted_in(parts[i]@, worker)
}

/// Whether a thread counts for a worker.
pub open spec fn counted_in(part: Seq<((u64, u32), usize)>, worker: (u64, u32)) -> bool {
    exists|j: int| 0 <= j < part.len() && (#[trigger] part[j]).0 == worker
}

proof fn lemma_totals_grow(
    parts: Seq<Vec<((u64, u32), usize)>>,
    i: int,
    j: int,
    worker: (u64, u32),
)
    requires
        0 <= i < parts.len(),
        0 <= j <= parts[i]@.len(),
    ensures
        total_for(parts.take(i), worker) + part_total(parts[i]@.take(j), worker) <= total_for(
            parts,
            worker,
        ),
    decreases parts.len(),
{
    if i < parts.len() - 1 {
        let init = parts.drop_last();
        lemma_totals_grow(init, i, j, worker);
        assert(init.take(i) =~= parts.take(i));
    } else {
        assert(parts.take(i) =~= parts.drop_last());
        lemma_part_grows(parts[i]@, j, worker);
    }
}

proof fn lemma_part_grows(part: Seq<((u64, u32), usize)>, j: int, worker: (u64, u32))
    requires
        0 <= j <= part.len(),
    ensures
        part_total(part.take(j), worker) <= part_total(part, worker),
    decreases part.len(),
{
    if j < part.len() {
        lemma_part_grows(part.drop_last(), j, worker);
        assert(part.drop_last().take(j) =~= part.take(j));
    } else {
        assert(part.take(j) =~= part);
    }
}

impl WorkerLookupStats {
    /// Puts together what the threads count.
    pub fn from_parts(parts: &Vec<Vec<((u64, u32), usize)>>) -> (stats: Self)
        requires
            forall|w: (u64, u32)| #[trigger] total_for(parts@, w) <= usize::MAX,
        ensures
            forall|w: (u64, u32)| #[trigger]
                stats.worker_blocks@.dom().contains(w) <==> counted(parts@, w),
            forall|w: (u64, u32)| #[trigger]
                stats.worker_blocks@.dom().contains(w) ==> stats.worker_blocks@[w] == total_for(
                    parts@,
                    w,
                ),
    {
        let mut worker_blocks: FxMap<(u64, u32), usize> = FxMap::default();
        for i in 0..parts.len()
            invariant
                forall|w: (u64, u32)| #[trigger] total_for(parts@, w) <= usize::MAX,
                forall|w: (u64, u32)| #[trigger]
                    worker_blocks@.dom().contains(w) <==> counted(parts@.take(i as int), w),
                forall|w: (u64, u32)| #[trigger]
                    worker_blocks@.dom().contains(w) ==> worker_blocks@[w] == total_for(
                        parts@.take(i as int),
                        w,
                    ),
                forall|w: (u64, u32)|
                    !#[trigger] worker_blocks@.dom().contains(w) ==> total_for(
                        parts@.take(i as int),
                        w,
                    ) == 0,
        {
            let part = &parts[i];
            let ghost before = parts@.take(i as int);
            for j in 0..part.len()
                invariant
                    part@ == parts@[i as int]@,
                    i < parts@.len(),
                    before == parts@.take(i as int),
                    forall|w: (u64, u32)| #[trigger] total_for(parts@, w) <= usize::MAX,
                    forall|w: (u64, u32)| #[trigger]
                        worker_blocks@.dom().contains(w) <==> counted(before, w) || counted_in(
                            part@.take(j as int),
                            w,
                        ),
                    forall|w: (u64, u32)| #[trigger]
                        worker_blocks@.dom().contains(w) ==> worker_blocks@[w] == total_for(
                            before,
                            w,
                        ) + part_total(part@.take(j as int), w),
                    forall|w: (u64, u32)|
                        !#[trigger] worker_blocks@.dom().contains(w) ==> total_for(before, w)
                            + part_total(part@.take(j as int), w) == 0,
            {
                let (worker, blocks) = part[j];
                let ghost done = part@.take(j as int);
                let ghost more = part@.take(j + 1);
                proof {
                    assert(more.drop_last() =~= done);
                    assert(more.last() == part@[j as int]);
                    lemma_totals_grow(parts@, i as int, j + 1, worker);
                    assert(total_for(parts@, worker) <= usize::MAX);
                    assert forall|w: (u64, u32)| #[trigger] counted_in(more, w) <==> counted_in(
                        done,
                        w,
                    ) || w == worker by {
                        if counted_in(done, w) {
                            let k = choose|k: int| 0 <= k < done.len() && (#[trigger] done[k]).0
                                == w;
                            assert(more[k].0 == w);
                        }
                        if w == worker {
                            assert(more[j as int].0 == w);
                        }
                        if counted_in(more, w) && w != worker {
                            let k = choose|k: int| 0 <= k < more.len() && (#[trigger] more[k]).0
                                == w;
                            assert(done[k].0 == w);
                        }
                    }
                }
                let so_far = match fx_get(&worker_blocks, &worker) {
                    Some(n) => *n,
                    None => 0,
                };
                fx_insert(&mut worker_blocks, worker, so_far + blocks);
            }
            proof {
                let more = parts@.take(i + 1);
                assert(more.drop_last() =~= before);
                assert(part@.take(part@.len() as int) =~= part@);
                assert forall|w: (u64, u32)| #[trigger] counted(more, w) <==> counted(before, w)
                    || counted_in(part@, w) by {
                    if counted(before, w) {
                        let k = choose|k: int| 0 <= k < before.len() && #[trigger] counted_in(
                            before[k]@,
                            w,
                        );
                        assert(counted_in(more[k]@, w));
                    }
                    if counted_in(part@, w) {
                        assert(counted_in(more[i as int]@, w));
                    }
                    if counted(more, w) && !counted_in(part@, w) {
                        let k = choose|k: int| 0 <= k < more.len() && #[trigger] counted_in(
                            more[k]@,
                            w,
                        );
                        assert(counted_in(before[k]@, w));
                    }
                }
            }
        }
        assert(parts@.take(parts@.len() as int) =~= parts@);
        WorkerLookupStats { worker_blocks }
    }

    /// Number of workers that hold blocks or were counted without any.
    pub fn worker_count(&self) -> (n: usize)
        ensures
            n == self.worker_blocks@.dom().len(),
    {
        fx_len(&self.worker_blocks)
    }
}

/// The bookkeeping of an indexer that works with several threads.
pub struct ThreadPoolIndexer {
    worker_assignments: DashMap<u64, usize, FxBuildHasher>,
    worker_assignment_count: usize,
    num_workers: usize,
    kv_block_size: u32,
    pruning: bool,
    synthetic_event_id: u64,
}

impl View for ThreadPoolIndexer {
    type V = PoolState;

    closed spec fn view(&self) -> PoolState {
        PoolState {
            threads: dash_threads(&self.worker_assignments),
            assigned: self.worker_assignment_count,
            num_threads: self.num_workers,
            next_event_id: self.synthetic_event_id,
            pruning: self.pruning,
        }
    }
}

impl ThreadPoolIndexer {
    /// The invariant of a pool: there are threads, and workers are on them.
    pub open spec fn wf(&self) -> bool {
        &&& self@.num_threads > 0
        &&& forall|id: u64| #[trigger]
            self@.threads.dom().contains(id) ==> self@.threads[id] < self@.num_threads
    }

    /// Number of tokens per block.
    pub closed spec fn spec_block_size(&self) -> u32 {
        self.kv_block_size
    }

    /// A pool of threads that do not record routing decisions.
    pub fn new(num_workers: usize, kv_block_size: u32) -> (pool: Self)
        requires
            num_workers > 0,
        ensures
            pool.wf(),
            pool.spec_block_size() == kv_block_size,
            pool@ == (PoolState {
                threads: Map::empty(),
                assigned: 0,
                num_threads: num_workers,
                next_event_id: 0,
                pruning: false,
            }),
    {
        ThreadPoolIndexer::new_with_pruning(num_workers, kv_block_size, false)
    }

    /// A pool of threads.
    pub fn new_with_pruning(num_workers: usize, kv_block_size: u32, pruning: bool) -> (pool: Self)
        requires
            num_workers > 0,
        ensures
            pool.wf(),
            pool.spec_block_size() == kv_block_size,
            pool@ == (PoolState {
                threads: Map::empty(),
                assigned: 0,
                num_threads: num_workers,
                next_event_id: 0,
                pruning,
            }),
    {
        ThreadPoolIndexer {
            worker_assignments: dash_threads_new(),
            worker_assignment_count: 0,
            num_workers,
            kv_block_size,
            pruning,
            synthetic_event_id: 0,
        }
    }

    /// Number of tokens per block.
    pub fn block_size(&self) -> (size: u32)
        ensures
            size == self.spec_block_size(),
    {
        self.kv_block_size
    }

    /// The thread of a worker; one that has none gets the next in turn.
    pub fn get_or_assign_thread_idx(&mut self, worker_id: u64) -> (thread: usize)
        requires
            old(self).wf(),
        ensures
            final(self).wf(),
            final(self).spec_block_size() == old(self).spec_block_size(),
            (final(self)@, thread) == assign(old(self)@, worker_id),
            thread < old(self)@.num_threads,
    {
        match dash_threads_get(&self.worker_assignments, worker_id) {
            Some(thread) => thread,
            None => {
                let idx = self.worker_assignment_count;
                self.worker_assignment_count = if idx == usize::MAX {
                    0
                } else {
                    idx + 1
                };
                let thread = idx % self.num_workers;
                dash_threads_insert(&mut self.worker_assignments, worker_id, thread);
                assert forall|id: u64| #[trigger] self@.threads.dom().contains(
                    id,
                ) implies self@.threads[id] < self@.num_threads by {
                    if id != worker_id {
                        assert(old(self)@.threads.dom().contains(id));
                    }
                }
                thread
            },
        }
    }

    /// The number for the next event that the pool makes itself.
    pub fn next_synthetic_event_id(&mut self) -> (id: u64)
        requires
            old(self).wf(),
        ensures
            final(self).wf(),
            final(self).spec_block_size() == old(self).spec_block_size(),
            id == old(self)@.next_event_id,
            final(self)@ == (PoolState { next_event_id: next_id(id), ..old(self)@ }),
    {
        let id = self.synthetic_event_id;
        self.synthetic_event_id = if id == u64::MAX {
            0
        } else {
            id + 1
        };
        id
    }

    /// The threads that a worker's removal goes to, and the one that cleans up
    /// afterwards: the worker's own thread, or all of them where it has none.
    pub fn removal_targets(&self, worker_id: u64) -> (targets: (Vec<usize>, usize))
        requires
            self.wf(),
        ensures
            self@.threads.dom().contains(worker_id) ==> targets.0@ == seq![
                self@.threads[worker_id],
            ] && targets.1 == self@.threads[worker_id],
            !self@.threads.dom().contains(worker_id) ==> targets.0@ == Seq::new(
                self@.num_threads as nat,
                |i: int| i as usize,
            ) && targets.1 == 0,
    {
        match dash_threads_get(&self.worker_assignments, worker_id) {
            Some(thread) => {
                let mut targets: Vec<usize> = Vec::new();
                targets.push(thread);
                assert(targets@ =~= seq![thread]);
                (targets, thread)
            },
            None => (self.all_threads(), 0),
        }
    }

    /// All threads. A rank's removal goes to all of them, since any may know the
    /// rank.
    pub fn all_threads(&self) -> (targets: Vec<usize>)
        ensures
            targets@ == Seq::new(self@.num_threads as nat, |i: int| i as usize),
    {
        let mut targets: Vec<usize> = Vec::new();
        for i in 0..self.num_workers
            invariant
                targets@ == Seq::new(i as nat, |j: int| j as usize),
        {
            targets.push(i);
            assert(targets@ =~= Seq::new((i + 1) as nat, |j: int| j as usize));
        }
        targets
    }

    /// Groups expired entries by worker and hands each worker's removal to its
    /// thread.
    pub fn enqueue_prune_removes(&mut self, entries: &Vec<BlockEntry>) -> (tasks: Vec<ThreadTask>)
        requires
            old(self).wf(),
        ensures
            final(self).wf(),
            final(self).spec_block_size() == old(self).spec_block_size(),
            exists|sorted: Seq<BlockEntry>|
                is_stable_sort(by_hash(entries@), by_hash(sorted)) && (
                    final(self)@,
                    tasks_view(tasks@),
                ) == dispatched(old(self)@, #[trigger] grouped(sorted, true)),
    {
        let ghost start = self@;
        let mut removes = removes_by_hash(entries);
        let ghost removes_all = removes@;
        let ghost all = removes_view(removes@);
        let ghost mut done: int = 0;
        let mut tasks: Vec<ThreadTask> = Vec::new();
        assert(tasks_view(tasks@) =~= Seq::empty());
        while removes.len() > 0
            invariant
                self.wf(),
                self.spec_block_size() == old(self).spec_block_size(),
                0 <= done,
                done + removes@.len() == all.len(),
                all == removes_view(removes_all),
                removes@ == removes_all.skip(done),
                (self@, tasks_view(tasks@)) == dispatched(start, all.take(done)),
            decreases removes@.len(),
        {
            let remove = removes.remove(0);
            let ghost view = WorkerRemovesView { worker: remove.worker, hashes: remove.hashes@ };
            let ghost earlier = tasks@;
            let worker_id = remove.worker.worker_id;
            let event_id = self.next_synthetic_event_id();
            let event = remove_event(remove, event_id);
            let thread = self.get_or_assign_thread_idx(worker_id);
            tasks.push(ThreadTask { thread, event });
            proof {
                assert(removes_all[done] == remove);
                assert(all[done] == view);
                assert(all.take(done + 1).drop_last() =~= all.take(done));
                assert(tasks_view(tasks@) =~= tasks_view(earlier).push((thread, event@)));
                done = done + 1;
                assert(removes@ =~= removes_all.skip(done));
            }
        }
        assert(all.take(all.len() as int) =~= all);
        tasks
    }

    /// What to do with a routing decision. One whose hash lists have different
    /// lengths is refused; where decisions are not recorded, nothing is to be done.
    pub fn record_routing_decision_hashes(
        &mut self,
        worker: WorkerWithDpRank,
        local_hashes: &[LocalBlockHash],
        sequence_hashes: &[SequenceHash],
    ) -> (r: Result<Option<RoutingRecord>, KvRouterError>)
        requires
            old(self).wf(),
        ensures
            final(self).wf(),
            final(self).spec_block_size() == old(self).spec_block_size(),
            local_hashes@.len() != sequence_hashes@.len() ==> r == Err::<
                Option<RoutingRecord>,
                KvRouterError,
            >(KvRouterError::IndexerDroppedRequest) && final(self)@ == old(self)@,
            local_hashes@.len() == sequence_hashes@.len() && !old(self)@.pruning ==> r == Ok::<
                Option<RoutingRecord>,
                KvRouterError,
            >(None) && final(self)@ == old(self)@,
            local_hashes@.len() == sequence_hashes@.len() && old(self)@.pruning ==> {
                let numbered = PoolState {
                    next_event_id: next_id(old(self)@.next_event_id),
                    ..old(self)@
                };
                &&& r is Ok && r->Ok_0 is Some
                &&& (final(self)@, (r->Ok_0)->0.task.thread) == assign(numbered, worker.worker_id)
                &&& (r->Ok_0)->0.entries@ == entries_for(worker, sequence_hashes@)
                &&& (r->Ok_0)->0.task.event@ == (RouterEventView {
                    worker_id: worker.worker_id,
                    storage_tier: StorageTier::Device,
                    event_id: old(self)@.next_event_id,
                    dp_rank: worker.dp_rank,
                    data: EventDataView::Stored {
                        parent_hash: None,
                        start_position: None,
                        blocks: paired_blocks(local_hashes@, sequence_hashes@),
                    },
                })
            },
    {
        if local_hashes.len() != sequence_hashes.len() {
            return Err(KvRouterError::IndexerDroppedRequest);
        }
        if !self.pruning {
            return Ok(None);
        }
        let event_id = self.next_synthetic_event_id();
        let event = stored_event_for_hashes(worker, local_hashes, sequence_hashes, event_id);
        let entries = block_entries_for_hashes(worker, sequence_hashes);
        let thread = self.get_or_assign_thread_idx(worker.worker_id);
        Ok(Some(RoutingRecord { task: ThreadTask { thread, event }, entries }))
    }
}

/// Model of the events of several threads one after the other, numbered from 0.
pub open spec fn numbered_events(batches: Seq<Vec<RouterEvent>>) -> Seq<RouterEvent>
    decreases batches.len(),
{
    if batches.len() == 0 {
        Seq::empty()
    } else {
        let before = numbered_events(batches.drop_last());
        before + renumbered(batches.last()@, before.len() as int)
    }
}

/// Events with new numbers from `first` on.
pub open spec fn renumbered(events: Seq<RouterEvent>, first: int) -> Seq<RouterEvent> {
    Seq::new(
        events.len(),
        |i: int|
            RouterEvent {
                worker_id: events[i].worker_id,
                storage_tier: events[i].storage_tier,
                event: KvCacheEvent {
                    event_id: (first + i) as u64,
                    data: events[i].event.data,
                    dp_rank: events[i].event.dp_rank,
                },
            },
    )
}

/// Puts the dumps of all threads together and numbers the events.
pub fn collect_dumps(batches: Vec<Vec<RouterEvent>>) -> (events: Vec<RouterEvent>)
    requires
        numbered_events(batches@).len() <= u64::MAX,
    ensures
        events@ == numbered_events(batches@),
{
    let ghost all = batches@;
    let mut batches = batches;
    let mut events: Vec<RouterEvent> = Vec::new();
    let ghost mut done: int = 0;
    while batches.len() > 0
        invariant
            0 <= done,
            done + batches@.len() == all.len(),
            batches@ == all.skip(done),
            events@ == numbered_events(all.take(done)),
            numbered_events(all).len() <= u64::MAX,
        decreases batches@.len(),
    {
        let batch = batches.remove(0);
        let mut batch = batch;
        let ghost whole = batch@;
        let ghost base = events@;
        proof {
            assert(all[done] == batch);
            assert(all.take(done + 1).drop_last() =~= all.take(done));
            lemma_numbered_len(all, done + 1);
        }
        let ghost mut taken: int = 0;
        assert(events@ =~= base + renumbered(whole, base.len() as int).take(0));
        while batch.len() > 0
            invariant
                0 <= taken,
                taken + batch@.len() == whole.len(),
                batch@ == whole.skip(taken),
                base.len() + whole.len() <= u64::MAX,
                events@ == base + renumbered(whole, base.len() as int).take(taken),
            decreases batch@.len(),
        {
            let event = batch.remove(0);
            let event_id = events.len() as u64;
            events.push(
                RouterEvent {
                    worker_id: event.worker_id,
                    storage_tier: event.storage_tier,
                    event: KvCacheEvent {
                        event_id,
                        data: event.event.data,
                        dp_rank: event.event.dp_rank,
                    },
                },
            );
            proof {
                assert(whole[taken] == event);
                taken = taken + 1;
                assert(batch@ =~= whole.skip(taken));
                assert(events@ =~= base + renumbered(whole, base.len() as int).take(taken));
            }
        }
        proof {
            assert(events@ =~= base + renumbered(whole, base.len() as int));
            done = done + 1;
            assert(batches@ =~= all.skip(done));
        }
    }
    assert(all.take(all.len() as int) =~= all);
    events
}

proof fn lemma_numbered_len(batches: Seq<Vec<RouterEvent>>, n: int)
    requires
        0 <= n <= batches.len(),
    ensures
        numbered_events(batches.take(n)).len() <= numbered_events(batches).len(),
    decreases batches.len(),
{
    if n == batches.len() {
        assert(batches.take(n) =~= batches);
    } else {
        lemma_numbered_len(batches.drop_last(), n);
        assert(batches.drop_last().take(n) =~= batches.take(n));
    }
}

/// Every removal becomes one task, in order, with its own number, for the thread that has
/// the worker: two removals of one worker go to one thread.
pub proof fn removals_go_to_their_workers_thread(
    state: PoolState,
    removes: Seq<WorkerRemovesView>,
    i: int,
)
    requires
        0 <= i < removes.len(),
        state.next_event_id + removes.len() <= u64::MAX,
    ensures
        ({
            let (after, tasks) = dispatched(state, removes);
            &&& tasks.len() == removes.len()
            &&& after.threads.dom().contains(removes[i].worker.worker_id)
            &&& tasks[i].0 == after.threads[removes[i].worker.worker_id]
            &&& tasks[i].1.worker_id == removes[i].worker.worker_id
            &&& tasks[i].1.dp_rank == removes[i].worker.dp_rank
            &&& tasks[i].1.data == (EventDataView::Removed { block_hashes: removes[i].hashes })
            &&& tasks[i].1.event_id == state.next_event_id + i
            &&& after.next_event_id == state.next_event_id + removes.len()
            &&& state.threads.dom().contains(removes[i].worker.worker_id) ==> tasks[i].0
                == state.threads[removes[i].worker.worker_id]
        }),
    decreases removes.len(),
{
    lemma_dispatched(state, removes);
    let fewer = removes.drop_last();
    if i < fewer.len() {
        removals_go_to_their_workers_thread(state, fewer, i);
        assert(fewer[i] == removes[i]);
    }
}

proof fn lemma_dispatched(state: PoolState, removes: Seq<WorkerRemovesView>)
    requires
        state.next_event_id + removes.len() <= u64::MAX,
    ensures
        dispatched(state, removes).1.len() == removes.len(),
        dispatched(state, removes).0.next_event_id == state.next_event_id + removes.len(),
        forall|id: u64| #[trigger]
            state.threads.dom().contains(id) ==> dispatched(
                state,
                removes,
            ).0.threads.dom().contains(id) && dispatched(state, removes).0.threads[id]
                == state.threads[id],
    decreases removes.len(),
{
    if removes.len() > 0 {
        lemma_dispatched(state, removes.drop_last());
    }
}

/// Dumps that are put together keep all their events in order, and number them from zero
/// on.
pub proof fn dumps_are_numbered_through(batches: Seq<Vec<RouterEvent>>, i: int)
    requires
        0 <= i < numbered_events(batches).len() <= u64::MAX,
    ensures
        numbered_events(batches)[i].event.event_id == i,
    decreases batches.len(),
{
    let fewer = numbered_events(batches.drop_last());
    if i < fewer.len() {
        dumps_are_numbered_through(batches.drop_last(), i);
    }
}

/// The events of a dump stand after those of the dumps before it, each as it was but for
/// its number.
pub proof fn dumps_follow_each_other(
    before: Seq<Vec<RouterEvent>>,
    last: Vec<RouterEvent>,
    i: int,
)
    requires
        0 <= i < last@.len(),
    ensures
        ({
            let earlier = numbered_events(before);
            let all = numbered_events(before.push(last));
            &&& all.len() == earlier.len() + last@.len()
            &&& all.take(earlier.len() as int) == earlier
            &&& all[earlier.len() + i].worker_id == last@[i].worker_id
            &&& all[earlier.len() + i].storage_tier == last@[i].storage_tier
            &&& all[earlier.len() + i].event.data == last@[i].event.data
            &&& all[earlier.len() + i].event.dp_rank == last@[i].event.dp_rank
        }),
{
    let more = before.push(last);
    assert(more.drop_last() =~= before);
    assert(more.last() == last);
    let earlier = numbered_events(before);
    assert(numbered_events(more).take(earlier.len() as int) =~= earlier);
}

/// A worker that asks for a thread again gets the one it has, and nothing changes; a new
/// one gets one of the threads there are, and all others keep theirs.
pub proof fn workers_keep_their_threads(state: PoolState, worker_id: u64, other: u64)
    requires
        state.num_threads > 0,
        forall|id: u64| #[trigger]
            state.threads.dom().contains(id) ==> state.threads[id] < state.num_threads,
    ensures
        ({
            let (after, thread) = assign(state, worker_id);
            &&& thread < state.num_threads
            &&& after.threads.dom().contains(worker_id) && after.threads[worker_id] == thread
            &&& state.threads.dom().contains(worker_id) ==> after == state
            &&& other != worker_id ==> (after.threads.dom().contains(other)
                <==> state.threads.dom().contains(other))
            &&& state.threads.dom().contains(other) ==> after.threads[other]
                == state.threads[other]
        }),
{
    assert(0 <= state.assigned as int % state.num_threads as int) by {
        vstd::arithmetic::div_mod::lemma_mod_bound(
            state.assigned as int,
            state.num_threads as int,
        );
    }
    vstd::arithmetic::div_mod::lemma_mod_bound(state.assigned as int, state.num_threads as int);
}

/// What the threads count for a worker adds up: an entry of a part counts for its own
/// worker and for no other, and so does each further part.
pub proof fn counts_add_up(
    parts: Seq<Vec<((u64, u32), usize)>>,
    next: Vec<((u64, u32), usize)>,
    part: Seq<((u64, u32), usize)>,
    entry: ((u64, u32), usize),
    worker: (u64, u32),
)
    ensures
        total_for(Seq::empty(), worker) == 0,
        part_total(Seq::empty(), worker) == 0,
        total_for(parts.push(next), worker) == total_for(parts, worker) + part_total(next@, worker),
        entry.0 == worker ==> part_total(part.push(entry), worker) == part_total(part, worker)
            + entry.1,
        entry.0 != worker ==> part_total(part.push(entry), worker) == part_total(part, worker),
{
    assert(parts.push(next).drop_last() =~= parts);
    assert(part.push(entry).drop_last() =~= part);
}

} // verus!
