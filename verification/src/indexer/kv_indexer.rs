//! The index behind one task queue: which waiting task goes first, and what each
//! task does.

use vstd::prelude::*;

use crate::collections::{fx_worker_keys, FxMap};
use crate::hashing::{
    block_hashes, compute_block_hash_for_seq, lemma_block_count, BlockHashOptions,
};
use crate::indexer::concurrent_radix_tree_compressed::dump::dumped_in;
use crate::indexer::concurrent_radix_tree_compressed::events::{
    blocks_removed, event_applied, stored_sequence_is_found,
};
use crate::indexer::concurrent_radix_tree_compressed::find::matches_query;
use crate::indexer::concurrent_radix_tree_compressed::lookup::{
    entries_of, lookup_wf, LookupTable,
};
use crate::indexer::concurrent_radix_tree_compressed::model::{is_score, TreeNodeView};
use crate::indexer::concurrent_radix_tree_compressed::remove::{ranks_dropped, worker_dropped};
use crate::indexer::concurrent_radix_tree_compressed::store::{stored, stored_locals};
use crate::indexer::concurrent_radix_tree_compressed::{
    ConcurrentRadixTreeCompressed, KvCacheEventError, WorkerLookup,
};
use crate::indexer::pruning::{
    block_entries_for_hashes, by_position, entries_for, grouped, paired_blocks, remove_event,
    removes_by_position, removes_view, stored_event_for_hashes, BlockEntry, WorkerRemovesView,
};
use crate::protocols::{
    opt_str_view, router_events_view, stored_blocks_view, EventDataView, KvCacheEventData,
    LocalBlockHash, MatchDetails, OverlapScores, RouterEvent, SequenceHash, WorkerWithDpRank,
};
use crate::seqs::lemma_push_contains;
use crate::sorting::{is_stable_sort, lex_lt, stable_sort, SortKey};

verus! {

/// Why an indexer could not answer.
#[derive(Clone, Copy, Debug, PartialEq, Eq, Structural)]
pub enum KvRouterError {
    IndexerOffline,
    IndexerDroppedRequest,
}

/// The kind of a cache event.
#[derive(Clone, Copy, Debug, PartialEq, Eq, Structural)]
pub enum EventKind {
    Stored,
    Removed,
    Cleared,
}

/// The kind of an event's data.
pub open spec fn kind_of(data: KvCacheEventData) -> EventKind {
    match data {
        KvCacheEventData::Stored(_) => EventKind::Stored,
        KvCacheEventData::Removed(_) => EventKind::Removed,
        KvCacheEventData::Cleared => EventKind::Cleared,
    }
}

impl EventKind {
    pub fn of(data: &KvCacheEventData) -> (kind: Self)
        ensures
            kind == kind_of(*data),
    {
        match data {
            KvCacheEventData::Stored(_) => EventKind::Stored,
            KvCacheEventData::Removed(_) => EventKind::Removed,
            KvCacheEventData::Cleared => EventKind::Cleared,
        }
    }
}

/// A request that was sent to a worker, with the hashes of its blocks.
pub struct RoutingDecisionRequest {
    pub worker: WorkerWithDpRank,
    pub local_hashes: Vec<LocalBlockHash>,
    pub sequence_hashes: Vec<SequenceHash>,
}

/// What an indexer can be asked for, most urgent first.
#[derive(Clone, Copy, Debug, PartialEq, Eq, Structural)]
pub enum IndexerTask {
    Shutdown,
    RemoveWorker,
    RemoveWorkerDpRank,
    ApplyEvent,
    GetWorkers,
    Dump,
    Flush,
    RecordRouting,
    Prune,
    FindMatches,
    FindMatchDetails,
}

/// Which tasks are waiting.
#[derive(Clone, Copy, Debug, PartialEq, Eq, Structural)]
pub struct WaitingTasks {
    pub shutdown: bool,
    pub remove_worker: bool,
    pub remove_worker_dp_rank: bool,
    pub event: bool,
    pub get_workers: bool,
    pub dump: bool,
    pub flush: bool,
    pub routing: bool,
    pub prune: bool,
    pub matches: bool,
    pub match_details: bool,
}

/// Whether a task is waiting.
pub open spec fn is_waiting(waiting: WaitingTasks, task: IndexerTask) -> bool {
    match task {
        IndexerTask::Shutdown => waiting.shutdown,
        IndexerTask::RemoveWorker => waiting.remove_worker,
        IndexerTask::RemoveWorkerDpRank => waiting.remove_worker_dp_rank,
        IndexerTask::ApplyEvent => waiting.event,
        IndexerTask::GetWorkers => waiting.get_workers,
        IndexerTask::Dump => waiting.dump,
        IndexerTask::Flush => waiting.flush,
        IndexerTask::RecordRouting => waiting.routing,
        IndexerTask::Prune => waiting.prune,
        IndexerTask::FindMatches => waiting.matches,
        IndexerTask::FindMatchDetails => waiting.match_details,
    }
}

/// Place of a task in the order of urgency.
pub open spec fn urgency(task: IndexerTask) -> int {
    match task {
        IndexerTask::Shutdown => 0,
        IndexerTask::RemoveWorker => 1,
        IndexerTask::RemoveWorkerDpRank => 2,
        IndexerTask::ApplyEvent => 3,
        IndexerTask::GetWorkers => 4,
        IndexerTask::Dump => 5,
        IndexerTask::Flush => 6,
        IndexerTask::RecordRouting => 7,
        IndexerTask::Prune => 8,
        IndexerTask::FindMatches => 9,
        IndexerTask::FindMatchDetails => 10,
    }
}

/// The waiting task to do next: the most urgent one. Whatever changes the index
/// goes before the queries.
pub fn next_task(waiting: WaitingTasks) -> (task: Option<IndexerTask>)
    ensures
        task is None <==> forall|t: IndexerTask| !#[trigger] is_waiting(waiting, t),
        task matches Some(next) ==> is_waiting(waiting, next) && forall|t: IndexerTask| #[trigger]
            is_waiting(waiting, t) ==> urgency(next) <= urgency(t),
{
    let task = if waiting.shutdown {
        Some(IndexerTask::Shutdown)
    } else if waiting.remove_worker {
        Some(IndexerTask::RemoveWorker)
    } else if waiting.remove_worker_dp_rank {
        Some(IndexerTask::RemoveWorkerDpRank)
    } else if waiting.event {
        Some(IndexerTask::ApplyEvent)
    } else if waiting.get_workers {
        Some(IndexerTask::GetWorkers)
    } else if waiting.dump {
        Some(IndexerTask::Dump)
    } else if waiting.flush {
        Some(IndexerTask::Flush)
    } else if waiting.routing {
        Some(IndexerTask::RecordRouting)
    } else if waiting.prune {
        Some(IndexerTask::Prune)
    } else if waiting.matches {
        Some(IndexerTask::FindMatches)
    } else if waiting.match_details {
        Some(IndexerTask::FindMatchDetails)
    } else {
        None
    };
    proof {
        if task is None {
            assert forall|t: IndexerTask| !#[trigger] is_waiting(waiting, t) by {}
        } else {
            assert(is_waiting(waiting, task->0));
        }
    }
    task
}

/// Model of an indexer.
pub struct IndexerState {
    pub nodes: Seq<TreeNodeView>,
    pub table: Map<(u64, u32), WorkerLookup>,
    /// Number of the last event that the indexer made itself.
    pub event_id: u64,
    /// Whether routing decisions are recorded.
    pub pruning: bool,
}

/// Model of a change of the index.
pub enum Mutation {
    RemoveWorker(u64),
    RemoveRank(u64, u32),
    Event(RouterEvent),
    Routing(WorkerWithDpRank, Seq<LocalBlockHash>, Seq<u64>),
    Expire(WorkerRemovesView),
}

/// Whether an event is the one that records a routing decision.
pub open spec fn records(
    event: RouterEvent,
    worker: WorkerWithDpRank,
    local_hashes: Seq<LocalBlockHash>,
    sequence_hashes: Seq<u64>,
    event_id: u64,
) -> bool {
    &&& event.worker_id == worker.worker_id
    &&& event.event.dp_rank == worker.dp_rank
    &&& event.event.event_id == event_id
    &&& event@.data == (EventDataView::Stored {
        parent_hash: None,
        start_position: None,
        blocks: paired_blocks(local_hashes, sequence_hashes),
    })
    &&& event.event.data matches KvCacheEventData::Stored(op) && op.parent_hash is None
}

/// What a change does to an indexer.
pub open spec fn step(before: IndexerState, change: Mutation, after: IndexerState) -> bool {
    &&& after.pruning == before.pruning
    &&& match change {
        Mutation::RemoveWorker(worker_id) => {
            &&& after.event_id == before.event_id
            &&& ranks_dropped(before.nodes, after.nodes, before.table, worker_id)
            &&& forall|v: (u64, u32)| #[trigger]
                after.table.dom().contains(v) <==> before.table.dom().contains(v) && v.0
                    != worker_id
            &&& forall|v: (u64, u32)|
                v.0 != worker_id ==> #[trigger] entries_of(after.table, v) == entries_of(
                    before.table,
                    v,
                )
        },
        Mutation::RemoveRank(worker_id, dp_rank) => {
            &&& after.event_id == before.event_id
            &&& worker_dropped(
                before.nodes,
                after.nodes,
                (worker_id, dp_rank),
                entries_of(before.table, (worker_id, dp_rank)),
            )
            &&& after.table == before.table.remove((worker_id, dp_rank))
        },
        Mutation::Event(event) => {
            &&& after.event_id == before.event_id
            &&& exists|r: Result<(), KvCacheEventError>|
                #![trigger event_applied(
                    before.nodes,
                    before.table,
                    after.nodes,
                    after.table,
                    &event,
                    r,
                )]
                event_applied(before.nodes, before.table, after.nodes, after.table, &event, r)
                    && (r is Err ==> after == before)
        },
        Mutation::Routing(worker, local_hashes, sequence_hashes) => if before.pruning {
            &&& after.event_id == before.event_id + 1
            &&& exists|event: RouterEvent, r: Result<(), KvCacheEventError>|
                records(event, worker, local_hashes, sequence_hashes, after.event_id) && r is Ok
                    && #[trigger] event_applied(
                    before.nodes,
                    before.table,
                    after.nodes,
                    after.table,
                    &event,
                    r,
                )
        } else {
            after == before
        },
        Mutation::Expire(remove) => {
            &&& after.event_id == before.event_id + 1
            &&& blocks_removed(
                before.nodes,
                before.table,
                after.nodes,
                after.table,
                remove.worker.spec_key(),
                remove.hashes,
            )
        },
    }
}

/// Whether a list of states goes through some changes, one after the other.
pub open spec fn chain(states: Seq<IndexerState>, changes: Seq<Mutation>) -> bool {
    &&& states.len() == changes.len() + 1
    &&& forall|i: int|
        0 <= i < changes.len() ==> step(states[i], #[trigger] changes[i], states[i + 1])
}

/// Whether changes lead from one state to another.
pub open spec fn leads(before: IndexerState, changes: Seq<Mutation>, after: IndexerState) -> bool {
    exists|states: Seq<IndexerState>| #[trigger]
        chain(states, changes) && states.first() == before && states.last() == after
}

proof fn lemma_leads_nowhere(state: IndexerState)
    ensures
        leads(state, Seq::empty(), state),
{
    assert(chain(seq![state], Seq::empty()));
}

proof fn lemma_leads_on(
    before: IndexerState,
    changes: Seq<Mutation>,
    middle: IndexerState,
    change: Mutation,
    after: IndexerState,
)
    requires
        leads(before, changes, middle),
        step(middle, change, after),
    ensures
        leads(before, changes.push(change), after),
{
    let states = choose|states: Seq<IndexerState>| #[trigger]
        chain(states, changes) && states.first() == before && states.last() == middle;
    lemma_chain_on(states, changes, change, after);
    assert(states.push(after).first() == before);
}

/// A chain goes on with one more change.
proof fn lemma_chain_on(
    states: Seq<IndexerState>,
    changes: Seq<Mutation>,
    change: Mutation,
    after: IndexerState,
)
    requires
        chain(states, changes),
        step(states.last(), change, after),
    ensures
        chain(states.push(after), changes.push(change)),
{
    let more = states.push(after);
    let all = changes.push(change);
    assert forall|i: int| 0 <= i < all.len() implies step(more[i], #[trigger] all[i], more[i + 1]) by {
        if i < changes.len() {
            assert(all[i] == changes[i]);
            assert(step(states[i], changes[i], states[i + 1]));
        }
    }
}

/// What came of an event: its kind, and whether it could be applied between two
/// states.
pub open spec fn came_of(
    before: IndexerState,
    event: RouterEvent,
    outcome: (EventKind, Result<(), KvCacheEventError>),
    after: IndexerState,
) -> bool {
    &&& outcome.0 == kind_of(event.event.data)
    &&& event_applied(
        before.nodes,
        before.table,
        after.nodes,
        after.table,
        &event,
        outcome.1,
    )
    &&& outcome.1 is Err ==> after == before
}

/// Whether a list of states goes through all waiting changes, with these outcomes
/// of the events among them.
pub open spec fn drained_through(
    states: Seq<IndexerState>,
    pending: PendingMutations,
    outcomes: Seq<(EventKind, Result<(), KvCacheEventError>)>,
) -> bool {
    let first = (pending.removed_workers@.len() + pending.removed_ranks@.len()) as int;
    &&& chain(states, pending.in_order())
    &&& outcomes.len() == pending.events@.len()
    &&& forall|i: int|
        0 <= i < outcomes.len() ==> came_of(
            states[first + i],
            pending.events@[i],
            #[trigger] outcomes[i],
            states[first + i + 1],
        )
}

/// Model of the removes of a list.
pub open spec fn expiries(removes: Seq<WorkerRemovesView>) -> Seq<Mutation> {
    removes.map_values(|r: WorkerRemovesView| Mutation::Expire(r))
}

/// There are no more groups than entries.
proof fn lemma_grouped_len(entries: Seq<BlockEntry>, distinct: bool)
    ensures
        grouped(entries, distinct).len() <= entries.len(),
    decreases entries.len(),
{
    if entries.len() > 0 {
        lemma_grouped_len(entries.drop_last(), distinct);
    }
}

/// A worker number that sorts by itself.
#[derive(Clone, Copy, Debug, PartialEq, Eq, Structural)]
pub struct SortedId(pub u64);

impl SortKey for SortedId {
    open spec fn rank(&self) -> Seq<int> {
        seq![self.0 as int]
    }

    fn is_before(&self, other: &Self) -> (r: bool) {
        proof {
            reveal_with_fuel(lex_lt, 2);
        }
        self.0 < other.0
    }
}

/// Changes of the index that are waiting, in the queues that they came in by.
pub struct PendingMutations {
    pub removed_workers: Vec<u64>,
    pub removed_ranks: Vec<(u64, u32)>,
    pub events: Vec<RouterEvent>,
    pub routing: Vec<RoutingDecisionRequest>,
}

/// What making the waiting changes came to: the entries by which the recorded routing
/// decisions expire, and of each event its kind and whether it could be applied.
pub struct DrainedMutations {
    pub entries: Vec<BlockEntry>,
    pub outcomes: Vec<(EventKind, Result<(), KvCacheEventError>)>,
}

impl PendingMutations {
    /// The changes in the order in which they are made.
    pub open spec fn in_order(&self) -> Seq<Mutation> {
        self.removed_workers@.map_values(|id: u64| Mutation::RemoveWorker(id))
            + self.removed_ranks@.map_values(|r: (u64, u32)| Mutation::RemoveRank(r.0, r.1))
            + self.events@.map_values(|e: RouterEvent| Mutation::Event(e))
            + self.routing@.map_values(
            |r: RoutingDecisionRequest|
                Mutation::Routing(r.worker, r.local_hashes@, r.sequence_hashes@),
        )
    }
}

/// The entries that routing decisions leave behind.
pub open spec fn routing_entries(routing: Seq<RoutingDecisionRequest>) -> Seq<BlockEntry>
    decreases routing.len(),
{
    if routing.len() == 0 {
        Seq::empty()
    } else {
        routing_entries(routing.drop_last()) + entries_for(
            routing.last().worker,
            routing.last().sequence_hashes@,
        )
    }
}

/// Whether some rank of a worker has a lookup.
pub open spec fn has_lookup(table: Map<(u64, u32), WorkerLookup>, worker_id: u64) -> bool {
    exists|v: (u64, u32)| #[trigger] table.dom().contains(v) && v.0 == worker_id
}

/// An index of the blocks that workers hold, with the lookups of all workers.
pub struct KvIndexer {
    tree: ConcurrentRadixTreeCompressed,
    lookup: LookupTable,
    event_id_counter: u64,
    pruning: bool,
    kv_block_size: u32,
}

impl View for KvIndexer {
    type V = IndexerState;

    closed spec fn view(&self) -> IndexerState {
        IndexerState {
            nodes: self.tree@,
            table: self.lookup@,
            event_id: self.event_id_counter,
            pruning: self.pruning,
        }
    }
}

impl KvIndexer {
    /// The invariant of an indexer.
    pub closed spec fn wf(&self) -> bool {
        &&& self.tree.wf()
        &&& lookup_wf(self.tree@, self.lookup@)
    }

    /// Number of tokens per block.
    pub closed spec fn spec_block_size(&self) -> u32 {
        self.kv_block_size
    }

    /// An empty index. With `pruning`, routing decisions are recorded in it.
    pub fn new_with_pruning(kv_block_size: u32, pruning: bool) -> (indexer: Self)
        ensures
            indexer.wf(),
            indexer.spec_block_size() == kv_block_size,
            indexer@.pruning == pruning,
            indexer@.event_id == 0,
            indexer@.table == Map::<(u64, u32), WorkerLookup>::empty(),
            indexer@.nodes.len() == 1,
            indexer@.nodes[0].children == Map::<u64, usize>::empty(),
            indexer@.nodes[0].cover == Map::<(u64, u32), nat>::empty(),
    {
        KvIndexer {
            tree: ConcurrentRadixTreeCompressed::new(),
            lookup: FxMap::default(),
            event_id_counter: 0,
            pruning,
            kv_block_size,
        }
    }

    /// An empty index that does not record routing decisions.
    pub fn new(kv_block_size: u32) -> (indexer: Self)
        ensures
            indexer.wf(),
            indexer.spec_block_size() == kv_block_size,
            !indexer@.pruning,
            indexer@.event_id == 0,
            indexer@.table == Map::<(u64, u32), WorkerLookup>::empty(),
            indexer@.nodes.len() == 1,
            indexer@.nodes[0].children == Map::<u64, usize>::empty(),
            indexer@.nodes[0].cover == Map::<(u64, u32), nat>::empty(),
    {
        KvIndexer::new_with_pruning(kv_block_size, false)
    }

    pub fn block_size(&self) -> (size: u32)
        ensures
            size == self.spec_block_size(),
    {
        self.kv_block_size
    }

    /// Applies an event, and says for the counters what kind it was and whether it
    /// could be applied.
    pub fn apply_event_with_counters(&mut self, event: &RouterEvent) -> (outcome: (
        EventKind,
        Result<(), KvCacheEventError>,
    ))
        requires
            old(self).wf(),
        ensures
            final(self).wf(),
            final(self).spec_block_size() == old(self).spec_block_size(),
            outcome.0 == kind_of(event.event.data),
            event_applied(
                old(self)@.nodes,
                old(self)@.table,
                final(self)@.nodes,
                final(self)@.table,
                event,
                outcome.1,
            ),
            outcome.1 is Err ==> final(self)@ == old(self)@,
            step(old(self)@, Mutation::Event(*event), final(self)@),
    {
        let ghost before = self@;
        let kind = EventKind::of(&event.event.data);
        let result = self.tree.apply_event(&mut self.lookup, event);
        assert(event_applied(before.nodes, before.table, self@.nodes, self@.table, event, result));
        (kind, result)
    }

    /// Records that a request was sent to a worker, as if the worker had stored the
    /// request's blocks. Returns the entries by which they expire; none where
    /// routing decisions are not recorded.
    pub fn apply_routing_decision_with_prune_tracking(
        &mut self,
        request: &RoutingDecisionRequest,
    ) -> (entries: Vec<BlockEntry>)
        requires
            old(self).wf(),
            old(self)@.event_id < u64::MAX,
        ensures
            final(self).wf(),
            final(self).spec_block_size() == old(self).spec_block_size(),
            step(
                old(self)@,
                Mutation::Routing(
                    request.worker,
                    request.local_hashes@,
                    request.sequence_hashes@,
                ),
                final(self)@,
            ),
            entries@ == if old(self)@.pruning {
                entries_for(request.worker, request.sequence_hashes@)
            } else {
                Seq::empty()
            },
    {
        if !self.pruning {
            return Vec::new();
        }
        let ghost before = self@;
        let event_id = self.event_id_counter + 1;
        self.event_id_counter = event_id;
        let event = stored_event_for_hashes(
            request.worker,
            request.local_hashes.as_slice(),
            request.sequence_hashes.as_slice(),
            event_id,
        );
        let result = self.tree.apply_event(&mut self.lookup, &event);
        proof {
            assert(records(
                event,
                request.worker,
                request.local_hashes@,
                request.sequence_hashes@,
                event_id,
            ));
            assert(event_applied(
                before.nodes,
                before.table,
                self@.nodes,
                self@.table,
                &event,
                result,
            ));
        }
        block_entries_for_hashes(request.worker, request.sequence_hashes.as_slice())
    }

    /// Takes expired blocks out of the index: one event per worker, lowest worker
    /// first, with the worker's blocks in the order of their places.
    pub fn apply_prune_removes(&mut self, entries: &Vec<BlockEntry>)
        requires
            old(self).wf(),
            old(self)@.event_id + entries@.len() <= u64::MAX,
        ensures
            final(self).wf(),
            final(self).spec_block_size() == old(self).spec_block_size(),
            exists|sorted: Seq<BlockEntry>|
                is_stable_sort(by_position(entries@), by_position(sorted)) && leads(
                    old(self)@,
                    expiries(#[trigger] grouped(sorted, false)),
                    final(self)@,
                ),
    {
        let ghost before = self@;
        let mut removes = removes_by_position(entries);
        let ghost sorted = choose|sorted: Seq<BlockEntry>|
            is_stable_sort(by_position(entries@), by_position(sorted)) && removes_view(removes@)
                == #[trigger] grouped(sorted, false);
        let ghost all = removes_view(removes@);
        proof {
            lemma_grouped_len(sorted, false);
            vstd::seq_lib::to_multiset_len(by_position(sorted));
            vstd::seq_lib::to_multiset_len(by_position(entries@));
            lemma_leads_nowhere(before);
        }
        let ghost removes_all = removes@;
        let ghost mut done: int = 0;
        assert(expiries(all).take(0) =~= Seq::<Mutation>::empty());
        while removes.len() > 0
            invariant
                self.wf(),
                self.spec_block_size() == old(self).spec_block_size(),
                0 <= done,
                done + removes@.len() == all.len(),
                all == removes_view(removes_all),
                removes@ == removes_all.skip(done),
                self@.event_id == before.event_id + done,
                before.event_id + all.len() <= u64::MAX,
                leads(before, expiries(all).take(done), self@),
            decreases removes@.len(),
        {
            let ghost middle = self@;
            let remove = removes.remove(0);
            let ghost view = WorkerRemovesView { worker: remove.worker, hashes: remove.hashes@ };
            proof {
                assert(removes_all[done] == remove);
                assert(all[done] == view);
            }
            let event_id = self.event_id_counter + 1;
            self.event_id_counter = event_id;
            let event = remove_event(remove, event_id);
            let _ = self.tree.apply_event(&mut self.lookup, &event);
            proof {
                let change = expiries(all)[done];
                assert(change == Mutation::Expire(view));
                assert(step(middle, change, self@));
                lemma_leads_on(before, expiries(all).take(done), middle, change, self@);
                assert(expiries(all).take(done).push(change) =~= expiries(all).take(
                    done + 1,
                ));
                done = done + 1;
                assert(removes@ =~= removes_all.skip(done));
            }
        }
        proof {
            assert(expiries(all).take(all.len() as int) =~= expiries(all));
        }
    }

    /// Takes a worker out of the index.
    pub fn remove_worker(&mut self, worker_id: u64)
        requires
            old(self).wf(),
        ensures
            final(self).wf(),
            final(self).spec_block_size() == old(self).spec_block_size(),
            step(old(self)@, Mutation::RemoveWorker(worker_id), final(self)@),
    {
        self.tree.remove_or_clear_worker_blocks(&mut self.lookup, worker_id, false);
    }

    /// Takes one rank of a worker out of the index.
    pub fn remove_worker_dp_rank(&mut self, worker_id: u64, dp_rank: u32)
        requires
            old(self).wf(),
        ensures
            final(self).wf(),
            final(self).spec_block_size() == old(self).spec_block_size(),
            step(old(self)@, Mutation::RemoveRank(worker_id, dp_rank), final(self)@),
    {
        self.tree.remove_worker_dp_rank(&mut self.lookup, worker_id, dp_rank);
    }

    /// Makes all waiting changes, queue by queue. Returns the entries by which the
    /// recorded routing decisions expire, and for the counters what came of each event.
    pub fn drain_pending_mutations(&mut self, pending: &PendingMutations) -> (drained:
        DrainedMutations)
        requires
            old(self).wf(),
            old(self)@.event_id + pending.routing@.len() <= u64::MAX,
        ensures
            final(self).wf(),
            final(self).spec_block_size() == old(self).spec_block_size(),
            exists|states: Seq<IndexerState>| #[trigger]
                drained_through(states, *pending, drained.outcomes@) && states.first() == old(self)@
                    && states.last() == final(self)@,
            leads(old(self)@, pending.in_order(), final(self)@),
            drained.entries@ == if old(self)@.pruning {
                routing_entries(pending.routing@)
            } else {
                Seq::empty()
            },
    {
        let ghost before = self@;
        let ghost order = pending.in_order();
        let ghost a = pending.removed_workers@.len() as int;
        let ghost b = a + pending.removed_ranks@.len();
        let ghost c = b + pending.events@.len();
        let ghost mut states: Seq<IndexerState> = seq![before];
        assert(chain(states, order.take(0)));
        for i in 0..pending.removed_workers.len()
            invariant
                self.wf(),
                self.spec_block_size() == old(self).spec_block_size(),
                order == pending.in_order(),
                self@.event_id == before.event_id,
                self@.pruning == before.pruning,
                chain(states, order.take(i as int)),
                states.first() == before,
                states.last() == self@,
        {
            let worker_id = pending.removed_workers[i];
            self.remove_worker(worker_id);
            proof {
                let change = Mutation::RemoveWorker(worker_id);
                assert(order[i as int] == change);
                lemma_chain_on(states, order.take(i as int), change, self@);
                assert(order.take(i as int).push(change) =~= order.take(i + 1));
                states = states.push(self@);
            }
        }
        for i in 0..pending.removed_ranks.len()
            invariant
                self.wf(),
                self.spec_block_size() == old(self).spec_block_size(),
                order == pending.in_order(),
                a == pending.removed_workers@.len(),
                self@.event_id == before.event_id,
                self@.pruning == before.pruning,
                chain(states, order.take(a + i)),
                states.first() == before,
                states.last() == self@,
        {
            let (worker_id, dp_rank) = pending.removed_ranks[i];
            self.remove_worker_dp_rank(worker_id, dp_rank);
            proof {
                let change = Mutation::RemoveRank(worker_id, dp_rank);
                assert(order[a + i] == change);
                lemma_chain_on(states, order.take(a + i), change, self@);
                assert(order.take(a + i).push(change) =~= order.take(a + i + 1));
                states = states.push(self@);
            }
        }
        let mut outcomes: Vec<(EventKind, Result<(), KvCacheEventError>)> = Vec::new();
        for i in 0..pending.events.len()
            invariant
                self.wf(),
                self.spec_block_size() == old(self).spec_block_size(),
                order == pending.in_order(),
                b == pending.removed_workers@.len() + pending.removed_ranks@.len(),
                self@.event_id == before.event_id,
                self@.pruning == before.pruning,
                chain(states, order.take(b + i)),
                states.first() == before,
                states.last() == self@,
                outcomes@.len() == i,
                forall|j: int|
                    0 <= j < i ==> came_of(
                        states[b + j],
                        pending.events@[j],
                        #[trigger] outcomes@[j],
                        states[b + j + 1],
                    ),
        {
            let ghost earlier = outcomes@;
            let ghost middle = self@;
            let outcome = self.apply_event_with_counters(&pending.events[i]);
            outcomes.push(outcome);
            proof {
                let change = Mutation::Event(pending.events@[i as int]);
                let more = states.push(self@);
                assert(order[b + i] == change);
                lemma_chain_on(states, order.take(b + i), change, self@);
                assert(order.take(b + i).push(change) =~= order.take(b + i + 1));
                assert(more[b + i] == middle);
                assert forall|j: int| 0 <= j < i + 1 implies came_of(
                    more[b + j],
                    pending.events@[j],
                    #[trigger] outcomes@[j],
                    more[b + j + 1],
                ) by {
                    if j < i {
                        assert(outcomes@[j] == earlier[j]);
                    }
                }
                states = more;
            }
        }
        let mut entries: Vec<BlockEntry> = Vec::new();
        for i in 0..pending.routing.len()
            invariant
                self.wf(),
                self.spec_block_size() == old(self).spec_block_size(),
                order == pending.in_order(),
                b == pending.removed_workers@.len() + pending.removed_ranks@.len(),
                c == b + pending.events@.len(),
                self@.event_id <= before.event_id + i,
                before.event_id + pending.routing@.len() <= u64::MAX,
                self@.pruning == before.pruning,
                chain(states, order.take(c + i)),
                states.first() == before,
                states.last() == self@,
                outcomes@.len() == pending.events@.len(),
                forall|j: int|
                    0 <= j < outcomes@.len() ==> came_of(
                        states[b + j],
                        pending.events@[j],
                        #[trigger] outcomes@[j],
                        states[b + j + 1],
                    ),
                entries@ == if before.pruning {
                    routing_entries(pending.routing@.take(i as int))
                } else {
                    Seq::empty()
                },
        {
            let ghost earlier = entries@;
            let mut new = self.apply_routing_decision_with_prune_tracking(&pending.routing[i]);
            let ghost left = new@;
            entries.append(&mut new);
            proof {
                let r = pending.routing@[i as int];
                let change = Mutation::Routing(r.worker, r.local_hashes@, r.sequence_hashes@);
                assert(order[c + i] == change);
                lemma_chain_on(states, order.take(c + i), change, self@);
                assert(order.take(c + i).push(change) =~= order.take(c + i + 1));
                assert(pending.routing@.take(i + 1).drop_last() =~= pending.routing@.take(
                    i as int,
                ));
                assert(entries@ =~= earlier + left);
                states = states.push(self@);
            }
        }
        proof {
            assert(order.take(order.len() as int) =~= order);
            assert(pending.routing@.take(pending.routing@.len() as int) =~= pending.routing@);
        }
        let drained = DrainedMutations { entries, outcomes };
        assert(drained_through(states, *pending, drained.outcomes@) && states.first() == before
            && states.last() == self@);
        drained
    }

    /// The workers that have a lookup, lowest number first, each once.
    pub fn get_workers(&self) -> (workers: Vec<u64>)
        ensures
            forall|i: int, j: int|
                0 <= i < j < workers@.len() ==> #[trigger] workers@[i] < #[trigger] workers@[j],
            forall|id: u64| #[trigger] workers@.contains(id) <==> has_lookup(self@.table, id),
    {
        let keys = fx_worker_keys(&self.lookup);
        let mut ids: Vec<SortedId> = Vec::new();
        for i in 0..keys.len()
            invariant
                ids@.len() == i,
                forall|j: int| 0 <= j < i ==> (#[trigger] ids@[j]).0 == keys@[j].0,
        {
            ids.push(SortedId(keys[i].0));
        }
        let ghost unsorted = ids@;
        let ids = stable_sort(ids);
        let mut workers: Vec<u64> = Vec::new();
        for i in 0..ids.len()
            invariant
                is_stable_sort(unsorted, ids@),
                forall|p: int, q: int|
                    0 <= p < q < workers@.len() ==> #[trigger] workers@[p] < #[trigger] workers@[q],
                forall|id: u64| #[trigger]
                    workers@.contains(id) <==> exists|j: int|
                        0 <= j < i && (#[trigger] ids@[j]).0 == id,
                i == 0 <==> workers@.len() == 0,
                i > 0 ==> workers@.last() == ids@[i - 1].0,
        {
            let id = ids[i].0;
            let ghost earlier = workers@;
            if workers.len() == 0 || workers[workers.len() - 1] != id {
                proof {
                    if i > 0 {
                        reveal_with_fuel(lex_lt, 2);
                        assert(!lex_lt(ids@[i as int].rank(), ids@[i - 1].rank()));
                    }
                }
                workers.push(id);
                proof {
                    lemma_push_contains(earlier, id);
                }
            }
        }
        proof {
            assert forall|id: u64| #[trigger] workers@.contains(id) <==> has_lookup(
                self@.table,
                id,
            ) by {
                if workers@.contains(id) {
                    let j = choose|j: int| 0 <= j < ids@.len() && (#[trigger] ids@[j]).0 == id;
                    vstd::seq_lib::to_multiset_contains(ids@, ids@[j]);
                    vstd::seq_lib::to_multiset_contains(unsorted, ids@[j]);
                    let k = choose|k: int| 0 <= k < unsorted.len() && unsorted[k] == ids@[j];
                    assert(keys@.to_set().contains(keys@[k]));
                    assert(self@.table.dom().contains(keys@[k]));
                }
                if has_lookup(self@.table, id) {
                    let v = choose|v: (u64, u32)| #[trigger]
                        self@.table.dom().contains(v) && v.0 == id;
                    assert(keys@.to_set().contains(v));
                    let k = choose|k: int| 0 <= k < keys@.len() && keys@[k] == v;
                    assert(unsorted[k].0 == id);
                    vstd::seq_lib::to_multiset_contains(unsorted, unsorted[k]);
                    vstd::seq_lib::to_multiset_contains(ids@, unsorted[k]);
                    let j = choose|j: int| 0 <= j < ids@.len() && ids@[j] == unsorted[k];
                    assert(ids@[j].0 == id);
                }
            }
        }
        workers
    }

    /// The events that recreate the index.
    pub fn dump_events(&self) -> (events: Vec<RouterEvent>)
        requires
            self.wf(),
        ensures
            exists|order: Seq<(int, (u64, u32))>| #[trigger]
                dumped_in(self@.nodes, router_events_view(events@), order),
    {
        let events = self.tree.dump_tree_as_events();
        proof {
            let order = choose|order: Seq<(int, (u64, u32))>| #[trigger]
                dumped_in(self.tree@, router_events_view(events@), order);
            assert(dumped_in(self@.nodes, router_events_view(events@), order));
        }
        events
    }

    /// How many leading blocks of a sequence each worker holds, and the last of
    /// them.
    pub fn find_match_details(&self, sequence: &[LocalBlockHash]) -> (details: MatchDetails)
        requires
            self.wf(),
            sequence@.len() <= u32::MAX,
        ensures
            matches_query(self@.nodes, sequence@, details),
    {
        self.tree.find_match_details(sequence)
    }

    /// How many leading blocks of a sequence each worker holds.
    pub fn find_matches(&self, sequence: &[LocalBlockHash]) -> (scores: OverlapScores)
        requires
            self.wf(),
            sequence@.len() <= u32::MAX,
        ensures
            exists|details: MatchDetails| #[trigger]
                matches_query(self@.nodes, sequence@, details) && details.overlap_scores == scores,
    {
        let details = self.tree.find_match_details(sequence);
        let ghost all = details;
        assert(matches_query(self@.nodes, sequence@, all));
        details.overlap_scores
    }

    /// How many leading blocks of a token sequence each worker holds.
    pub fn find_matches_for_request(
        &self,
        tokens: &[u32],
        lora_name: Option<&str>,
        is_eagle: Option<bool>,
    ) -> (scores: OverlapScores)
        requires
            self.wf(),
            tokens@.len() <= u32::MAX,
        ensures
            exists|details: MatchDetails| #[trigger]
                matches_query(
                    self@.nodes,
                    block_hashes(
                        tokens@,
                        self.spec_block_size() as nat,
                        Seq::empty(),
                        opt_str_view(lora_name),
                        is_eagle,
                    ),
                    details,
                ) && details.overlap_scores == scores,
    {
        let sequence = compute_block_hash_for_seq(
            tokens,
            self.kv_block_size,
            BlockHashOptions { block_mm_infos: None, lora_name, is_eagle },
        );
        proof {
            lemma_block_count(tokens@.len(), self.kv_block_size as nat, is_eagle);
        }
        let scores = self.find_matches(sequence.as_slice());
        proof {
            let details = choose|details: MatchDetails| #[trigger]
                matches_query(self@.nodes, sequence@, details) && details.overlap_scores == scores;
            assert(matches_query(
                self@.nodes,
                block_hashes(
                    tokens@,
                    self.spec_block_size() as nat,
                    Seq::empty(),
                    opt_str_view(lora_name),
                    is_eagle,
                ),
                details,
            ));
        }
        scores
    }
}

/// A routing decision that was recorded is found: the worker that the request went to
/// scores all of its blocks.
pub proof fn recorded_decisions_are_found(
    before: IndexerState,
    after: IndexerState,
    worker: WorkerWithDpRank,
    local_hashes: Seq<LocalBlockHash>,
    sequence_hashes: Seq<u64>,
)
    requires
        before.pruning,
        local_hashes.len() == sequence_hashes.len(),
        step(before, Mutation::Routing(worker, local_hashes, sequence_hashes), after),
    ensures
        is_score(
            after.nodes,
            (worker.worker_id, worker.dp_rank),
            local_hashes,
            local_hashes.len() as int,
        ),
{
    let w = worker.spec_key();
    let (event, r) = choose|event: RouterEvent, r: Result<(), KvCacheEventError>|
        records(event, worker, local_hashes, sequence_hashes, after.event_id) && r is Ok
            && #[trigger] event_applied(
            before.nodes,
            before.table,
            after.nodes,
            after.table,
            &event,
            r,
        );
    let op = event.event.data->Stored_0;
    let prefix = choose|prefix: Seq<LocalBlockHash>|
        stored(
            before.nodes,
            after.nodes,
            w,
            entries_of(before.table, w),
            entries_of(after.table, w),
            op.parent_hash,
            op.blocks@,
            prefix,
        );
    let blocks = paired_blocks(local_hashes, sequence_hashes);
    assert(event@.data->blocks == stored_blocks_view(op.blocks@));
    assert(prefix + stored_locals(op.blocks@) =~= local_hashes) by {
        assert forall|i: int| 0 <= i < local_hashes.len() implies stored_locals(op.blocks@)[i]
            == local_hashes[i] by {
            assert(stored_blocks_view(op.blocks@)[i] == blocks[i]);
        }
        assert(stored_blocks_view(op.blocks@).len() == blocks.len());
    }
    stored_sequence_is_found(
        before.nodes,
        after.nodes,
        w,
        entries_of(before.table, w),
        entries_of(after.table, w),
        op.parent_hash,
        op.blocks@,
        prefix,
    );
}

/// Where no decisions are recorded, recording one changes nothing.
pub proof fn decisions_need_recording(
    before: IndexerState,
    after: IndexerState,
    worker: WorkerWithDpRank,
    local_hashes: Seq<LocalBlockHash>,
    sequence_hashes: Seq<u64>,
)
    requires
        !before.pruning,
        step(before, Mutation::Routing(worker, local_hashes, sequence_hashes), after),
    ensures
        after == before,
{
}

/// What expires is gone: the rank has no entry for any of the blocks, and no other rank
/// loses one.
pub proof fn expired_blocks_are_gone(
    before: IndexerState,
    after: IndexerState,
    remove: WorkerRemovesView,
    i: int,
    v: (u64, u32),
)
    requires
        step(before, Mutation::Expire(remove), after),
        0 <= i < remove.hashes.len(),
        v != (remove.worker.worker_id, remove.worker.dp_rank),
    ensures
        !entries_of(after.table, (remove.worker.worker_id, remove.worker.dp_rank)).dom().contains(
            remove.hashes[i].0,
        ),
        entries_of(after.table, v) == entries_of(before.table, v),
        after.event_id == before.event_id + 1,
{
}

/// Removing a worker leaves no lookup of any of its ranks and all others'; removing a rank
/// leaves all but its own.
pub proof fn removed_workers_have_no_lookup(
    before: IndexerState,
    after: IndexerState,
    worker_id: u64,
    dp_rank: u32,
    v: (u64, u32),
)
    ensures
        step(before, Mutation::RemoveWorker(worker_id), after) ==> (after.table.dom().contains(v)
            <==> before.table.dom().contains(v) && v.0 != worker_id),
        step(before, Mutation::RemoveRank(worker_id, dp_rank), after) ==> (
        after.table.dom().contains(v) <==> before.table.dom().contains(v) && v != (
            worker_id,
            dp_rank,
        )),
{
}

/// What waits is done in this order: the end of all, then what takes workers out, events,
/// and then what asks, records and prunes, and last the queries. No two tasks are equally
/// urgent.
pub proof fn changes_go_before_queries()
    ensures
        urgency(IndexerTask::Shutdown) < urgency(IndexerTask::RemoveWorker) < urgency(
            IndexerTask::RemoveWorkerDpRank,
        ) < urgency(IndexerTask::ApplyEvent) < urgency(IndexerTask::GetWorkers) < urgency(
            IndexerTask::Dump,
        ) < urgency(IndexerTask::Flush) < urgency(IndexerTask::RecordRouting) < urgency(
            IndexerTask::Prune,
        ) < urgency(IndexerTask::FindMatches) < urgency(IndexerTask::FindMatchDetails),
{
}

/// Changes that wait together are made one kind after the other, each kind in the order in
/// which they came: workers, ranks, events, routing decisions.
pub proof fn waiting_changes_are_made_in_order(pending: PendingMutations)
    ensures
        ({
            let w = pending.removed_workers@.len() as int;
            let r = pending.removed_ranks@.len() as int;
            let e = pending.events@.len() as int;
            let d = pending.routing@.len() as int;
            let order = pending.in_order();
            &&& order.len() == w + r + e + d
            &&& forall|i: int|
                0 <= i < w ==> #[trigger] order[i] == Mutation::RemoveWorker(
                    pending.removed_workers@[i],
                )
            &&& forall|i: int|
                w <= i < w + r ==> #[trigger] order[i] == Mutation::RemoveRank(
                    pending.removed_ranks@[i - w].0,
                    pending.removed_ranks@[i - w].1,
                )
            &&& forall|i: int|
                w + r <= i < w + r + e ==> #[trigger] order[i] == Mutation::Event(
                    pending.events@[i - w - r],
                )
            &&& forall|i: int|
                w + r + e <= i < w + r + e + d ==> #[trigger] order[i] == Mutation::Routing(
                    pending.routing@[i - w - r - e].worker,
                    pending.routing@[i - w - r - e].local_hashes@,
                    pending.routing@[i - w - r - e].sequence_hashes@,
                )
        }),
{
}

} // verus!
