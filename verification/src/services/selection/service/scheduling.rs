//! How requests go through the queue of a group to its workers.

use vstd::prelude::*;

use crate::collections::{fx_get, fx_insert, FxMap};
use crate::protocols::{opt_str_view, WorkerId};
use crate::scheduling::admission::{
    admit_one, admitted, book, booking_refused, loads_noted, Admission, SchedulingResponse,
    WorkerSelection, WorkerSelector,
};
use crate::scheduling::config::{F64Bits, RouterQueuePolicy};
use crate::scheduling::policy_config::{
    bucket_for, class_of, first_for, is_for, some_is_for, PolicyClassConfig,
};
use crate::scheduling::policy_queue::{
    answers, limit_of, reached_limit, round_robin, step_takes_one_entry, total_pending,
    unasked_classes_have_no_say, usage_of, with_request, ClassView, PolicyQueue, PolicyQueueEntry,
    QueueRejection, QueueSnapshot, QueueView,
};
use crate::scheduling::prefill_load::PrefillLoadEstimator;
use crate::scheduling::queue::{
    all_workers_prefill_busy, bound_request_waits_for_its_rank, may_go_to, must_wait,
    rank_with_room_ends_the_wait, requests_go_where_they_may, EnqueueOutcome, RefreshedOverlap,
};
use crate::scheduling::types::{
    listed_or_open, KvSchedulerError, SchedulableWorker, SchedulingRequest,
};
use crate::seqs::lemma_push_contains;
use crate::sequences::{
    active_prefill, capped, has_rank, has_request, made_active, SequenceRequest, SequencesView,
};
use crate::services::selection::catalog::serves;
use crate::services::selection::error::SelectionError;
use crate::services::selection::service::answers::counts_prefill;
use crate::services::selection::service::requests::{PreparedSelection, SelectionOperation};
use crate::services::selection::service::{
    entry_models, entry_with, lemma_entry_changed, EntryView, SelectionCore, SelectionEntry,
    WaitingSelection,
};
use crate::services::selection::types::{
    texts_view, SelectionKey, WorkerCatalogRecord, WorkerLifecycle,
};

verus! {

/// The limit of a worker where none is set: it is never too busy.
pub const NO_TOKEN_LIMIT: usize = usize::MAX;

/// Whether a worker is what the scheduler is told of a record.
pub open spec fn scheduled_as(
    record: WorkerCatalogRecord,
    token_limits: Map<u64, usize>,
    worker: SchedulableWorker,
) -> bool {
    &&& worker.worker_id == record.worker_id
    &&& worker.dp_start == record.spec_dp_start()
    &&& worker.dp_size == record.spec_dp_end() - record.spec_dp_start()
    &&& texts_view(worker.taints@) == texts_view(record.taints@)
    &&& worker.token_limit == if token_limits.dom().contains(record.worker_id) {
        token_limits[record.worker_id]
    } else {
        NO_TOKEN_LIMIT
    }
}

/// The places of the records of a group that take requests, in their order.
pub open spec fn serving_places(
    records: Seq<WorkerCatalogRecord>,
    key: (Seq<char>, Seq<char>),
) -> Seq<int>
    decreases records.len(),
{
    if records.len() == 0 {
        Seq::empty()
    } else {
        let before = serving_places(records.drop_last(), key);
        if serves(records.last(), key) {
            before.push(records.len() - 1)
        } else {
            before
        }
    }
}

/// Whether workers are what the scheduler is told of the records at these places.
pub open spec fn all_scheduled(
    records: Seq<WorkerCatalogRecord>,
    places: Seq<int>,
    token_limits: Map<u64, usize>,
    workers: Seq<SchedulableWorker>,
) -> bool {
    &&& workers.len() == places.len()
    &&& forall|i: int|
        0 <= i < workers.len() ==> scheduled_as(
            records[places[i]],
            token_limits,
            #[trigger] workers[i],
        ) && 0 <= places[i] < records.len()
}

proof fn lemma_all_scheduled_push(
    records: Seq<WorkerCatalogRecord>,
    places: Seq<int>,
    token_limits: Map<u64, usize>,
    workers: Seq<SchedulableWorker>,
    at: int,
    worker: SchedulableWorker,
)
    requires
        all_scheduled(records, places, token_limits, workers),
        0 <= at < records.len(),
        scheduled_as(records[at], token_limits, worker),
    ensures
        all_scheduled(records, places.push(at), token_limits, workers.push(worker)),
{
    let more = places.push(at);
    let all = workers.push(worker);
    assert forall|i: int| 0 <= i < all.len() implies scheduled_as(
        records[more[i]],
        token_limits,
        #[trigger] all[i],
    ) && 0 <= more[i] < records.len() by {
        if i < workers.len() {
            assert(all[i] == workers[i]);
            assert(more[i] == places[i]);
        }
    }
}

fn copy_texts(texts: &Vec<String>) -> (copy: Vec<String>)
    ensures
        texts_view(copy@) == texts_view(texts@),
{
    let mut copy: Vec<String> = Vec::new();
    for i in 0..texts.len()
        invariant
            copy@.len() == i,
            forall|j: int| 0 <= j < i ==> (#[trigger] copy@[j])@ == texts@[j]@,
    {
        copy.push(texts[i].as_str().to_owned());
    }
    assert(texts_view(copy@) =~= texts_view(texts@));
    copy
}

/// Whether tokens are those that the ranks of a group have to prefill.
pub open spec fn tokens_noted(sequences: SequencesView, tokens: Map<(u64, u32), usize>) -> bool {
    forall|w: (u64, u32)|
        (#[trigger] tokens.dom().contains(w) <==> has_rank(sequences.ranges, w)) && (
        tokens.dom().contains(w) ==> tokens[w] == capped(active_prefill(sequences.requests, w)))
}

/// The groups with other waiting requests in one of them.
pub open spec fn entry_waiting(
    entries: Seq<EntryView>,
    i: int,
    waiting: QueueView<WaitingSelection>,
) -> Seq<EntryView> {
    entries.update(i, EntryView { waiting, ..entries[i] })
}

/// The settings of a queue's classes.
pub open spec fn class_configs(queue: QueueView<WaitingSelection>) -> Seq<PolicyClassConfig> {
    queue.classes.map_values(|class: ClassView<WaitingSelection>| class.config)
}

/// Whether a snapshot is what a request brings to its queue: its tokens, and those of
/// them that the best worker it may go to has in its cache.
pub open spec fn brings(
    request: SchedulingRequest,
    workers: Seq<SchedulableWorker>,
    snapshot: QueueSnapshot,
) -> bool {
    &&& snapshot.raw_isl_tokens == request.isl_tokens
    &&& snapshot.uncached_tokens == request.spec_best_prefill(workers)
    &&& snapshot.cached_tokens == request.isl_tokens - snapshot.uncached_tokens
    &&& snapshot.scheduling_cost_tokens == if snapshot.uncached_tokens == 0 {
        1
    } else {
        snapshot.uncached_tokens
    }
}

/// Whether a request that waits does so in a class, with what it brings.
pub open spec fn waits_in(
    group: EntryView,
    request: SchedulingRequest,
    policy_class: Option<Seq<char>>,
    workers: Seq<SchedulableWorker>,
    class_index: int,
    snapshot: QueueSnapshot,
) -> bool {
    &&& 0 <= class_index < group.waiting.classes.len()
    &&& brings(request, workers, snapshot)
    &&& class_of(
        class_configs(group.waiting),
        group.rules,
        policy_class,
        snapshot.uncached_tokens,
        class_index,
    )
}

/// Whether a rejection is that of a class for a number of workers.
pub open spec fn rejected_by(
    class: ClassView<WaitingSelection>,
    worker_count: usize,
    rejection: QueueRejection,
) -> bool {
    &&& reached_limit(class, worker_count) == Some(rejection.limit_kind)
    &&& rejection.policy_class@ == class.config.name@
    &&& rejection.current == usage_of(class.stats, rejection.limit_kind)
    &&& limit_of(class.config, rejection.limit_kind, worker_count) == Some(rejection.limit)
}

/// What becomes of a request that comes to a group, and of those that wait there: it
/// is turned away if the worker that it must go to is not allowed, it goes on if it
/// need not wait, it is turned away if its class has reached a limit, and else it
/// waits in its class, with its priority and score.
pub open spec fn selection_taken_in(
    group: EntryView,
    request: SchedulingRequest,
    policy_class: Option<Seq<char>>,
    strict_priority: u32,
    policy_score: i64,
    workers: Seq<SchedulableWorker>,
    tokens: Map<(u64, u32), usize>,
    now_millis: u64,
    outcome: EnqueueOutcome,
    after: QueueView<WaitingSelection>,
) -> bool {
    let pinned = request.pinned_worker;
    if pinned is Some && !listed_or_open(request.allowed_worker_ids, pinned->0.worker_id) {
        &&& outcome == EnqueueOutcome::Rejected(
            request,
            KvSchedulerError::PinnedWorkerNotAllowed { worker_id: pinned->0.worker_id },
        )
        &&& after == group.waiting
    } else if !group.queueing || (request.allowed_worker_ids is Some && pinned is None)
        || !must_wait(request, workers, tokens) {
        outcome == EnqueueOutcome::Admit(request) && after == group.waiting
    } else {
        exists|class_index: usize, snapshot: QueueSnapshot| #[trigger]
            waits_in(group, request, policy_class, workers, class_index as int, snapshot)
                && if reached_limit(
                group.waiting.classes[class_index as int],
                workers.len() as usize,
            ) is Some {
                &&& after == group.waiting
                &&& outcome matches EnqueueOutcome::Rejected(back, error) && back == request && (
                error matches KvSchedulerError::QueueRejected(rejection) && rejected_by(
                    group.waiting.classes[class_index as int],
                    workers.len() as usize,
                    rejection,
                ))
            } else {
                &&& outcome == EnqueueOutcome::Queued
                &&& after == with_request(
                    group.waiting,
                    PolicyQueueEntry {
                        class_index,
                        strict_priority,
                        policy_score,
                        enqueue_seq: group.waiting.next_enqueue_seq,
                        snapshot,
                        payload: WaitingSelection { request, enqueue_at_millis: now_millis },
                    },
                )
            }
    }
}

/// Of which classes the next request can go to a worker.
pub open spec fn can_go(
    queue: QueueView<WaitingSelection>,
    workers: Seq<Vec<SchedulableWorker>>,
    tokens: Map<(u64, u32), usize>,
) -> Seq<bool> {
    Seq::new(
        queue.classes.len(),
        |c: int|
            queue.classes[c].pending.len() > 0 && !must_wait(
                queue.classes[c].pending[0].payload.request,
                workers[c]@,
                tokens,
            ),
    )
}

/// The class that a request is of, and what it brings to its queue.
pub struct ClassifiedSelection {
    pub class_index: usize,
    pub snapshot: QueueSnapshot,
    pub queue_policy: RouterQueuePolicy,
}

fn find_class(
    queue: &PolicyQueue<WaitingSelection>,
    family: &str,
    bucket: Option<&str>,
) -> (class_index: Option<usize>)
    ensures
        class_index is Some <==> some_is_for(class_configs(queue@), family@, opt_str_view(bucket)),
        class_index matches Some(c) ==> first_for(
            class_configs(queue@),
            family@,
            opt_str_view(bucket),
            c as int,
        ),
{
    let ghost configs = class_configs(queue@);
    let count = queue.class_count();
    for c in 0..count
        invariant
            count == queue@.classes.len(),
            configs == class_configs(queue@),
            forall|d: int|
                0 <= d < c ==> !is_for(#[trigger] configs[d], family@, opt_str_view(bucket)),
    {
        assert(configs[c as int] == queue@.classes[c as int].config);
        if queue.class_config(c).takes(family, bucket) {
            return Some(c);
        }
    }
    None
}

/// The entries that a change of the queue of one of them leaves are as they were.
proof fn lemma_queue_changed(before: Seq<SelectionEntry>, after: Seq<SelectionEntry>, place: int)
    requires
        0 <= place < before.len(),
        after.len() == before.len(),
        forall|i: int| 0 <= i < before.len() && i != place ==> after[i] == before[i],
        after[place].key == before[place].key,
        after[place].block_size == before[place].block_size,
        after[place].is_eagle == before[place].is_eagle,
        after[place].slots == before[place].slots,
        after[place].queueing == before[place].queueing,
        after[place].rules == before[place].rules,
        forall|i: int, j: int|
            0 <= i < j < before.len() ==> (#[trigger] entry_models(before)[i]).key != (
            #[trigger] entry_models(before)[j]).key,
    ensures
        entry_models(after) == entry_waiting(entry_models(before), place, after[place].queue@),
        forall|i: int, j: int|
            0 <= i < j < after.len() ==> (#[trigger] entry_models(after)[i]).key != (
            #[trigger] entry_models(after)[j]).key,
{
    assert(entry_models(after) =~= entry_waiting(
        entry_models(before),
        place,
        after[place].queue@,
    ));
    assert forall|i: int, j: int| 0 <= i < j < after.len() implies (
    #[trigger] entry_models(after)[i]).key != (#[trigger] entry_models(after)[j]).key by {
        assert(entry_models(before)[i].key != entry_models(before)[j].key);
    }
}

/// A selection with what the scheduler works on.
pub struct SelectionTask {
    /// The group's place.
    pub place: usize,
    pub block_size: u32,
    pub key: SelectionKey,
    pub selection_id: Option<String>,
    pub reservation_id: Option<String>,
    pub priority_jump: F64Bits,
    pub strict_priority: u32,
    pub policy_class: Option<String>,
    pub request: SchedulingRequest,
}

/// Whether a request for the scheduler is that of a selection, for the blocks that
/// the workers have of its prompt.
pub open spec fn asks_scheduler(
    operation: SelectionOperation,
    prepared: PreparedSelection,
    overlap: RefreshedOverlap,
    book: bool,
    track_prefill_tokens: bool,
    request: SchedulingRequest,
) -> bool {
    &&& request.maybe_request_id == prepared.scheduler_request_id
    &&& request.token_seq == Some(prepared.prompt.sequence_hashes)
    &&& request.isl_tokens == prepared.prompt.isl_tokens
    &&& request.lora_name == operation.prompt.lora_name
    &&& request.expected_output_tokens == operation.expected_output_tokens
    &&& request.pinned_worker == operation.pinned_worker
    &&& request.allowed_worker_ids == operation.allowed_worker_ids
    &&& request.routing_constraints == operation.routing_constraints
    &&& request.router_config_override == operation.router_config_override
    &&& request.priority_jump == operation.priority_jump
    &&& request.shared_cache_hits is None
    &&& request.track_prefill_tokens == counts_prefill(
        &operation.router_config_override,
        track_prefill_tokens,
    )
    &&& request.tier_overlap_blocks == overlap.tier_overlap_blocks
    &&& request.effective_overlap_blocks == overlap.effective_overlap_blocks
    &&& request.effective_cached_tokens == overlap.effective_cached_tokens
    &&& request.decode_blocks@ == Map::<(u64, u32), usize>::empty()
    &&& request.prefill_tokens@ == Map::<(u64, u32), usize>::empty()
    &&& request.update_states == book
}

impl SelectionCore {
    /// What the scheduler is asked for a selection.
    pub fn selection_task(
        &self,
        operation: SelectionOperation,
        prepared: PreparedSelection,
        overlap: RefreshedOverlap,
        book: bool,
    ) -> (task: SelectionTask)
        ensures
            task.place == prepared.place,
            task.block_size == prepared.block_size,
            task.key == operation.key,
            task.selection_id == operation.selection_id,
            task.reservation_id == operation.reservation_id,
            task.priority_jump == operation.priority_jump,
            task.strict_priority == operation.strict_priority,
            task.policy_class == operation.policy_class,
            asks_scheduler(operation, prepared, overlap, book, self.settings().2, task.request),
            task.request.maybe_request_id == prepared.scheduler_request_id,
            task.request.token_seq == Some(prepared.prompt.sequence_hashes),
            task.request.isl_tokens == prepared.prompt.isl_tokens,
            task.request.expected_output_tokens == operation.expected_output_tokens,
            task.request.pinned_worker == operation.pinned_worker,
            task.request.allowed_worker_ids == operation.allowed_worker_ids,
            task.request.routing_constraints == operation.routing_constraints,
            task.request.router_config_override == operation.router_config_override,
            task.request.effective_cached_tokens == overlap.effective_cached_tokens,
            task.request.update_states == book,
    {
        let track_prefill_tokens = match &operation.router_config_override {
            Some(config) => match config.track_prefill_tokens {
                Some(track) => track,
                None => self.track_prefill_tokens,
            },
            None => self.track_prefill_tokens,
        };
        SelectionTask {
            place: prepared.place,
            block_size: prepared.block_size,
            key: operation.key,
            selection_id: operation.selection_id,
            reservation_id: operation.reservation_id,
            priority_jump: operation.priority_jump,
            strict_priority: operation.strict_priority,
            policy_class: operation.policy_class,
            request: SchedulingRequest {
                maybe_request_id: prepared.scheduler_request_id,
                token_seq: Some(prepared.prompt.sequence_hashes),
                isl_tokens: prepared.prompt.isl_tokens,
                lora_name: operation.prompt.lora_name,
                expected_output_tokens: operation.expected_output_tokens,
                pinned_worker: operation.pinned_worker,
                allowed_worker_ids: operation.allowed_worker_ids,
                routing_constraints: operation.routing_constraints,
                router_config_override: operation.router_config_override,
                track_prefill_tokens,
                priority_jump: operation.priority_jump,
                tier_overlap_blocks: overlap.tier_overlap_blocks,
                effective_overlap_blocks: overlap.effective_overlap_blocks,
                effective_cached_tokens: overlap.effective_cached_tokens,
                shared_cache_hits: None,
                decode_blocks: FxMap::default(),
                prefill_tokens: FxMap::default(),
                update_states: book,
            },
        }
    }

    /// What the scheduler's answer comes to. Once the service shuts down, whoever
    /// waits for one is turned away.
    pub fn scheduled(&self, answer: Result<SchedulingResponse, KvSchedulerError>) -> (r: Result<
        SchedulingResponse,
        SelectionError,
    >)
        ensures
            r == if !self.is_running() {
                Err::<SchedulingResponse, SelectionError>(
                    SelectionError::Scheduler(KvSchedulerError::SubscriberShutdown),
                )
            } else {
                match answer {
                    Ok(response) => Ok(response),
                    Err(e) => Err(SelectionError::Scheduler(e)),
                }
            },
    {
        if !self.running {
            return Err(SelectionError::Scheduler(KvSchedulerError::SubscriberShutdown));
        }
        match answer {
            Ok(response) => Ok(response),
            Err(e) => Err(SelectionError::Scheduler(e)),
        }
    }

    /// The workers of a group that take requests, as the scheduler sees them. Up to
    /// how many tokens they are not too busy is told; one without a limit never is.
    pub fn schedulable_workers(&self, key: &SelectionKey, token_limits: &FxMap<u64, usize>) -> (workers:
        Vec<SchedulableWorker>)
        requires
            self.wf(),
        ensures
            all_scheduled(
                self.records(),
                serving_places(self.records(), key@),
                token_limits@,
                workers@,
            ),
    {
        let mut workers: Vec<SchedulableWorker> = Vec::new();
        let ghost records = self.records();
        let count = self.catalog.len();
        assert(records.take(0) =~= Seq::<WorkerCatalogRecord>::empty());
        for i in 0..count
            invariant
                records == self.catalog@,
                count == records.len(),
                all_scheduled(
                    records,
                    serving_places(records.take(i as int), key@),
                    token_limits@,
                    workers@,
                ),
        {
            let record = self.catalog.at(i);
            let ghost so_far = workers@;
            let ghost earlier = serving_places(records.take(i as int), key@);
            proof {
                let more = records.take(i + 1);
                assert(more.drop_last() =~= records.take(i as int));
                assert(more.last() == *record);
            }
            if self.catalog.serves_key(i, key) {
                let token_limit = match fx_get(token_limits, &record.worker_id) {
                    Some(limit) => *limit,
                    None => NO_TOKEN_LIMIT,
                };
                let worker = SchedulableWorker {
                    worker_id: record.worker_id,
                    dp_start: record.dp_start(),
                    dp_size: record.dp_end() - record.dp_start(),
                    taints: copy_texts(&record.taints),
                    token_limit,
                };
                assert(scheduled_as(records[i as int], token_limits@, worker));
                workers.push(worker);
                proof {
                    lemma_all_scheduled_push(records, earlier, token_limits@, so_far, i as int, worker);
                    assert(workers@ =~= so_far.push(worker));
                    assert(serving_places(records.take(i + 1), key@) == earlier.push(i as int));
                }
            } else {
                assert(serving_places(records.take(i + 1), key@) == earlier);
            }
        }
        assert(records.take(records.len() as int) =~= records);
        workers
    }

    /// How many tokens each rank of a group has to prefill.
    pub fn active_tokens(&self, place: usize) -> (tokens: FxMap<(u64, u32), usize>)
        requires
            self.wf(),
            place < self.groups().len(),
        ensures
            tokens_noted(self.groups()[place as int].sequences, tokens@),
    {
        let entry = &self.entries[place];
        assert(self.entries@[place as int].wf());
        assert(self.groups()[place as int] == entry.model());
        let nothing: FxMap<(u64, u32), usize> = FxMap::default();
        let none: Vec<u64> = Vec::new();
        let loads = self.rank_loads(place, none.as_slice(), 0, &nothing, false);
        let mut tokens: FxMap<(u64, u32), usize> = FxMap::default();
        let ghost s = entry.slots@;
        for i in 0..loads.len()
            invariant
                forall|j: int|
                    0 <= j < loads@.len() ==> has_rank(s.ranges, (#[trigger] loads@[j]).worker())
                        && loads@[j].potential_prefill_tokens == capped(
                        active_prefill(s.requests, loads@[j].worker()),
                    ),
                forall|w: (u64, u32)| #[trigger]
                    tokens@.dom().contains(w) ==> has_rank(s.ranges, w) && tokens@[w] == capped(
                        active_prefill(s.requests, w),
                    ),
                forall|j: int| 0 <= j < i ==> tokens@.dom().contains((#[trigger] loads@[j]).worker()),
        {
            let load = loads[i];
            fx_insert(&mut tokens, (load.worker_id, load.dp_rank), load.potential_prefill_tokens);
        }
        proof {
            assert forall|w: (u64, u32)|
                (#[trigger] tokens@.dom().contains(w) <==> has_rank(s.ranges, w)) && (
                tokens@.dom().contains(w) ==> tokens@[w] == capped(
                    active_prefill(s.requests, w),
                )) by {
                if has_rank(s.ranges, w) {
                    let j = choose|j: int|
                        0 <= j < loads@.len() && (#[trigger] loads@[j]).worker() == w;
                    assert(tokens@.dom().contains(loads@[j].worker()));
                }
            }
        }
        tokens
    }

    /// The class of a group that a request is of, what it brings to its queue, and in
    /// which order the class serves.
    pub fn classify_selection(
        &self,
        place: usize,
        request: &SchedulingRequest,
        policy_class: Option<&str>,
        workers: &Vec<SchedulableWorker>,
    ) -> (classified: ClassifiedSelection)
        requires
            self.wf(),
            place < self.groups().len(),
        ensures
            ({
                let group = self.groups()[place as int];
                &&& classified.class_index < group.waiting.classes.len()
                &&& brings(*request, workers@, classified.snapshot)
                &&& class_of(
                    class_configs(group.waiting),
                    group.rules,
                    opt_str_view(policy_class),
                    classified.snapshot.uncached_tokens,
                    classified.class_index as int,
                )
                &&& classified.queue_policy
                    == group.waiting.classes[classified.class_index as int].config.queue_policy
            }),
    {
        let entry = &self.entries[place];
        assert(self.entries@[place as int].wf());
        assert(self.groups()[place as int] == entry.model());
        let uncached = request.best_effective_prefill_tokens(workers);
        let snapshot = QueueSnapshot::new(request.isl_tokens, request.isl_tokens - uncached);
        let bucket = entry.rules.bucket(snapshot.uncached_tokens);
        let ghost configs = class_configs(entry.queue@);
        let ghost wanted = bucket_for(
            entry.rules.uncached_isl_buckets@,
            snapshot.uncached_tokens,
        );
        let named = match policy_class {
            Some(family) => find_class(&entry.queue, family, bucket),
            None => None,
        };
        let class_index = match named {
            Some(class_index) => class_index,
            None => match find_class(
                &entry.queue,
                entry.rules.default_policy_family.as_str(),
                bucket,
            ) {
                Some(class_index) => class_index,
                None => 0,
            },
        };
        ClassifiedSelection {
            class_index,
            snapshot,
            queue_policy: entry.queue.class_config(class_index).queue_policy,
        }
    }

    /// How many selections of a group wait.
    pub fn waiting_count(&self, place: usize) -> (count: usize)
        requires
            self.wf(),
            place < self.groups().len(),
        ensures
            count == total_pending(self.groups()[place as int].waiting.classes),
    {
        assert(self.entries@[place as int].wf());
        assert(self.groups()[place as int] == self.entries@[place as int].model());
        self.entries[place].queue.pending_count()
    }

    /// With which part of their batch of tokens active workers are busy to a class of a
    /// group.
    pub fn class_threshold(&self, place: usize, class_index: usize) -> (threshold: Option<F64Bits>)
        requires
            self.wf(),
            place < self.groups().len(),
            class_index < self.groups()[place as int].waiting.classes.len(),
        ensures
            threshold == self.groups()[place as int].waiting.classes[class_index as int].config.prefill_busy_threshold,
    {
        assert(self.groups()[place as int] == self.entries@[place as int].model());
        self.entries[place].queue.class_config(class_index).prefill_busy_threshold
    }

    /// How many classes the queue of a group has.
    pub fn class_count(&self, place: usize) -> (count: usize)
        requires
            self.wf(),
            place < self.groups().len(),
        ensures
            count == self.groups()[place as int].waiting.classes.len(),
    {
        assert(self.groups()[place as int] == self.entries@[place as int].model());
        self.entries[place].queue.class_count()
    }

    /// Takes a request into the queue of a group: it goes on where it need not wait, and
    /// waits in its class where the class has room.
    pub fn enqueue_selection(
        &mut self,
        place: usize,
        request: SchedulingRequest,
        policy_class: Option<&str>,
        strict_priority: u32,
        policy_score: i64,
        workers: &Vec<SchedulableWorker>,
        now_millis: u64,
    ) -> (outcome: EnqueueOutcome)
        requires
            old(self).wf(),
            place < old(self).groups().len(),
            total_pending(old(self).groups()[place as int].waiting.classes) < usize::MAX,
        ensures
            final(self).wf(),
            final(self).records() == old(self).records(),
            final(self).is_running() == old(self).is_running(),
            final(self).settings() == old(self).settings(),
            final(self).groups() == entry_waiting(
                old(self).groups(),
                place as int,
                final(self).groups()[place as int].waiting,
            ),
            exists|tokens: Map<(u64, u32), usize>| #[trigger]
                tokens_noted(old(self).groups()[place as int].sequences, tokens)
                    && selection_taken_in(
                    old(self).groups()[place as int],
                    request,
                    opt_str_view(policy_class),
                    strict_priority,
                    policy_score,
                    workers@,
                    tokens,
                    now_millis,
                    outcome,
                    final(self).groups()[place as int].waiting,
                ),
    {
        let tokens = self.active_tokens(place);
        let ghost before = self.entries@;
        let ghost group = self.groups()[place as int];
        assert(self.entries@[place as int].wf());
        assert(group == before[place as int].model());
        match request.validate_pinned_worker_allowed() {
            Ok(()) => {},
            Err(e) => {
                assert(self.groups() =~= entry_waiting(self.groups(), place as int, group.waiting));
                return EnqueueOutcome::Rejected(request, e);
            },
        }
        if !self.entries[place].queueing || request.bypasses_capacity_check()
            || !all_workers_prefill_busy(&request, workers, &tokens) {
            assert(self.groups() =~= entry_waiting(self.groups(), place as int, group.waiting));
            return EnqueueOutcome::Admit(request);
        }
        let classified = self.classify_selection(place, &request, policy_class, workers);
        let worker_count = workers.len();
        let waiting = WaitingSelection { request, enqueue_at_millis: now_millis };
        let r = self.entries[place].queue.enqueue(
            classified.class_index,
            worker_count,
            classified.snapshot,
            policy_score,
            strict_priority,
            waiting,
        );
        proof {
            lemma_queue_changed(before, self.entries@, place as int);
            assert forall|i: int| 0 <= i < self.entries@.len() implies (
            #[trigger] self.entries@[i]).wf() by {
                if i != place {
                    assert(before[i].wf());
                }
            }
            assert(waits_in(
                group,
                request,
                opt_str_view(policy_class),
                workers@,
                classified.class_index as int,
                classified.snapshot,
            ));
        }
        match r {
            Ok(()) => EnqueueOutcome::Queued,
            Err((rejection, waiting)) => EnqueueOutcome::Rejected(
                waiting.request,
                KvSchedulerError::QueueRejected(rejection),
            ),
        }
    }

    /// The next waiting request of a group that a worker can be selected for: the
    /// classes take turns. Whether workers are busy is told class by class.
    pub fn next_selection(&mut self, place: usize, workers: &Vec<Vec<SchedulableWorker>>) -> (next: Option<
        WaitingSelection,
    >)
        requires
            old(self).wf(),
            place < old(self).groups().len(),
            workers@.len() == old(self).groups()[place as int].waiting.classes.len(),
        ensures
            final(self).wf(),
            final(self).records() == old(self).records(),
            final(self).is_running() == old(self).is_running(),
            final(self).settings() == old(self).settings(),
            ({
                let group = old(self).groups()[place as int];
                exists|tokens: Map<(u64, u32), usize>| #[trigger]
                    tokens_noted(group.sequences, tokens) && if group.queueing {
                        let (after, entry) = round_robin(
                            group.waiting,
                            can_go(group.waiting, workers@, tokens),
                        );
                        &&& final(self).groups() == entry_waiting(
                            old(self).groups(),
                            place as int,
                            after,
                        )
                        &&& next is Some <==> entry is Some
                        &&& next matches Some(n) ==> n == entry->0.payload
                    } else {
                        next is None && final(self).groups() == old(self).groups()
                    }
            }),
    {
        let tokens = self.active_tokens(place);
        let ghost before = self.entries@;
        let ghost group = self.groups()[place as int];
        assert(self.entries@[place as int].wf());
        assert(group == before[place as int].model());
        if !self.entries[place].queueing {
            return None;
        }
        let has_room = |class_index: usize, config: &PolicyClassConfig, waiting: &WaitingSelection| -> (r: bool)
            requires
                class_index < workers@.len(),
            ensures
                r == !must_wait(waiting.request, workers@[class_index as int]@, tokens@),
            {
                !all_workers_prefill_busy(&waiting.request, &workers[class_index], &tokens)
            };
        let entry = self.entries[place].queue.pop_next(has_room);
        proof {
            let ready = choose|ready: Seq<bool>| #[trigger]
                answers(has_room, group.waiting, ready) && (
                    self.entries@[place as int].queue@,
                    entry,
                ) == round_robin(group.waiting, ready);
            let all = can_go(group.waiting, workers@, tokens@);
            before[place as int].queue.queues_are_in_order();
            unasked_classes_have_no_say(group.waiting, ready, all);
            step_takes_one_entry(group.waiting, ready);
            lemma_queue_changed(before, self.entries@, place as int);
            assert forall|i: int| 0 <= i < self.entries@.len() implies (
            #[trigger] self.entries@[i]).wf() by {
                if i != place {
                    assert(before[i].wf());
                }
            }
            assert(tokens_noted(group.sequences, tokens@));
        }
        match entry {
            Some(entry) => Some(entry.into_payload()),
            None => None,
        }
    }

    /// Finds a worker of a group for a request and decides what is done with it.
    pub fn admit_selection<S: WorkerSelector, E: PrefillLoadEstimator>(
        &self,
        place: usize,
        request: SchedulingRequest,
        workers: &Vec<SchedulableWorker>,
        selector: &S,
        overloaded_worker_ids: Option<&Vec<WorkerId>>,
        estimator: Option<&E>,
    ) -> (r: (SchedulingRequest, Admission))
        requires
            self.wf(),
            place < self.groups().len(),
        ensures
            exists|noted: SchedulingRequest, selection: Result<WorkerSelection, KvSchedulerError>|
                loads_noted(request, self.groups()[place as int].sequences, noted) && call_ensures(
                    S::select_worker,
                    (
                        selector,
                        workers,
                        &noted,
                        overloaded_worker_ids,
                        self.groups()[place as int].block_size,
                    ),
                    selection,
                ) && #[trigger] admitted(noted, selection, estimator, r.1, r.0),
    {
        assert(self.entries@[place as int].wf());
        assert(self.groups()[place as int] == self.entries@[place as int].model());
        let block_size = self.entries[place].block_size;
        admit_one(
            request,
            &self.entries[place].slots,
            workers,
            selector,
            overloaded_worker_ids,
            estimator,
            block_size,
        )
    }

    /// Books a request of a group at its worker, and tells whether it was booked:
    /// nothing is where nobody waits for the answer any more.
    pub fn book_selection(
        &mut self,
        place: usize,
        booking: SequenceRequest,
        response_is_closed: bool,
        now_millis: u64,
    ) -> (r: Result<bool, KvSchedulerError>)
        requires
            old(self).wf(),
            place < old(self).groups().len(),
        ensures
            final(self).wf(),
            final(self).records() == old(self).records(),
            final(self).is_running() == old(self).is_running(),
            final(self).settings() == old(self).settings(),
            ({
                let s = old(self).groups()[place as int].sequences;
                &&& r is Ok <==> response_is_closed || (has_rank(
                    s.ranges,
                    booking.worker.spec_key(),
                ) && !has_request(s.requests, booking.request_id@))
                &&& r matches Ok(booked) ==> booked == !response_is_closed
                &&& r matches Err(e) ==> booking_refused(s, booking, e)
                &&& if r == Ok::<bool, KvSchedulerError>(true) {
                    final(self).groups() == entry_with(
                        old(self).groups(),
                        place as int,
                        SequencesView {
                            ranges: s.ranges,
                            requests: s.requests.push(made_active(booking, now_millis)),
                        },
                    )
                } else {
                    final(self).groups() == old(self).groups()
                }
            }),
    {
        let ghost before = self.entries@;
        assert(self.entries@[place as int].wf());
        assert(self.groups()[place as int] == before[place as int].model());
        let r = book(&mut self.entries[place].slots, booking, response_is_closed, now_millis);
        proof {
            lemma_entry_changed(before, self.entries@, place as int);
            assert forall|i: int| 0 <= i < self.entries@.len() implies (
            #[trigger] self.entries@[i]).wf() by {
                if i != place {
                    assert(before[i].wf());
                }
            }
            if r != Ok::<bool, KvSchedulerError>(true) {
                assert(self.groups() =~= old(self).groups());
            }
        }
        r
    }
}

/// The records that take requests are all named, and each named record takes requests.
proof fn lemma_serving_places(records: Seq<WorkerCatalogRecord>, key: (Seq<char>, Seq<char>))
    ensures
        forall|i: int|
            0 <= i < records.len() && serves(#[trigger] records[i], key) ==> serving_places(
                records,
                key,
            ).contains(i),
        forall|p: int|
            0 <= p < serving_places(records, key).len() ==> 0 <= #[trigger] serving_places(
                records,
                key,
            )[p] < records.len() && serves(records[serving_places(records, key)[p]], key),
    decreases records.len(),
{
    if records.len() > 0 {
        let init = records.drop_last();
        let last = records.len() - 1;
        let before = serving_places(init, key);
        let places = serving_places(records, key);
        lemma_serving_places(init, key);
        lemma_push_contains(before, last);
        assert forall|i: int|
            0 <= i < records.len() && serves(#[trigger] records[i], key) implies places.contains(
            i,
        ) by {
            if i < last {
                assert(init[i] == records[i]);
                assert(before.contains(i));
            }
        }
        assert forall|p: int| 0 <= p < places.len() implies 0 <= #[trigger] places[p]
            < records.len() && serves(records[places[p]], key) by {
            if p < before.len() {
                assert(places[p] == before[p]);
                assert(init[before[p]] == records[before[p]]);
            }
        }
    }
}

/// The scheduler is told of every worker of a group that takes requests, with its ranks
/// and its limit; a worker without a limit is never too busy.
pub proof fn workers_that_take_requests_are_told(
    records: Seq<WorkerCatalogRecord>,
    key: (Seq<char>, Seq<char>),
    token_limits: Map<u64, usize>,
    workers: Seq<SchedulableWorker>,
    i: int,
) -> (w: int)
    requires
        all_scheduled(records, serving_places(records, key), token_limits, workers),
        0 <= i < records.len(),
        records[i].lifecycle == WorkerLifecycle::Schedulable,
        (records[i].model_name@, records[i].tenant_id@) == key,
    ensures
        0 <= w < workers.len(),
        workers[w].worker_id == records[i].worker_id,
        workers[w].dp_start == records[i].spec_dp_start(),
        records[i].spec_dp_start() + records[i].spec_dp_size() <= u32::MAX ==> workers[w].dp_size
            == records[i].spec_dp_size(),
        workers[w].taints@.map_values(|t: String| t@) == records[i].taints@.map_values(
            |t: String| t@,
        ),
        token_limits.dom().contains(records[i].worker_id) ==> workers[w].token_limit
            == token_limits[records[i].worker_id],
        !token_limits.dom().contains(records[i].worker_id) ==> workers[w].token_limit
            == usize::MAX,
{
    lemma_serving_places(records, key);
    let places = serving_places(records, key);
    assert(serves(records[i], key));
    assert(places.contains(i));
    let w = choose|w: int| 0 <= w < places.len() && places[w] == i;
    assert(scheduled_as(records[places[w]], token_limits, workers[w]));
    assert(workers[w].taints@.map_values(|t: String| t@) =~= texts_view(workers[w].taints@));
    assert(records[i].taints@.map_values(|t: String| t@) =~= texts_view(records[i].taints@));
    w
}

/// The scheduler is told of no worker but those of the group that take requests.
pub proof fn told_workers_take_requests(
    records: Seq<WorkerCatalogRecord>,
    key: (Seq<char>, Seq<char>),
    token_limits: Map<u64, usize>,
    workers: Seq<SchedulableWorker>,
    w: int,
) -> (i: int)
    requires
        all_scheduled(records, serving_places(records, key), token_limits, workers),
        0 <= w < workers.len(),
    ensures
        0 <= i < records.len(),
        records[i].worker_id == workers[w].worker_id,
        records[i].lifecycle == WorkerLifecycle::Schedulable,
        (records[i].model_name@, records[i].tenant_id@) == key,
{
    lemma_serving_places(records, key);
    let places = serving_places(records, key);
    assert(scheduled_as(records[places[w]], token_limits, workers[w]));
    places[w]
}

/// A selection that is bound to no rank does not wait where a rank that it may go to has
/// room: none of those that wait there changes place.
pub proof fn room_lets_selections_go(
    group: EntryView,
    request: SchedulingRequest,
    policy_class: Option<Seq<char>>,
    strict_priority: u32,
    policy_score: i64,
    workers: Seq<SchedulableWorker>,
    tokens: Map<(u64, u32), usize>,
    now_millis: u64,
    outcome: EnqueueOutcome,
    after: QueueView<WaitingSelection>,
    i: int,
    rank: u32,
)
    requires
        selection_taken_in(
            group,
            request,
            policy_class,
            strict_priority,
            policy_score,
            workers,
            tokens,
            now_millis,
            outcome,
            after,
        ),
        request.pinned_worker is None,
        0 <= i < workers.len(),
        workers[i].dp_start <= rank < workers[i].dp_start + workers[i].dp_size,
        request.allowed_worker_ids matches Some(ids) ==> ids@.contains(workers[i].worker_id),
        request.routing_constraints.required_taints@.len() == 0,
        tokens.dom().contains((workers[i].worker_id, rank)) ==> tokens[(workers[i].worker_id, rank)]
            <= workers[i].token_limit,
    ensures
        outcome == EnqueueOutcome::Admit(request),
        after == group.waiting,
{
    rank_with_room_ends_the_wait(request, workers, tokens, i, rank);
}

/// Where nobody has to wait, or a request that is bound to no rank names the workers that
/// it allows, it goes on at once; one that is bound to a worker that it does not allow is
/// turned away.
pub proof fn some_selections_never_wait(
    group: EntryView,
    request: SchedulingRequest,
    policy_class: Option<Seq<char>>,
    strict_priority: u32,
    policy_score: i64,
    workers: Seq<SchedulableWorker>,
    tokens: Map<(u64, u32), usize>,
    now_millis: u64,
    outcome: EnqueueOutcome,
    after: QueueView<WaitingSelection>,
)
    requires
        selection_taken_in(
            group,
            request,
            policy_class,
            strict_priority,
            policy_score,
            workers,
            tokens,
            now_millis,
            outcome,
            after,
        ),
    ensures
        request.pinned_worker is Some && request.allowed_worker_ids is Some
            && !request.allowed_worker_ids->0@.contains(request.pinned_worker->0.worker_id)
            ==> outcome == EnqueueOutcome::Rejected(
            request,
            KvSchedulerError::PinnedWorkerNotAllowed {
                worker_id: request.pinned_worker->0.worker_id,
            },
        ) && after == group.waiting,
        request.pinned_worker is None && request.allowed_worker_ids is Some ==> outcome
            == EnqueueOutcome::Admit(request) && after == group.waiting,
        request.pinned_worker is None && !group.queueing ==> outcome == EnqueueOutcome::Admit(
            request,
        ) && after == group.waiting,
{
}

/// What happens to those that wait in a group leaves the rest of the group and all other
/// groups as they were.
pub proof fn queues_do_not_touch_each_other(
    groups: Seq<EntryView>,
    i: int,
    waiting: QueueView<WaitingSelection>,
    j: int,
)
    requires
        0 <= i < groups.len(),
        0 <= j < groups.len(),
    ensures
        ({
            let after = entry_waiting(groups, i, waiting);
            &&& after.len() == groups.len()
            &&& i != j ==> after[j] == groups[j]
            &&& after[i].waiting == waiting
            &&& after[i].sequences == groups[i].sequences
            &&& after[i].key == groups[i].key
            &&& after[i].block_size == groups[i].block_size
            &&& after[i].is_eagle == groups[i].is_eagle
            &&& after[i].queueing == groups[i].queueing
            &&& after[i].rules == groups[i].rules
        }),
{
}

/// What a request brings to its queue adds up: its tokens are those that the best worker
/// has cached and those that it has not; even one that is cached whole has a cost.
pub proof fn queued_tokens_add_up(
    request: SchedulingRequest,
    workers: Seq<SchedulableWorker>,
    snapshot: QueueSnapshot,
)
    requires
        brings(request, workers, snapshot),
    ensures
        snapshot.raw_isl_tokens == request.isl_tokens,
        snapshot.cached_tokens + snapshot.uncached_tokens == request.isl_tokens,
        snapshot.scheduling_cost_tokens >= 1,
        snapshot.uncached_tokens >= 1 ==> snapshot.scheduling_cost_tokens
            == snapshot.uncached_tokens,
        snapshot.uncached_tokens == 0 ==> snapshot.scheduling_cost_tokens == 1,
{
}

/// A class's turn can come only while somebody waits in it, and its first selection can
/// go where a rank that it may go to has room.
pub proof fn classes_go_where_there_is_room(
    queue: QueueView<WaitingSelection>,
    workers: Seq<Vec<SchedulableWorker>>,
    tokens: Map<(u64, u32), usize>,
    c: int,
    i: int,
    rank: u32,
)
    requires
        0 <= c < queue.classes.len(),
    ensures
        queue.classes[c].pending.len() == 0 ==> !can_go(queue, workers, tokens)[c],
        ({
            let request = queue.classes[c].pending[0].payload.request;
            let worker = workers[c]@[i];
            queue.classes[c].pending.len() > 0 && request.pinned_worker is None
                && request.allowed_worker_ids is None
                && request.routing_constraints.required_taints@.len() == 0 && 0 <= i
                < workers[c]@.len() && worker.dp_start <= rank < worker.dp_start + worker.dp_size && (
            tokens.dom().contains((worker.worker_id, rank)) ==> tokens[(worker.worker_id, rank)]
                <= worker.token_limit) ==> can_go(queue, workers, tokens)[c]
        }),
{
    let request = queue.classes[c].pending[0].payload.request;
    let worker = workers[c]@[i];
    if queue.classes[c].pending.len() > 0 && request.pinned_worker is None
        && request.allowed_worker_ids is None && request.routing_constraints.required_taints@.len()
        == 0 && 0 <= i < workers[c]@.len() && worker.dp_start <= rank < worker.dp_start
        + worker.dp_size && (tokens.dom().contains((worker.worker_id, rank)) ==> tokens[(
        worker.worker_id,
        rank,
    )] <= worker.token_limit) {
        rank_with_room_ends_the_wait(request, workers[c]@, tokens, i, rank);
    }
}

/// A selection that is bound to a rank it may go to goes by that rank, also where it names
/// the workers that it allows: with room there it goes on, and over the limit it does not.
pub proof fn bound_selections_go_by_their_rank(
    group: EntryView,
    request: SchedulingRequest,
    policy_class: Option<Seq<char>>,
    strict_priority: u32,
    policy_score: i64,
    workers: Seq<SchedulableWorker>,
    tokens: Map<(u64, u32), usize>,
    now_millis: u64,
    outcome: EnqueueOutcome,
    after: QueueView<WaitingSelection>,
    i: int,
)
    requires
        selection_taken_in(
            group,
            request,
            policy_class,
            strict_priority,
            policy_score,
            workers,
            tokens,
            now_millis,
            outcome,
            after,
        ),
        group.queueing,
        request.pinned_worker is Some,
        0 <= i < workers.len(),
        workers[i].worker_id == (request.pinned_worker->0).worker_id,
        may_go_to(request, workers, i, (request.pinned_worker->0).dp_rank),
        forall|j: int|
            0 <= j < workers.len() && (#[trigger] workers[j]).worker_id == workers[i].worker_id
                ==> j == i,
    ensures
        ({
            let rank = ((request.pinned_worker->0).worker_id, (request.pinned_worker->0).dp_rank);
            outcome == EnqueueOutcome::Admit(request) <==> !(tokens.dom().contains(rank)
                && tokens[rank] > workers[i].token_limit)
        }),
        outcome is Admit ==> after == group.waiting,
{
    bound_request_waits_for_its_rank(request, workers, tokens, i);
    requests_go_where_they_may(request, workers, i, (request.pinned_worker->0).dp_rank);
}

} // verus!
