//! The queue in front of the workers: requests wait while every worker that they
//! may go to is busy with prefill.

use vstd::prelude::*;

use crate::collections::{fx_get, FxMap};
use crate::protocols::LocalBlockHash;
use crate::scheduling::config::{
    tier_cap, F64Bits, RouterQueueDepthByMissingIslTier, RouterQueueDepthTiers,
};
use crate::scheduling::types::{
    listed_or_open,
    find_worker, worker_at, KvSchedulerError, RouterBackpressureReason, SchedulableWorker,
    SchedulingRequest, TierOverlapBlocks,
};
use crate::sequences::capped;
use crate::sorting::{is_stable_sort, lex_lt, stable_sort, SortKey};

verus! {

/// What a worker takes in a batch where it does not say. So large that such a
/// worker never makes requests wait.
pub const DEFAULT_MAX_BATCHED_TOKENS: u64 = 10_000_000;

/// A waiting request. The one with the highest key goes first; among equals, the
/// one that was queued first.
pub struct QueueEntry {
    pub key: i64,
    pub request: SchedulingRequest,
    pub enqueue_at_millis: u64,
    /// The blocks of the request, kept to look them up again later.
    pub block_hashes: Option<Vec<LocalBlockHash>>,
}

/// In which order requests wait.
pub trait SchedulingPolicy {
    /// Whether keys change while requests wait.
    fn dynamic(&self) -> bool;

    /// The key of a request that begins to wait.
    fn enqueue_key(
        &self,
        arrival_millis: u64,
        request: &SchedulingRequest,
        workers: &Vec<SchedulableWorker>,
    ) -> i64;

    /// The key of a request that has waited.
    fn rekey(
        &self,
        now_millis: u64,
        key: i64,
        request: &SchedulingRequest,
        workers: &Vec<SchedulableWorker>,
    ) -> i64;
}

/// The active prefill tokens of a rank.
pub open spec fn tokens_of(active_tokens: Map<(u64, u32), usize>, worker: (u64, u32)) -> usize {
    if active_tokens.dom().contains(worker) {
        active_tokens[worker]
    } else {
        0
    }
}

/// Whether a rank has more active prefill tokens than it takes work with.
pub open spec fn rank_busy(
    active_tokens: Map<(u64, u32), usize>,
    worker: SchedulableWorker,
    rank: u32,
) -> bool {
    tokens_of(active_tokens, (worker.worker_id, rank)) > worker.token_limit
}

/// Whether a request may go to a rank of the worker at a place.
pub open spec fn may_go_to(
    request: SchedulingRequest,
    workers: Seq<SchedulableWorker>,
    i: int,
    rank: u32,
) -> bool {
    0 <= i < workers.len() && request.spec_allows(&workers[i]) && workers[i].spec_has_rank(rank)
}

/// Whether a request has to wait: the rank that it must go to is busy, or there
/// are ranks that it may go to and all of them are.
pub open spec fn must_wait(
    request: SchedulingRequest,
    workers: Seq<SchedulableWorker>,
    active_tokens: Map<(u64, u32), usize>,
) -> bool {
    match request.pinned_worker {
        Some(w) => exists|i: int| #[trigger]
            worker_at(workers, w.worker_id, i) && may_go_to(request, workers, i, w.dp_rank)
                && rank_busy(active_tokens, workers[i], w.dp_rank),
        None => {
            &&& exists|i: int, rank: u32| #[trigger] may_go_to(request, workers, i, rank)
            &&& forall|i: int, rank: u32| #[trigger]
                may_go_to(request, workers, i, rank) ==> rank_busy(active_tokens, workers[i], rank)
        },
    }
}

fn rank_is_busy(
    active_tokens: &FxMap<(u64, u32), usize>,
    worker: &SchedulableWorker,
    rank: u32,
) -> (busy: bool)
    ensures
        busy == rank_busy(active_tokens@, *worker, rank),
{
    let tokens = match fx_get(active_tokens, &(worker.worker_id, rank)) {
        Some(tokens) => *tokens,
        None => 0,
    };
    tokens > worker.token_limit
}

/// Whether all ranks of a worker are busy.
fn worker_is_busy(active_tokens: &FxMap<(u64, u32), usize>, worker: &SchedulableWorker) -> (busy:
    bool)
    ensures
        busy == forall|rank: u32| #[trigger]
            worker.spec_has_rank(rank) ==> rank_busy(active_tokens@, *worker, rank),
{
    let mut offset: u32 = 0;
    while offset < worker.dp_size && offset <= u32::MAX - worker.dp_start
        invariant
            offset <= worker.dp_size,
            forall|rank: u32|
                worker.dp_start <= rank < worker.dp_start + offset ==> #[trigger] rank_busy(
                    active_tokens@,
                    *worker,
                    rank,
                ),
        decreases worker.dp_size - offset,
    {
        let rank = worker.dp_start + offset;
        if !rank_is_busy(active_tokens, worker, rank) {
            assert(worker.spec_has_rank(rank));
            return false;
        }
        offset += 1;
    }
    true
}

/// Whether a request has to wait. One that may go to no rank does not: it is for
/// the selection of a worker to say that there is none.
pub fn all_workers_prefill_busy(
    request: &SchedulingRequest,
    workers: &Vec<SchedulableWorker>,
    active_tokens: &FxMap<(u64, u32), usize>,
) -> (busy: bool)
    ensures
        busy == must_wait(*request, workers@, active_tokens@),
        request.pinned_worker is None ==> forall|i: int, rank: u32|
            #![trigger may_go_to(*request, workers@, i, rank)]
            may_go_to(*request, workers@, i, rank) && tokens_of(
                active_tokens@,
                (workers@[i].worker_id, rank),
            ) <= workers@[i].token_limit ==> !busy,
{
    if let Some(worker) = request.pinned_worker {
        return match find_worker(workers, worker.worker_id) {
            Some(place) => {
                let config = &workers[place];
                proof {
                    assert(worker_at(workers@, worker.worker_id, place as int));
                    assert forall|i: int| #[trigger]
                        worker_at(workers@, worker.worker_id, i) implies i == place by {
                        if i < place {
                            assert(workers@[i].worker_id != worker.worker_id);
                        } else if i > place {
                            assert(workers@[place as int].worker_id != worker.worker_id);
                        }
                    }
                }
                request.allows_worker(config) && config.has_rank(worker.dp_rank) && rank_is_busy(
                    active_tokens,
                    config,
                    worker.dp_rank,
                )
            },
            None => {
                assert forall|i: int| !#[trigger] worker_at(workers@, worker.worker_id, i) by {}
                false
            },
        };
    }
    let mut checked_any = false;
    for i in 0..workers.len()
        invariant
            request.pinned_worker is None,
            checked_any <==> exists|k: int, rank: u32|
                k < i && #[trigger] may_go_to(*request, workers@, k, rank),
            forall|k: int, rank: u32|
                k < i && #[trigger] may_go_to(*request, workers@, k, rank) ==> rank_busy(
                    active_tokens@,
                    workers@[k],
                    rank,
                ),
    {
        let worker = &workers[i];
        let ghost before = checked_any;
        if request.allows_worker(worker) && worker.dp_size > 0 {
            assert(worker.spec_has_rank(worker.dp_start));
            assert(may_go_to(*request, workers@, i as int, worker.dp_start));
            checked_any = true;
            if !worker_is_busy(active_tokens, worker) {
                proof {
                    let rank = choose|rank: u32| #[trigger]
                        worker.spec_has_rank(rank) && !rank_busy(active_tokens@, *worker, rank);
                    assert(may_go_to(*request, workers@, i as int, rank));
                }
                return false;
            }
            assert forall|k: int, rank: u32|
                k < i + 1 && #[trigger] may_go_to(*request, workers@, k, rank) implies rank_busy(
                active_tokens@,
                workers@[k],
                rank,
            ) by {
                if k == i {
                    assert(worker.spec_has_rank(rank));
                }
            }
        } else {
            assert forall|rank: u32| !#[trigger] may_go_to(
                *request,
                workers@,
                i as int,
                rank,
            ) by {}
        }
    }
    checked_any
}

/// The tokens of the waiting requests.
pub open spec fn waiting_tokens(pending: Seq<QueueEntry>) -> nat
    decreases pending.len(),
{
    if pending.len() == 0 {
        0
    } else {
        waiting_tokens(pending.drop_last()) + pending.last().request.isl_tokens as nat
    }
}

/// Whether waiting requests stand in the order in which they go.
pub open spec fn in_order(pending: Seq<QueueEntry>) -> bool {
    forall|i: int, j: int|
        0 <= i < j < pending.len() ==> (#[trigger] pending[i]).key >= (#[trigger] pending[j]).key
}

/// Whether a place is that of one more request: behind those that go first.
pub open spec fn its_place(pending: Seq<QueueEntry>, entry: QueueEntry, at: int) -> bool {
    &&& 0 <= at <= pending.len()
    &&& forall|i: int| 0 <= i < at ==> (#[trigger] pending[i]).key >= entry.key
    &&& forall|i: int| at <= i < pending.len() ==> (#[trigger] pending[i]).key < entry.key
}

/// Whether a request was queued.
pub open spec fn was_queued(
    before: Seq<QueueEntry>,
    after: Seq<QueueEntry>,
    entry: QueueEntry,
) -> bool {
    exists|at: int| #[trigger] its_place(before, entry, at) && after == before.insert(at, entry)
}

/// What a cache lookup for a waiting request gave.
pub struct RefreshedOverlap {
    pub tier_overlap_blocks: TierOverlapBlocks,
    pub effective_overlap_blocks: FxMap<(u64, u32), F64Bits>,
    pub effective_cached_tokens: FxMap<(u64, u32), usize>,
}

/// A request with a newer cache lookup, where there is one.
pub open spec fn refreshed_request(
    request: SchedulingRequest,
    refreshed: Option<RefreshedOverlap>,
) -> SchedulingRequest {
    match refreshed {
        None => request,
        Some(overlap) => SchedulingRequest {
            tier_overlap_blocks: overlap.tier_overlap_blocks,
            effective_overlap_blocks: overlap.effective_overlap_blocks,
            effective_cached_tokens: overlap.effective_cached_tokens,
            ..request
        },
    }
}

/// What becomes of a request that comes in.
pub enum EnqueueOutcome {
    /// A worker is to be selected for it now.
    Admit(SchedulingRequest),
    Queued,
    /// It is answered with an error.
    Rejected(SchedulingRequest, KvSchedulerError),
}

/// What the workers are and do when the queue is asked.
pub struct WorkerSnapshot {
    pub workers: Vec<SchedulableWorker>,
    pub active_tokens: FxMap<(u64, u32), usize>,
}

/// The waiting requests.
pub struct SchedulerQueue {
    /// In the order in which they go.
    pending: Vec<QueueEntry>,
    /// Whether requests wait at all.
    queueing: bool,
    queue_depth_tiers: RouterQueueDepthTiers,
    supports_overlap_refresh: bool,
}

impl View for SchedulerQueue {
    type V = Seq<QueueEntry>;

    closed spec fn view(&self) -> Seq<QueueEntry> {
        self.pending@
    }
}

/// What becomes of a request that comes in, and of the queue: it is admitted unless it
/// has to wait, and turned away where what waits already reaches its cap.
pub open spec fn taken_in<P: SchedulingPolicy>(
    queueing: bool,
    tiers: Seq<RouterQueueDepthByMissingIslTier>,
    before: Seq<QueueEntry>,
    request: SchedulingRequest,
    block_hashes: Option<Vec<LocalBlockHash>>,
    snapshot: &WorkerSnapshot,
    policy: &P,
    now_millis: u64,
    outcome: EnqueueOutcome,
    after: Seq<QueueEntry>,
) -> bool {
    let waits = queueing && !(request.allowed_worker_ids is Some
        && request.pinned_worker is None) && must_wait(
        request,
        snapshot.workers@,
        snapshot.active_tokens@,
    );
    let queued_tokens = capped(waiting_tokens(before));
    let cap = tier_cap(
        tiers,
        request.spec_best_prefill(snapshot.workers@),
        snapshot.workers@.len() as usize,
    );
    if !waits {
        outcome == EnqueueOutcome::Admit(request) && after == before
    } else if cap is Some && queued_tokens >= cap->0 {
        &&& outcome == EnqueueOutcome::Rejected(
            request,
            KvSchedulerError::Backpressure {
                reason: RouterBackpressureReason::MaxQueuedIslTokensExceeded,
                queued_isl_tokens: queued_tokens,
                max_queued_isl_tokens: cap,
            },
        )
        &&& after == before
    } else {
        &&& outcome == EnqueueOutcome::Queued
        &&& exists|key: i64|
            call_ensures(
                P::enqueue_key,
                (policy, now_millis, &request, &snapshot.workers),
                key,
            ) && #[trigger] was_queued(
                before,
                after,
                (QueueEntry {
                    key,
                    request,
                    enqueue_at_millis: now_millis,
                    block_hashes,
                }),
            )
    }
}

impl SchedulerQueue {
    /// The invariant.
    pub closed spec fn wf(&self) -> bool {
        in_order(self.pending@)
    }

    /// The requests that wait are always in the order in which they are served.
    pub proof fn waiting_is_in_order(&self)
        requires
            self.wf(),
        ensures
            in_order(self@),
    {
    }

    /// Whether requests wait at all.
    pub closed spec fn is_queueing(&self) -> bool {
        self.queueing
    }

    /// The tiers that cap the queue.
    pub closed spec fn tiers(&self) -> RouterQueueDepthTiers {
        self.queue_depth_tiers
    }

    /// Whether cache lookups are made anew for requests that wait.
    pub closed spec fn refreshes(&self) -> bool {
        self.supports_overlap_refresh
    }

    /// Whether only the waiting requests may differ.
    pub open spec fn same_settings(&self, other: &Self) -> bool {
        &&& self.is_queueing() == other.is_queueing()
        &&& self.tiers() == other.tiers()
        &&& self.refreshes() == other.refreshes()
    }

    /// A queue in which nothing waits.
    pub fn new_with_overlap_refresh(
        queueing: bool,
        queue_depth_tiers: RouterQueueDepthTiers,
        supports_overlap_refresh: bool,
    ) -> (queue: Self)
        ensures
            queue.wf(),
            queue@ == Seq::<QueueEntry>::empty(),
            queue.is_queueing() == queueing,
            queue.tiers() == queue_depth_tiers,
            queue.refreshes() == supports_overlap_refresh,
    {
        SchedulerQueue {
            pending: Vec::new(),
            queueing,
            queue_depth_tiers,
            supports_overlap_refresh,
        }
    }

    /// A queue in which nothing waits, and without new cache lookups.
    pub fn new(queueing: bool, queue_depth_tiers: RouterQueueDepthTiers) -> (queue: Self)
        ensures
            queue.wf(),
            queue@ == Seq::<QueueEntry>::empty(),
            queue.is_queueing() == queueing,
            queue.tiers() == queue_depth_tiers,
            !queue.refreshes(),
    {
        SchedulerQueue::new_with_overlap_refresh(queueing, queue_depth_tiers, false)
    }

    /// Number of waiting requests.
    pub fn pending_count(&self) -> (count: usize)
        ensures
            count == self@.len(),
    {
        self.pending.len()
    }

    /// Tokens of the waiting requests.
    pub fn pending_isl_tokens(&self) -> (tokens: usize)
        ensures
            tokens == capped(waiting_tokens(self@)),
    {
        let mut sum: usize = 0;
        for i in 0..self.pending.len()
            invariant
                sum == capped(waiting_tokens(self.pending@.take(i as int))),
        {
            assert(self.pending@.take(i + 1).drop_last() =~= self.pending@.take(i as int));
            sum = sum.saturating_add(self.pending[i].request.isl_tokens);
        }
        assert(self.pending@.take(self.pending@.len() as int) =~= self.pending@);
        sum
    }

    pub fn supports_overlap_refresh(&self) -> (r: bool)
        ensures
            r == self.refreshes(),
    {
        self.supports_overlap_refresh
    }

    /// The blocks to keep with a request: none where lookups are not made anew, or
    /// where there are none.
    pub fn prepare_block_hashes_for_refresh(&self, block_hashes: Option<Vec<LocalBlockHash>>) -> (kept:
        Option<Vec<LocalBlockHash>>)
        ensures
            kept == if self.refreshes() && block_hashes is Some && block_hashes->0@.len() > 0 {
                block_hashes
            } else {
                None::<Vec<LocalBlockHash>>
            },
    {
        if !self.supports_overlap_refresh {
            return None;
        }
        match block_hashes {
            Some(hashes) => if hashes.len() == 0 {
                None
            } else {
                Some(hashes)
            },
            None => None,
        }
    }

    /// The cap that the queue has for a request: it counts all workers, those that
    /// the request may not go to among them, as the queue is drained by all.
    pub fn tier_cap_for_request(
        &self,
        request: &SchedulingRequest,
        workers: &Vec<SchedulableWorker>,
    ) -> (cap: Option<usize>)
        ensures
            cap == tier_cap(
                self.tiers()@,
                request.spec_best_prefill(workers@),
                workers@.len() as usize,
            ),
    {
        let cache_miss_tokens = request.best_effective_prefill_tokens(workers);
        self.queue_depth_tiers.cap_for(cache_miss_tokens, workers.len())
    }

    fn push(&mut self, entry: QueueEntry)
        requires
            old(self).wf(),
        ensures
            final(self).wf(),
            final(self).same_settings(old(self)),
            was_queued(old(self)@, final(self)@, entry),
    {
        let ghost before = self.pending@;
        let mut at: usize = 0;
        while at < self.pending.len() && self.pending[at].key >= entry.key
            invariant
                at <= self.pending@.len(),
                forall|i: int| 0 <= i < at ==> (#[trigger] self.pending@[i]).key >= entry.key,
            decreases self.pending@.len() - at,
        {
            at += 1;
        }
        proof {
            assert forall|i: int| at <= i < before.len() implies (#[trigger] before[i]).key
                < entry.key by {
                if i > at {
                    assert(before[at as int].key >= before[i].key);
                }
            }
            assert(its_place(before, entry, at as int));
            let after = before.insert(at as int, entry);
            assert forall|i: int, j: int| 0 <= i < j < after.len() implies (#[trigger] after[i]).key
                >= (#[trigger] after[j]).key by {
                if j < at {
                    assert(before[i].key >= before[j].key);
                } else if j > at {
                    assert(after[j] == before[j - 1]);
                    if i < at {
                        assert(before[i].key >= before[j - 1].key);
                    } else if i > at {
                        assert(after[i] == before[i - 1]);
                        assert(before[i - 1].key >= before[j - 1].key);
                    }
                }
            }
        }
        self.pending.insert(at, entry);
        assert(self@ == before.insert(at as int, entry));
    }

    /// Takes a request in: it is admitted unless it has to wait, and turned away
    /// where what waits already reaches its cap.
    pub fn handle_enqueue<P: SchedulingPolicy>(
        &mut self,
        request: SchedulingRequest,
        block_hashes: Option<Vec<LocalBlockHash>>,
        snapshot: &WorkerSnapshot,
        policy: &P,
        now_millis: u64,
    ) -> (outcome: EnqueueOutcome)
        requires
            old(self).wf(),
        ensures
            final(self).wf(),
            final(self).same_settings(old(self)),
            taken_in(
                old(self).is_queueing(),
                old(self).tiers()@,
                old(self)@,
                request,
                block_hashes,
                snapshot,
                policy,
                now_millis,
                outcome,
                final(self)@,
            ),
    {
        if !self.queueing || request.bypasses_capacity_check() {
            return EnqueueOutcome::Admit(request);
        }
        if !all_workers_prefill_busy(&request, &snapshot.workers, &snapshot.active_tokens) {
            return EnqueueOutcome::Admit(request);
        }
        if !self.queue_depth_tiers.is_unbounded() {
            let queued_isl_tokens = self.pending_isl_tokens();
            if let Some(max_isl_tokens) = self.tier_cap_for_request(&request, &snapshot.workers) {
                if queued_isl_tokens >= max_isl_tokens {
                    return EnqueueOutcome::Rejected(
                        request,
                        KvSchedulerError::Backpressure {
                            reason: RouterBackpressureReason::MaxQueuedIslTokensExceeded,
                            queued_isl_tokens,
                            max_queued_isl_tokens: Some(max_isl_tokens),
                        },
                    );
                }
            }
        }
        let key = policy.enqueue_key(now_millis, &request, &snapshot.workers);
        self.push(QueueEntry { key, request, enqueue_at_millis: now_millis, block_hashes });
        EnqueueOutcome::Queued
    }

    /// Takes a request in, with the blocks by which its cache lookup can be made anew.
    /// One that must go to a worker that it may not go to is turned away.
    pub fn enqueue_with_block_hashes<P: SchedulingPolicy>(
        &mut self,
        request: SchedulingRequest,
        block_hashes: Option<Vec<LocalBlockHash>>,
        snapshot: &WorkerSnapshot,
        policy: &P,
        now_millis: u64,
    ) -> (outcome: EnqueueOutcome)
        requires
            old(self).wf(),
        ensures
            final(self).wf(),
            final(self).same_settings(old(self)),
            ({
                let kept = if old(self).refreshes() && block_hashes is Some
                    && block_hashes->0@.len() > 0 {
                    block_hashes
                } else {
                    None
                };
                let pinned = request.pinned_worker;
                if pinned is Some && !listed_or_open(
                    request.allowed_worker_ids,
                    pinned->0.worker_id,
                ) {
                    outcome == EnqueueOutcome::Rejected(
                        request,
                        KvSchedulerError::PinnedWorkerNotAllowed { worker_id: pinned->0.worker_id },
                    ) && final(self)@ == old(self)@
                } else {
                    taken_in(
                        old(self).is_queueing(),
                        old(self).tiers()@,
                        old(self)@,
                        request,
                        kept,
                        snapshot,
                        policy,
                        now_millis,
                        outcome,
                        final(self)@,
                    )
                }
            }),
    {
        match request.validate_pinned_worker_allowed() {
            Ok(()) => {},
            Err(e) => {
                return EnqueueOutcome::Rejected(request, e);
            },
        }
        let kept = self.prepare_block_hashes_for_refresh(block_hashes);
        self.handle_enqueue(request, kept, snapshot, policy, now_millis)
    }

    /// Takes a request in whose cache lookup is not made anew.
    pub fn enqueue<P: SchedulingPolicy>(
        &mut self,
        request: SchedulingRequest,
        snapshot: &WorkerSnapshot,
        policy: &P,
        now_millis: u64,
    ) -> (outcome: EnqueueOutcome)
        requires
            old(self).wf(),
        ensures
            final(self).wf(),
            final(self).same_settings(old(self)),
            ({
                let pinned = request.pinned_worker;
                if pinned is Some && !listed_or_open(
                    request.allowed_worker_ids,
                    pinned->0.worker_id,
                ) {
                    outcome == EnqueueOutcome::Rejected(
                        request,
                        KvSchedulerError::PinnedWorkerNotAllowed { worker_id: pinned->0.worker_id },
                    ) && final(self)@ == old(self)@
                } else {
                    taken_in(
                        old(self).is_queueing(),
                        old(self).tiers()@,
                        old(self)@,
                        request,
                        None,
                        snapshot,
                        policy,
                        now_millis,
                        outcome,
                        final(self)@,
                    )
                }
            }),
    {
        self.enqueue_with_block_hashes(request, None, snapshot, policy, now_millis)
    }

    /// The next request to admit: the one in front, unless it has to wait. Those
    /// behind it wait with it.
    pub fn next_ready(&mut self, snapshot: &WorkerSnapshot) -> (entry: Option<QueueEntry>)
        requires
            old(self).wf(),
        ensures
            final(self).wf(),
            final(self).same_settings(old(self)),
            entry is Some <==> old(self).is_queueing() && old(self)@.len() > 0 && !must_wait(
                old(self)@[0].request,
                snapshot.workers@,
                snapshot.active_tokens@,
            ),
            entry matches Some(e) ==> e == old(self)@[0] && final(self)@ == old(self)@.remove(0),
            entry is None ==> final(self)@ == old(self)@,
    {
        if !self.queueing || self.pending.len() == 0 {
            return None;
        }
        if all_workers_prefill_busy(
            &self.pending[0].request,
            &snapshot.workers,
            &snapshot.active_tokens,
        ) {
            return None;
        }
        let ghost before = self.pending@;
        let entry = self.pending.remove(0);
        proof {
            assert forall|i: int, j: int| 0 <= i < j < self.pending@.len() implies (
            #[trigger] self.pending@[i]).key >= (#[trigger] self.pending@[j]).key by {
                assert(before[i + 1].key >= before[j + 1].key);
            }
        }
        Some(entry)
    }

    /// Goes on with a request that was next, after a new cache lookup: it is
    /// admitted, or queued again where it has to wait by now.
    pub fn resume(
        &mut self,
        entry: QueueEntry,
        refreshed: Option<RefreshedOverlap>,
        snapshot: &WorkerSnapshot,
    ) -> (request: Option<SchedulingRequest>)
        requires
            old(self).wf(),
        ensures
            final(self).wf(),
            final(self).same_settings(old(self)),
            request is None <==> must_wait(
                refreshed_request(entry.request, refreshed),
                snapshot.workers@,
                snapshot.active_tokens@,
            ),
            request matches Some(r) ==> r == refreshed_request(entry.request, refreshed),
            request is Some ==> final(self)@ == old(self)@,
            request is None ==> was_queued(
                old(self)@,
                final(self)@,
                (QueueEntry { request: refreshed_request(entry.request, refreshed), ..entry }),
            ),
    {
        let ghost whole = entry;
        let QueueEntry { key, mut request, enqueue_at_millis, block_hashes } = entry;
        if let Some(overlap) = refreshed {
            request.tier_overlap_blocks = overlap.tier_overlap_blocks;
            request.effective_overlap_blocks = overlap.effective_overlap_blocks;
            request.effective_cached_tokens = overlap.effective_cached_tokens;
        }
        assert(request == refreshed_request(whole.request, refreshed));
        if all_workers_prefill_busy(&request, &snapshot.workers, &snapshot.active_tokens) {
            self.push(QueueEntry { key, request, enqueue_at_millis, block_hashes });
            return None;
        }
        Some(request)
    }

    /// Empties the queue. What waited is answered that there is nobody left to
    /// serve it.
    pub fn shut_down(&mut self) -> (waiting: Vec<QueueEntry>)
        ensures
            final(self).wf(),
            final(self).same_settings(old(self)),
            waiting@ == old(self)@,
            final(self)@ == Seq::<QueueEntry>::empty(),
    {
        let mut waiting: Vec<QueueEntry> = Vec::new();
        std::mem::swap(&mut waiting, &mut self.pending);
        waiting
    }
}

impl SortKey for QueueEntry {
    open spec fn rank(&self) -> Seq<int> {
        seq![-(self.key as int)]
    }

    fn is_before(&self, other: &Self) -> (r: bool) {
        proof {
            reveal_with_fuel(lex_lt, 2);
        }
        self.key > other.key
    }
}

/// Whether entries are others with the keys that a policy gives them.
pub open spec fn rekeyed<P: SchedulingPolicy>(
    policy: &P,
    workers: &Vec<SchedulableWorker>,
    now_millis: u64,
    before: Seq<QueueEntry>,
    after: Seq<QueueEntry>,
) -> bool {
    &&& after.len() == before.len()
    &&& forall|i: int|
        0 <= i < after.len() ==> has_new_key(
            policy,
            workers,
            now_millis,
            before[i],
            #[trigger] after[i],
        )
}

/// Whether an entry is another with the key that a policy gives it.
pub open spec fn has_new_key<P: SchedulingPolicy>(
    policy: &P,
    workers: &Vec<SchedulableWorker>,
    now_millis: u64,
    before: QueueEntry,
    after: QueueEntry,
) -> bool {
    &&& after == (QueueEntry { key: after.key, ..before })
    &&& call_ensures(
        P::rekey,
        (policy, now_millis, before.key, &before.request, workers),
        after.key,
    )
}

impl SchedulerQueue {
    /// Gives the waiting requests new keys, where the policy changes them, and puts
    /// them in the order of those.
    pub fn rekey<P: SchedulingPolicy>(
        &mut self,
        policy: &P,
        workers: &Vec<SchedulableWorker>,
        now_millis: u64,
    )
        requires
            old(self).wf(),
        ensures
            final(self).wf(),
            final(self).same_settings(old(self)),
            exists|dynamic: bool| #[trigger]
                call_ensures(P::dynamic, (policy,), dynamic) && if !dynamic {
                    final(self)@ == old(self)@
                } else {
                    exists|items: Seq<QueueEntry>| #[trigger]
                        rekeyed(policy, workers, now_millis, old(self)@, items) && is_stable_sort(
                            items,
                            final(self)@,
                        )
                },
    {
        let dynamic = policy.dynamic();
        assert(call_ensures(P::dynamic, (policy,), dynamic));
        if !dynamic {
            return ;
        }
        let ghost before = self.pending@;
        let mut rest: Vec<QueueEntry> = Vec::new();
        std::mem::swap(&mut rest, &mut self.pending);
        let mut items: Vec<QueueEntry> = Vec::new();
        while rest.len() > 0
            invariant
                items@.len() + rest@.len() == before.len(),
                rest@ == before.skip(items@.len() as int),
                self.same_settings(old(self)),
                forall|i: int|
                    0 <= i < items@.len() ==> has_new_key(
                        policy,
                        workers,
                        now_millis,
                        before[i],
                        #[trigger] items@[i],
                    ),
            decreases rest@.len(),
        {
            let ghost done = items@.len() as int;
            let mut entry = rest.remove(0);
            assert(entry == before[done]);
            entry.key = policy.rekey(now_millis, entry.key, &entry.request, workers);
            items.push(entry);
            assert(rest@ =~= before.skip(done + 1));
        }
        let ghost all = items@;
        self.pending = stable_sort(items);
        proof {
            assert(rekeyed(policy, workers, now_millis, before, all));
            assert forall|i: int, j: int| 0 <= i < j < self.pending@.len() implies (
            #[trigger] self.pending@[i]).key >= (#[trigger] self.pending@[j]).key by {
                reveal_with_fuel(lex_lt, 2);
                assert(!lex_lt(self.pending@[j].rank(), self.pending@[i].rank()));
            }
            assert(call_ensures(P::dynamic, (policy,), true));
            assert(rekeyed(policy, workers, now_millis, old(self)@, all));
            assert(is_stable_sort(all, self@));
        }
    }
}

/// The tokens of requests in two rows.
proof fn lemma_waiting_tokens_add(a: Seq<QueueEntry>, b: Seq<QueueEntry>)
    ensures
        waiting_tokens(a + b) == waiting_tokens(a) + waiting_tokens(b),
    decreases b.len(),
{
    if b.len() == 0 {
        assert(a + b =~= a);
    } else {
        lemma_waiting_tokens_add(a, b.drop_last());
        assert((a + b).drop_last() =~= a + b.drop_last());
        assert((a + b).last() == b.last());
    }
}

/// With a request that is queued, one more request and its tokens wait.
pub proof fn queueing_adds_to_what_waits(
    before: Seq<QueueEntry>,
    after: Seq<QueueEntry>,
    entry: QueueEntry,
)
    requires
        was_queued(before, after, entry),
    ensures
        after.len() == before.len() + 1,
        waiting_tokens(after) == waiting_tokens(before) + entry.request.isl_tokens as nat,
{
    let at = choose|at: int| #[trigger]
        its_place(before, entry, at) && after == before.insert(at, entry);
    let low = before.take(at);
    let high = before.skip(at);
    let one = seq![entry];
    assert(before =~= low + high);
    assert(after =~= low + one + high);
    lemma_waiting_tokens_add(low, high);
    lemma_waiting_tokens_add(low, one);
    lemma_waiting_tokens_add(low + one, high);
    assert(one.drop_last() =~= Seq::<QueueEntry>::empty());
    assert(waiting_tokens(one.drop_last()) == 0);
}

/// With a request that leaves, one request less and its tokens less wait.
pub proof fn leaving_takes_from_what_waits(before: Seq<QueueEntry>)
    requires
        before.len() > 0,
    ensures
        before.remove(0).len() == before.len() - 1,
        waiting_tokens(before) == waiting_tokens(before.remove(0))
            + before[0].request.isl_tokens as nat,
{
    let one = seq![before[0]];
    assert(before =~= one + before.remove(0));
    lemma_waiting_tokens_add(one, before.remove(0));
    assert(one.drop_last() =~= Seq::<QueueEntry>::empty());
    assert(waiting_tokens(one.drop_last()) == 0);
}

/// A request that is queued and is next is the one that went in, and the queue is
/// what it was.
pub proof fn resumed_request_is_the_queued_one(
    before: Seq<QueueEntry>,
    after: Seq<QueueEntry>,
    entry: QueueEntry,
)
    requires
        was_queued(before, after, entry),
        forall|i: int| 0 <= i < before.len() ==> (#[trigger] before[i]).key < entry.key,
    ensures
        after[0] == entry,
        after.remove(0) == before,
{
    let at = choose|at: int| #[trigger]
        its_place(before, entry, at) && after == before.insert(at, entry);
    if at > 0 {
        assert(before[0].key >= entry.key);
    }
    assert(after.remove(0) =~= before);
}

/// One rank with room is enough: a request does not wait where a rank of a worker that it
/// may go to has no more active tokens than the worker's limit, be it any rank of the
/// worker. It may go to a worker that is among those allowed, where some are named, and
/// that has every taint the request asks for.
pub proof fn rank_with_room_ends_the_wait(
    request: SchedulingRequest,
    workers: Seq<SchedulableWorker>,
    active_tokens: Map<(u64, u32), usize>,
    i: int,
    rank: u32,
)
    requires
        request.pinned_worker is None,
        0 <= i < workers.len(),
        workers[i].dp_start <= rank < workers[i].dp_start + workers[i].dp_size,
        request.allowed_worker_ids matches Some(ids) ==> ids@.contains(workers[i].worker_id),
        forall|t: int|
            0 <= t < request.routing_constraints.required_taints@.len() ==> exists|k: int|
                0 <= k < workers[i].taints@.len() && (#[trigger] workers[i].taints@[k])@ == (
                #[trigger] request.routing_constraints.required_taints@[t])@,
        active_tokens.dom().contains((workers[i].worker_id, rank)) ==> active_tokens[(
            workers[i].worker_id,
            rank,
        )] <= workers[i].token_limit,
    ensures
        !must_wait(request, workers, active_tokens),
{
    assert(may_go_to(request, workers, i, rank)) by {
        assert forall|t: int|
            0 <= t < request.routing_constraints.required_taints@.len() implies workers[i].spec_has_taint(
            (#[trigger] request.routing_constraints.required_taints@[t])@,
        ) by {
            let taint = request.routing_constraints.required_taints@[t]@;
            let k = choose|k: int|
                0 <= k < workers[i].taints@.len() && (#[trigger] workers[i].taints@[k])@ == taint;
            assert(workers[i].taints@[k]@ == taint);
        }
    }
    assert(!rank_busy(active_tokens, workers[i], rank));
}

/// A request that waits and is bound to no rank has somewhere to go, and no room there:
/// every rank that it may go to has more active tokens than its worker's limit.
pub proof fn waiting_means_no_room_anywhere(
    request: SchedulingRequest,
    workers: Seq<SchedulableWorker>,
    active_tokens: Map<(u64, u32), usize>,
)
    requires
        request.pinned_worker is None,
        must_wait(request, workers, active_tokens),
    ensures
        exists|i: int, rank: u32| #[trigger] may_go_to(request, workers, i, rank),
        forall|i: int, rank: u32| #[trigger]
            may_go_to(request, workers, i, rank) ==> active_tokens.dom().contains(
                (workers[i].worker_id, rank),
            ) && active_tokens[(workers[i].worker_id, rank)] > workers[i].token_limit,
{
    assert forall|i: int, rank: u32| #[trigger]
        may_go_to(request, workers, i, rank) implies active_tokens.dom().contains(
        (workers[i].worker_id, rank),
    ) && active_tokens[(workers[i].worker_id, rank)] > workers[i].token_limit by {
        assert(rank_busy(active_tokens, workers[i], rank));
    }
}

/// A request that is bound to no rank waits where it may go to some rank and every rank
/// that it may go to is over its worker's limit.
pub proof fn no_room_anywhere_makes_wait(
    request: SchedulingRequest,
    workers: Seq<SchedulableWorker>,
    active_tokens: Map<(u64, u32), usize>,
    at: int,
    of: u32,
)
    requires
        request.pinned_worker is None,
        may_go_to(request, workers, at, of),
        forall|i: int, rank: u32|
            0 <= i < workers.len() && workers[i].dp_start <= rank < workers[i].dp_start
                + workers[i].dp_size ==> #[trigger] active_tokens.dom().contains(
                (workers[i].worker_id, rank),
            ) && active_tokens[(workers[i].worker_id, rank)] > workers[i].token_limit,
    ensures
        must_wait(request, workers, active_tokens),
{
    assert forall|i: int, rank: u32| #[trigger]
        may_go_to(request, workers, i, rank) implies rank_busy(
        active_tokens,
        workers[i],
        rank,
    ) by {
        assert(active_tokens.dom().contains((workers[i].worker_id, rank)));
    }
}

/// A request goes only to ranks that are there, of workers that it allows and that have
/// the taints it asks for.
pub proof fn requests_go_where_they_may(
    request: SchedulingRequest,
    workers: Seq<SchedulableWorker>,
    i: int,
    rank: u32,
)
    ensures
        may_go_to(request, workers, i, rank) <==> {
            &&& 0 <= i < workers.len()
            &&& workers[i].dp_start <= rank < workers[i].dp_start + workers[i].dp_size
            &&& (request.allowed_worker_ids matches Some(ids) ==> ids@.contains(
                workers[i].worker_id,
            ))
            &&& forall|t: int|
                0 <= t < request.routing_constraints.required_taints@.len()
                    ==> workers[i].taints@.map_values(|taint: String| taint@).contains(
                    (#[trigger] request.routing_constraints.required_taints@[t])@,
                )
        },
{
    let asked = request.routing_constraints.required_taints@;
    let taints = workers[i].taints@.map_values(|taint: String| taint@);
    assert forall|t: int| 0 <= t < asked.len() implies workers[i].spec_has_taint(
        (#[trigger] asked[t])@,
    ) == taints.contains(asked[t]@) by {
        if workers[i].spec_has_taint(asked[t]@) {
            let k = choose|k: int|
                0 <= k < workers[i].taints@.len() && (#[trigger] workers[i].taints@[k])@
                    == asked[t]@;
            assert(taints[k] == asked[t]@);
        }
        if taints.contains(asked[t]@) {
            let k = choose|k: int| 0 <= k < taints.len() && taints[k] == asked[t]@;
            assert(workers[i].taints@[k]@ == asked[t]@);
        }
    }
}

/// A request that is bound to a rank waits for that rank alone: it waits where the rank is
/// one that it may go to and is over its worker's limit, and in no other case, whatever
/// the other ranks do.
pub proof fn bound_request_waits_for_its_rank(
    request: SchedulingRequest,
    workers: Seq<SchedulableWorker>,
    active_tokens: Map<(u64, u32), usize>,
    i: int,
)
    requires
        request.pinned_worker is Some,
        0 <= i < workers.len(),
        workers[i].worker_id == (request.pinned_worker->0).worker_id,
        forall|j: int|
            0 <= j < workers.len() && (#[trigger] workers[j]).worker_id == workers[i].worker_id
                ==> j == i,
    ensures
        must_wait(request, workers, active_tokens) <==> {
            let rank = (request.pinned_worker->0).dp_rank;
            &&& may_go_to(request, workers, i, rank)
            &&& active_tokens.dom().contains((workers[i].worker_id, rank))
            &&& active_tokens[(workers[i].worker_id, rank)] > workers[i].token_limit
        },
{
    let id = (request.pinned_worker->0).worker_id;
    assert(worker_at(workers, id, i));
    assert forall|j: int| #[trigger] worker_at(workers, id, j) implies j == i by {
        assert(workers[j].worker_id == workers[i].worker_id);
    }
}

/// A request that finds a rank with room is admitted as it is, and the queue stays.
pub proof fn rank_with_room_admits<P: SchedulingPolicy>(
    queueing: bool,
    tiers: Seq<RouterQueueDepthByMissingIslTier>,
    before: Seq<QueueEntry>,
    request: SchedulingRequest,
    block_hashes: Option<Vec<LocalBlockHash>>,
    snapshot: &WorkerSnapshot,
    policy: &P,
    now_millis: u64,
    outcome: EnqueueOutcome,
    after: Seq<QueueEntry>,
    i: int,
    rank: u32,
)
    requires
        taken_in(
            queueing,
            tiers,
            before,
            request,
            block_hashes,
            snapshot,
            policy,
            now_millis,
            outcome,
            after,
        ),
        request.pinned_worker is None,
        may_go_to(request, snapshot.workers@, i, rank),
        snapshot.active_tokens@.dom().contains((snapshot.workers@[i].worker_id, rank))
            ==> snapshot.active_tokens@[(snapshot.workers@[i].worker_id, rank)]
            <= snapshot.workers@[i].token_limit,
    ensures
        outcome == EnqueueOutcome::Admit(request),
        after == before,
{
    if must_wait(request, snapshot.workers@, snapshot.active_tokens@) {
        waiting_means_no_room_anywhere(request, snapshot.workers@, snapshot.active_tokens@);
    }
}

/// A request that has no room anywhere waits or is turned away, where requests wait at
/// all: never does it go on. It is turned away exactly where what waits has reached its
/// cap, and then the queue stays; else it is queued, and all others stay.
pub proof fn no_room_queues_or_rejects<P: SchedulingPolicy>(
    tiers: Seq<RouterQueueDepthByMissingIslTier>,
    before: Seq<QueueEntry>,
    request: SchedulingRequest,
    block_hashes: Option<Vec<LocalBlockHash>>,
    snapshot: &WorkerSnapshot,
    policy: &P,
    now_millis: u64,
    outcome: EnqueueOutcome,
    after: Seq<QueueEntry>,
    at: int,
    of: u32,
)
    requires
        taken_in(
            true,
            tiers,
            before,
            request,
            block_hashes,
            snapshot,
            policy,
            now_millis,
            outcome,
            after,
        ),
        request.pinned_worker is None,
        request.allowed_worker_ids is None,
        may_go_to(request, snapshot.workers@, at, of),
        forall|i: int, rank: u32| #[trigger]
            may_go_to(request, snapshot.workers@, i, rank)
                ==> snapshot.active_tokens@.dom().contains((snapshot.workers@[i].worker_id, rank))
                && snapshot.active_tokens@[(snapshot.workers@[i].worker_id, rank)]
                > snapshot.workers@[i].token_limit,
    ensures
        ({
            let cap = tier_cap(
                tiers,
                request.spec_best_prefill(snapshot.workers@),
                snapshot.workers@.len() as usize,
            );
            if cap is Some && (waiting_tokens(before) >= cap->0) {
                &&& outcome matches EnqueueOutcome::Rejected(back, error) && back == request
                    && error is Backpressure
                &&& after == before
            } else {
                &&& outcome is Queued
                &&& after.len() == before.len() + 1
                &&& exists|at: int|
                    0 <= at < after.len() && (#[trigger] after[at]).request == request
                        && after[at].enqueue_at_millis == now_millis && after.remove(at) == before
            }
        }),
{
    assert forall|i: int, rank: u32| #[trigger]
        may_go_to(request, snapshot.workers@, i, rank) implies rank_busy(
        snapshot.active_tokens@,
        snapshot.workers@[i],
        rank,
    ) by {}
    assert(must_wait(request, snapshot.workers@, snapshot.active_tokens@));
    if outcome is Queued {
        let key = choose|key: i64|
            call_ensures(
                P::enqueue_key,
                (policy, now_millis, &request, &snapshot.workers),
                key,
            ) && #[trigger] was_queued(
                before,
                after,
                (QueueEntry { key, request, enqueue_at_millis: now_millis, block_hashes }),
            );
        let entry = QueueEntry { key, request, enqueue_at_millis: now_millis, block_hashes };
        let at = choose|at: int| #[trigger]
            its_place(before, entry, at) && after == before.insert(at, entry);
        assert(after[at] == entry);
        assert(after.remove(at) =~= before);
    }
}

/// Of two requests, the one that was queued first and whose key is no lower goes first.
pub proof fn earlier_request_goes_first(
    start: Seq<QueueEntry>,
    between: Seq<QueueEntry>,
    end: Seq<QueueEntry>,
    first: QueueEntry,
    second: QueueEntry,
)
    requires
        in_order(start),
        was_queued(start, between, first),
        was_queued(between, end, second),
        first.key >= second.key,
    ensures
        exists|i: int, j: int|
            0 <= i < j < end.len() && #[trigger] end[i] == first && #[trigger] end[j] == second,
{
    let at = choose|at: int| #[trigger]
        its_place(start, first, at) && between == start.insert(at, first);
    let to = choose|to: int| #[trigger]
        its_place(between, second, to) && end == between.insert(to, second);
    assert(between[at] == first);
    assert(end[to] == second);
    if to <= at {
        assert(between[at].key < second.key);
    }
    assert(end[at] == first);
}

/// A request with a higher key passes those that wait with lower ones.
pub proof fn higher_key_goes_first(
    before: Seq<QueueEntry>,
    after: Seq<QueueEntry>,
    entry: QueueEntry,
    k: int,
)
    requires
        was_queued(before, after, entry),
        0 <= k < before.len(),
    ensures
        exists|i: int, j: int|
            0 <= i < after.len() && 0 <= j < after.len() && #[trigger] after[i] == entry
                && #[trigger] after[j] == before[k] && (entry.key > before[k].key <==> i < j),
{
    let at = choose|at: int| #[trigger]
        its_place(before, entry, at) && after == before.insert(at, entry);
    assert(after[at] == entry);
    if k < at {
        assert(before[k].key >= entry.key);
        assert(after[k] == before[k]);
    } else {
        assert(before[k].key < entry.key);
        assert(after[k + 1] == before[k]);
    }
}

/// A look at the caches again changes what is known of them and nothing else of a
/// request; without one nothing changes.
pub proof fn refreshing_changes_only_the_overlap(
    request: SchedulingRequest,
    refreshed: Option<RefreshedOverlap>,
)
    ensures
        ({
            let after = refreshed_request(request, refreshed);
            &&& refreshed is None ==> after == request
            &&& refreshed matches Some(overlap) ==> after.effective_cached_tokens
                == overlap.effective_cached_tokens && after.effective_overlap_blocks
                == overlap.effective_overlap_blocks && after.tier_overlap_blocks
                == overlap.tier_overlap_blocks
            &&& after.maybe_request_id == request.maybe_request_id
            &&& after.token_seq == request.token_seq
            &&& after.isl_tokens == request.isl_tokens
            &&& after.pinned_worker == request.pinned_worker
            &&& after.allowed_worker_ids == request.allowed_worker_ids
            &&& after.routing_constraints == request.routing_constraints
            &&& after.router_config_override == request.router_config_override
            &&& after.update_states == request.update_states
            &&& after.track_prefill_tokens == request.track_prefill_tokens
            &&& after.priority_jump == request.priority_jump
        }),
{
}

/// New keys leave the requests that wait as they are.
pub proof fn new_keys_leave_requests<P: SchedulingPolicy>(
    policy: &P,
    workers: &Vec<SchedulableWorker>,
    now_millis: u64,
    before: Seq<QueueEntry>,
    after: Seq<QueueEntry>,
    i: int,
)
    requires
        rekeyed(policy, workers, now_millis, before, after),
        0 <= i < before.len(),
    ensures
        after.len() == before.len(),
        after[i].request == before[i].request,
{
    assert(has_new_key(policy, workers, now_millis, before[i], after[i]));
}

/// A request that is bound to a rank goes by that rank, also where it names the workers
/// that it allows: with room there it goes on, and over the limit it does not. One that
/// is bound to no rank and names the workers that it allows goes on whatever they bear.
pub proof fn bound_requests_go_by_their_rank<P: SchedulingPolicy>(
    tiers: Seq<RouterQueueDepthByMissingIslTier>,
    before: Seq<QueueEntry>,
    request: SchedulingRequest,
    block_hashes: Option<Vec<LocalBlockHash>>,
    snapshot: &WorkerSnapshot,
    policy: &P,
    now_millis: u64,
    outcome: EnqueueOutcome,
    after: Seq<QueueEntry>,
    i: int,
)
    requires
        taken_in(
            true,
            tiers,
            before,
            request,
            block_hashes,
            snapshot,
            policy,
            now_millis,
            outcome,
            after,
        ),
        request.pinned_worker matches Some(pinned) ==> {
            &&& 0 <= i < snapshot.workers@.len()
            &&& snapshot.workers@[i].worker_id == pinned.worker_id
            &&& may_go_to(request, snapshot.workers@, i, pinned.dp_rank)
            &&& forall|j: int|
                0 <= j < snapshot.workers@.len() && (#[trigger] snapshot.workers@[j]).worker_id
                    == pinned.worker_id ==> j == i
        },
    ensures
        request.pinned_worker matches Some(pinned) ==> (outcome == EnqueueOutcome::Admit(request)
            <==> !(snapshot.active_tokens@.dom().contains((pinned.worker_id, pinned.dp_rank))
            && snapshot.active_tokens@[(pinned.worker_id, pinned.dp_rank)]
            > snapshot.workers@[i].token_limit)),
        request.pinned_worker is None && request.allowed_worker_ids is Some ==> outcome
            == EnqueueOutcome::Admit(request),
        outcome is Admit ==> after == before,
{
    if request.pinned_worker is Some {
        bound_request_waits_for_its_rank(request, snapshot.workers@, snapshot.active_tokens@, i);
    }
}

/// Where requests do not wait, every request goes on.
pub proof fn without_a_queue_requests_go_on<P: SchedulingPolicy>(
    tiers: Seq<RouterQueueDepthByMissingIslTier>,
    before: Seq<QueueEntry>,
    request: SchedulingRequest,
    block_hashes: Option<Vec<LocalBlockHash>>,
    snapshot: &WorkerSnapshot,
    policy: &P,
    now_millis: u64,
    outcome: EnqueueOutcome,
    after: Seq<QueueEntry>,
)
    requires
        taken_in(
            false,
            tiers,
            before,
            request,
            block_hashes,
            snapshot,
            policy,
            now_millis,
            outcome,
            after,
        ),
    ensures
        outcome == EnqueueOutcome::Admit(request),
        after == before,
{
}

} // verus!
