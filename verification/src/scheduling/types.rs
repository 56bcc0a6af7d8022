//! Requests that wait for a worker, and which workers they may go to.

use vstd::prelude::*;
use vstd::string::StringExecFns;

use crate::collections::{fx_get, fx_insert, fx_worker_keys, FxMap};
use crate::protocols::{
    DpRank, RoutingConstraints, SequenceHash, SharedCacheHits, WorkerId, WorkerWithDpRank,
};
use crate::scheduling::config::{F64Bits, RouterConfigOverride};
use crate::scheduling::policy_queue::QueueRejection;
use crate::text::{append_decimal, decimal, str_eq};

verus! {

/// How many blocks of a request each worker has, tier by tier.
pub struct TierOverlapBlocks {
    pub device: FxMap<(u64, u32), usize>,
    pub host_pinned: FxMap<(u64, u32), usize>,
    pub disk: FxMap<(u64, u32), usize>,
}

/// The load that a worker would have with one more request.
#[derive(Clone, Copy, Debug, PartialEq, Eq, Structural)]
pub struct PotentialLoad {
    pub worker_id: WorkerId,
    pub dp_rank: DpRank,
    pub potential_prefill_tokens: usize,
    pub potential_decode_blocks: usize,
    /// How many requests the worker has as it is.
    pub active_requests: usize,
}

impl PotentialLoad {
    /// The rank whose load it is.
    pub open spec fn worker(&self) -> (u64, u32) {
        (self.worker_id, self.dp_rank)
    }
}

/// Why a request is turned away while the queue is long.
#[derive(Clone, Copy, Debug, PartialEq, Eq, Structural)]
pub enum RouterBackpressureReason {
    MaxQueuedIslTokensExceeded,
}

/// Why a request could not be scheduled.
#[derive(Debug, PartialEq, Eq)]
pub enum KvSchedulerError {
    NoEndpoints,
    Backpressure {
        reason: RouterBackpressureReason,
        queued_isl_tokens: usize,
        max_queued_isl_tokens: Option<usize>,
    },
    AllEligibleWorkersOverloaded,
    PinnedWorkerOverloaded { worker_id: WorkerId },
    QueueRejected(QueueRejection),
    PinnedWorkerNotAllowed { worker_id: WorkerId },
    SubscriberShutdown,
    BookingFailed(String),
    InitFailed(String),
}

/// How an optional number is shown.
pub open spec fn shown_option(n: Option<usize>) -> Seq<char> {
    match n {
        Some(n) => "Some("@ + decimal(n as nat) + ")"@,
        None => "None"@,
    }
}

impl KvSchedulerError {
    /// Whether the request could be scheduled if there were less load.
    pub fn is_overload(&self) -> (r: bool)
        ensures
            r == (self is Backpressure || self is AllEligibleWorkersOverloaded
                || self is PinnedWorkerOverloaded),
    {
        match self {
            KvSchedulerError::Backpressure { .. } => true,
            KvSchedulerError::AllEligibleWorkersOverloaded => true,
            KvSchedulerError::PinnedWorkerOverloaded { .. } => true,
            _ => false,
        }
    }

    /// The error in words.
    pub open spec fn spec_message(&self) -> Seq<char> {
        match *self {
            KvSchedulerError::NoEndpoints => "no endpoints available to route work"@,
            KvSchedulerError::Backpressure { reason, queued_isl_tokens, max_queued_isl_tokens } =>
                "router backpressure: MaxQueuedIslTokensExceeded (queued_isl_tokens="@ + decimal(
                queued_isl_tokens as nat,
            ) + ", max_queued_isl_tokens="@ + shown_option(max_queued_isl_tokens) + ")"@,
            KvSchedulerError::AllEligibleWorkersOverloaded =>
                "all eligible workers are overloaded"@,
            KvSchedulerError::PinnedWorkerOverloaded { worker_id } => "pinned worker "@ + decimal(
                worker_id as nat,
            ) + " is overloaded"@,
            KvSchedulerError::QueueRejected(rejection) => rejection.spec_message(),
            KvSchedulerError::PinnedWorkerNotAllowed { worker_id } => "pinned worker "@ + decimal(
                worker_id as nat,
            ) + " is not in allowed worker set"@,
            KvSchedulerError::SubscriberShutdown => "endpoint subscriber shutdown"@,
            KvSchedulerError::BookingFailed(why) => "failed to book scheduler state: "@ + why@,
            KvSchedulerError::InitFailed(why) => "failed to initialize event publisher: "@ + why@,
        }
    }

    /// The error in words.
    pub fn message(&self) -> (text: String)
        ensures
            text@ == self.spec_message(),
    {
        match self {
            KvSchedulerError::NoEndpoints => "no endpoints available to route work".to_owned(),
            KvSchedulerError::Backpressure { queued_isl_tokens, max_queued_isl_tokens, .. } => {
                let mut text =
                    "router backpressure: MaxQueuedIslTokensExceeded (queued_isl_tokens=".to_owned();
                append_decimal(&mut text, *queued_isl_tokens as u64);
                text.append(", max_queued_isl_tokens=");
                let shown = match max_queued_isl_tokens {
                    Some(n) => {
                        let mut shown = "Some(".to_owned();
                        append_decimal(&mut shown, *n as u64);
                        shown.append(")");
                        shown
                    },
                    None => "None".to_owned(),
                };
                text.append(shown.as_str());
                text.append(")");
                text
            },
            KvSchedulerError::AllEligibleWorkersOverloaded => {
                "all eligible workers are overloaded".to_owned()
            },
            KvSchedulerError::PinnedWorkerOverloaded { worker_id } => {
                let mut text = "pinned worker ".to_owned();
                append_decimal(&mut text, *worker_id);
                text.append(" is overloaded");
                text
            },
            KvSchedulerError::QueueRejected(rejection) => rejection.message(),
            KvSchedulerError::PinnedWorkerNotAllowed { worker_id } => {
                let mut text = "pinned worker ".to_owned();
                append_decimal(&mut text, *worker_id);
                text.append(" is not in allowed worker set");
                text
            },
            KvSchedulerError::SubscriberShutdown => "endpoint subscriber shutdown".to_owned(),
            KvSchedulerError::BookingFailed(why) => {
                let mut text = "failed to book scheduler state: ".to_owned();
                text.append(why.as_str());
                text
            },
            KvSchedulerError::InitFailed(why) => {
                let mut text = "failed to initialize event publisher: ".to_owned();
                text.append(why.as_str());
                text
            },
        }
    }
}

/// A worker that requests can go to.
pub struct SchedulableWorker {
    pub worker_id: WorkerId,
    pub dp_start: u32,
    pub dp_size: u32,
    pub taints: Vec<String>,
    /// Up to this many active prefill tokens a rank takes more work.
    pub token_limit: usize,
}

impl SchedulableWorker {
    /// Whether a rank is one of the worker's.
    pub open spec fn spec_has_rank(&self, rank: u32) -> bool {
        self.dp_start <= rank < self.dp_start + self.dp_size
    }

    /// Whether a rank is one of the worker's.
    pub fn has_rank(&self, rank: u32) -> (r: bool)
        ensures
            r == self.spec_has_rank(rank),
    {
        self.dp_start <= rank && rank - self.dp_start < self.dp_size
    }

    /// Whether the worker has a taint.
    pub open spec fn spec_has_taint(&self, taint: Seq<char>) -> bool {
        exists|i: int| 0 <= i < self.taints@.len() && (#[trigger] self.taints@[i])@ == taint
    }

    fn has_taint(&self, taint: &str) -> (r: bool)
        ensures
            r == self.spec_has_taint(taint@),
    {
        for i in 0..self.taints.len()
            invariant
                forall|j: int| 0 <= j < i ==> (#[trigger] self.taints@[j])@ != taint@,
        {
            if str_eq(self.taints[i].as_str(), taint) {
                assert(self.taints@[i as int]@ == taint@);
                return true;
            }
        }
        false
    }
}

/// How many prefill tokens a request adds to a worker's load.
pub struct PrefillTokenDeltas {
    /// What it adds to workers that have none of its blocks.
    pub default_delta: usize,
    pub by_worker: FxMap<(u64, u32), usize>,
}

impl PrefillTokenDeltas {
    /// What is added to a worker's load.
    pub open spec fn spec_delta(&self, worker: (u64, u32)) -> usize {
        if self.by_worker@.dom().contains(worker) {
            self.by_worker@[worker]
        } else {
            self.default_delta
        }
    }

    /// What is added to a worker's load.
    pub fn delta_for(&self, worker: WorkerWithDpRank) -> (delta: usize)
        ensures
            delta == self.spec_delta(worker.spec_key()),
    {
        match fx_get(&self.by_worker, &worker.key()) {
            Some(delta) => *delta,
            None => self.default_delta,
        }
    }
}

/// How many of a request's tokens a worker must prefill: none where they do not
/// count.
pub open spec fn uncached(
    isl_tokens: usize,
    cached: Map<(u64, u32), usize>,
    track_prefill_tokens: bool,
    worker: (u64, u32),
) -> usize {
    let held = if cached.dom().contains(worker) {
        cached[worker]
    } else {
        0
    };
    if track_prefill_tokens && held <= isl_tokens {
        (isl_tokens - held) as usize
    } else {
        0
    }
}

/// How many prefill tokens a request adds to each worker's load, from how many of
/// its tokens the workers have in their caches.
pub fn prefill_deltas(
    isl_tokens: usize,
    cached: &FxMap<(u64, u32), usize>,
    track_prefill_tokens: bool,
) -> (deltas: PrefillTokenDeltas)
    ensures
        forall|w: (u64, u32)| #[trigger]
            deltas.spec_delta(w) == uncached(isl_tokens, cached@, track_prefill_tokens, w),
{
    let mut by_worker: FxMap<(u64, u32), usize> = FxMap::default();
    if !track_prefill_tokens {
        return PrefillTokenDeltas { default_delta: 0, by_worker };
    }
    let keys = fx_worker_keys(cached);
    for i in 0..keys.len()
        invariant
            track_prefill_tokens,
            keys@.to_set() == cached@.dom(),
            forall|w: (u64, u32)| #[trigger]
                by_worker@.dom().contains(w) ==> cached@.dom().contains(w) && by_worker@[w]
                    == uncached(isl_tokens, cached@, track_prefill_tokens, w),
            forall|j: int| 0 <= j < i ==> by_worker@.dom().contains(#[trigger] keys@[j]),
    {
        let key = keys[i];
        assert(keys@.to_set().contains(key));
        if let Some(held) = fx_get(cached, &key) {
            fx_insert(&mut by_worker, key, isl_tokens.saturating_sub(*held));
        }
    }
    let deltas = PrefillTokenDeltas { default_delta: isl_tokens, by_worker };
    proof {
        assert forall|w: (u64, u32)| #[trigger] deltas.spec_delta(w) == uncached(
            isl_tokens,
            cached@,
            track_prefill_tokens,
            w,
        ) by {
            if cached@.dom().contains(w) {
                assert(keys@.to_set().contains(w));
                let j = choose|j: int| 0 <= j < keys@.len() && keys@[j] == w;
                assert(deltas.by_worker@.dom().contains(keys@[j]));
            } else {
                assert(!deltas.by_worker@.dom().contains(w));
            }
        }
    }
    deltas
}

/// A request that is to be scheduled.
pub struct SchedulingRequest {
    pub maybe_request_id: Option<String>,
    pub token_seq: Option<Vec<SequenceHash>>,
    pub isl_tokens: usize,
    pub lora_name: Option<String>,
    pub expected_output_tokens: Option<u32>,
    /// The one worker that the request must go to.
    pub pinned_worker: Option<WorkerWithDpRank>,
    /// The workers that the request may go to, where not all.
    pub allowed_worker_ids: Option<Vec<WorkerId>>,
    /// Taints that the worker must have, and those that it had better have.
    pub routing_constraints: RoutingConstraints,
    /// What differs for this request from the router's settings.
    pub router_config_override: Option<RouterConfigOverride>,
    /// Whether its prefill tokens count as load.
    pub track_prefill_tokens: bool,
    /// How far the request goes ahead of those before it, in seconds.
    pub priority_jump: F64Bits,
    /// How many of its blocks each worker has, tier by tier.
    pub tier_overlap_blocks: TierOverlapBlocks,
    /// How many of its blocks each worker has, weighted by tier.
    pub effective_overlap_blocks: FxMap<(u64, u32), F64Bits>,
    /// How many of its tokens each worker has in its cache.
    pub effective_cached_tokens: FxMap<(u64, u32), usize>,
    /// Which of its blocks are in the cache that all workers share.
    pub shared_cache_hits: Option<SharedCacheHits>,
    /// The load of the workers when the request is admitted.
    pub decode_blocks: FxMap<(u64, u32), usize>,
    pub prefill_tokens: FxMap<(u64, u32), usize>,
    /// Whether it is booked at the worker that it goes to.
    pub update_states: bool,
}

/// Whether a list of workers has one, or there is no list.
pub open spec fn listed_or_open(ids: Option<Vec<u64>>, id: u64) -> bool {
    ids matches Some(ids) ==> ids@.contains(id)
}

fn contains_id(ids: &Vec<u64>, id: u64) -> (r: bool)
    ensures
        r == ids@.contains(id),
{
    for i in 0..ids.len()
        invariant
            forall|j: int| 0 <= j < i ==> (#[trigger] ids@[j]) != id,
    {
        if ids[i] == id {
            assert(ids@[i as int] == id);
            return true;
        }
    }
    false
}

/// The first worker of a list with a number.
pub open spec fn worker_at(workers: Seq<SchedulableWorker>, id: u64, i: int) -> bool {
    &&& 0 <= i < workers.len()
    &&& workers[i].worker_id == id
    &&& forall|j: int| 0 <= j < i ==> (#[trigger] workers[j]).worker_id != id
}

/// The place of a worker in a list.
pub fn find_worker(workers: &Vec<SchedulableWorker>, id: u64) -> (place: Option<usize>)
    ensures
        place matches Some(i) ==> worker_at(workers@, id, i as int),
        place is None ==> forall|i: int|
            0 <= i < workers@.len() ==> (#[trigger] workers@[i]).worker_id != id,
{
    for i in 0..workers.len()
        invariant
            forall|j: int| 0 <= j < i ==> (#[trigger] workers@[j]).worker_id != id,
    {
        if workers[i].worker_id == id {
            return Some(i);
        }
    }
    None
}

impl SchedulingRequest {
    /// Whether the request may go to a worker.
    pub open spec fn spec_allows(&self, worker: &SchedulableWorker) -> bool {
        &&& listed_or_open(self.allowed_worker_ids, worker.worker_id)
        &&& forall|i: int|
            0 <= i < self.routing_constraints.required_taints@.len() ==> worker.spec_has_taint(
                (#[trigger] self.routing_constraints.required_taints@[i])@,
            )
    }

    /// Whether the request may go to a worker.
    pub fn allows_worker(&self, worker: &SchedulableWorker) -> (r: bool)
        ensures
            r == self.spec_allows(worker),
    {
        if let Some(ids) = &self.allowed_worker_ids {
            if !contains_id(ids, worker.worker_id) {
                return false;
            }
        }
        for i in 0..self.routing_constraints.required_taints.len()
            invariant
                listed_or_open(self.allowed_worker_ids, worker.worker_id),
                forall|j: int|
                    0 <= j < i ==> worker.spec_has_taint(
                        (#[trigger] self.routing_constraints.required_taints@[j])@,
                    ),
        {
            if !worker.has_taint(self.routing_constraints.required_taints[i].as_str()) {
                assert(!worker.spec_has_taint(
                    self.routing_constraints.required_taints@[i as int]@,
                ));
                return false;
            }
        }
        true
    }

    /// Whether the worker that the request must go to is one that it may go to.
    pub fn validate_pinned_worker_allowed(&self) -> (r: Result<(), KvSchedulerError>)
        ensures
            r is Err <==> (self.pinned_worker matches Some(w) && !listed_or_open(
                self.allowed_worker_ids,
                w.worker_id,
            )),
            r matches Err(e) ==> e == (KvSchedulerError::PinnedWorkerNotAllowed {
                worker_id: self.pinned_worker->0.worker_id,
            }),
    {
        if let Some(worker) = self.pinned_worker {
            if let Some(ids) = &self.allowed_worker_ids {
                if !contains_id(ids, worker.worker_id) {
                    return Err(
                        KvSchedulerError::PinnedWorkerNotAllowed { worker_id: worker.worker_id },
                    );
                }
            }
        }
        Ok(())
    }

    /// Whether somebody else chose the workers, so that their load is not looked
    /// at.
    pub fn bypasses_capacity_check(&self) -> (r: bool)
        ensures
            r == (self.allowed_worker_ids is Some && self.pinned_worker is None),
    {
        self.allowed_worker_ids.is_some() && self.pinned_worker.is_none()
    }

    /// How many of the request's tokens a worker has in its cache.
    pub open spec fn spec_cached_for(&self, worker: (u64, u32)) -> usize {
        if self.effective_cached_tokens@.dom().contains(worker) {
            self.effective_cached_tokens@[worker]
        } else {
            0
        }
    }

    /// How many of the request's tokens a worker has in its cache.
    pub fn effective_cached_tokens_for(&self, worker: WorkerWithDpRank) -> (tokens: usize)
        ensures
            tokens == self.spec_cached_for(worker.spec_key()),
    {
        match fx_get(&self.effective_cached_tokens, &worker.key()) {
            Some(tokens) => *tokens,
            None => 0,
        }
    }

    /// Whether a cache entry is of a worker that the request may go to.
    pub open spec fn counts_for(
        &self,
        workers: Seq<SchedulableWorker>,
        worker: (u64, u32),
    ) -> bool {
        &&& self.effective_cached_tokens@.dom().contains(worker)
        &&& exists|i: int| #[trigger] worker_at(workers, worker.0, i) && self.spec_allows(&workers[i])
    }

    /// Whether a number is the most tokens that a worker of the request has in its
    /// cache.
    pub open spec fn is_best_cached(&self, workers: Seq<SchedulableWorker>, best: nat) -> bool {
        match self.pinned_worker {
            Some(w) => best == self.spec_cached_for(w.spec_key()),
            None => {
                &&& forall|w: (u64, u32)| #[trigger]
                    self.counts_for(workers, w) ==> self.effective_cached_tokens@[w] <= best
                &&& best > 0 ==> exists|w: (u64, u32)| #[trigger]
                    self.counts_for(workers, w) && self.effective_cached_tokens@[w] == best
            },
        }
    }

    /// Only one number is the most.
    proof fn lemma_best_cached_is_unique(&self, workers: Seq<SchedulableWorker>, a: nat, b: nat)
        requires
            self.is_best_cached(workers, a),
            self.is_best_cached(workers, b),
        ensures
            a == b,
    {
    }

    /// How many tokens must be prefilled on the best worker that the request may go
    /// to.
    pub open spec fn spec_best_prefill(&self, workers: Seq<SchedulableWorker>) -> usize {
        let best = choose|best: nat| #[trigger] self.is_best_cached(workers, best);
        if best <= self.isl_tokens {
            (self.isl_tokens - best) as usize
        } else {
            0
        }
    }

    /// How many tokens must be prefilled on the best worker that the request may go
    /// to.
    pub fn best_effective_prefill_tokens(&self, workers: &Vec<SchedulableWorker>) -> (tokens: usize)
        ensures
            tokens == self.spec_best_prefill(workers@),
            exists|best: nat| #[trigger]
                self.is_best_cached(workers@, best) && tokens == if best <= self.isl_tokens {
                    self.isl_tokens - best
                } else {
                    0
                },
    {
        let best = match self.pinned_worker {
            Some(worker) => self.effective_cached_tokens_for(worker),
            None => self.best_cached(workers),
        };
        proof {
            assert(self.is_best_cached(workers@, best as nat));
            let chosen = choose|best: nat| #[trigger] self.is_best_cached(workers@, best);
            self.lemma_best_cached_is_unique(workers@, best as nat, chosen);
        }
        self.isl_tokens.saturating_sub(best)
    }

    fn best_cached(&self, workers: &Vec<SchedulableWorker>) -> (best: usize)
        requires
            self.pinned_worker is None,
        ensures
            self.is_best_cached(workers@, best as nat),
    {
        let keys = fx_worker_keys(&self.effective_cached_tokens);
        let mut best: usize = 0;
        for i in 0..keys.len()
            invariant
                keys@.to_set() == self.effective_cached_tokens@.dom(),
                forall|j: int|
                    0 <= j < i && self.counts_for(workers@, #[trigger] keys@[j])
                        ==> self.effective_cached_tokens@[keys@[j]] <= best,
                best > 0 ==> exists|w: (u64, u32)| #[trigger]
                    self.counts_for(workers@, w) && self.effective_cached_tokens@[w] == best,
        {
            let key = keys[i];
            assert(keys@.to_set().contains(key));
            let ghost before = best;
            match find_worker(workers, key.0) {
                Some(place) => {
                    let allowed = self.allows_worker(&workers[place]);
                    proof {
                        assert(worker_at(workers@, key.0, place as int));
                        assert forall|k: int| #[trigger]
                            worker_at(workers@, key.0, k) implies k == place by {
                            if k < place {
                                assert(workers@[k].worker_id != key.0);
                            } else if k > place {
                                assert(workers@[place as int].worker_id != key.0);
                            }
                        }
                    }
                    if allowed {
                        assert(self.counts_for(workers@, key));
                        if let Some(tokens) = fx_get(&self.effective_cached_tokens, &key) {
                            if *tokens > best {
                                best = *tokens;
                            }
                        }
                    }
                },
                None => {
                    assert forall|k: int| !#[trigger] worker_at(workers@, key.0, k) by {}
                },
            }
        }
        proof {
            assert forall|w: (u64, u32)| #[trigger]
                self.counts_for(workers@, w) implies self.effective_cached_tokens@[w] <= best by {
                assert(keys@.to_set().contains(w));
                let j = choose|j: int| 0 <= j < keys@.len() && keys@[j] == w;
                assert(self.counts_for(workers@, keys@[j]));
            }
        }
        best
    }

    /// How many prefill tokens the request adds to each worker's load: none where
    /// they do not count.
    pub fn prefill_token_deltas(&self) -> (deltas: PrefillTokenDeltas)
        ensures
            forall|w: (u64, u32)| #[trigger]
                deltas.spec_delta(w) == uncached(
                    self.isl_tokens,
                    self.effective_cached_tokens@,
                    self.track_prefill_tokens,
                    w,
                ),
    {
        prefill_deltas(self.isl_tokens, &self.effective_cached_tokens, self.track_prefill_tokens)
    }

    /// The prefill tokens that a worker would have with the request.
    pub fn prefill_tokens_for(&self, worker: WorkerWithDpRank) -> (tokens: usize)
        ensures
            tokens == if self.prefill_tokens@.dom().contains(worker.spec_key()) {
                self.prefill_tokens@[worker.spec_key()]
            } else if self.track_prefill_tokens {
                self.isl_tokens
            } else {
                0
            },
    {
        match fx_get(&self.prefill_tokens, &worker.key()) {
            Some(tokens) => *tokens,
            None => if self.track_prefill_tokens {
                self.isl_tokens
            } else {
                0
            },
        }
    }

    /// The prefill tokens that a worker would have with the request if it had
    /// nothing of it in its cache.
    pub fn raw_prefill_tokens_for(&self, worker: WorkerWithDpRank) -> (tokens: usize)
        ensures
            tokens == if !self.track_prefill_tokens {
                0
            } else if self.prefill_tokens@.dom().contains(worker.spec_key()) {
                let sum = self.prefill_tokens@[worker.spec_key()] + self.spec_cached_for(
                    worker.spec_key(),
                );
                if sum <= usize::MAX {
                    sum
                } else {
                    usize::MAX as int
                }
            } else {
                self.isl_tokens as int
            },
    {
        if !self.track_prefill_tokens {
            return 0;
        }
        match fx_get(&self.prefill_tokens, &worker.key()) {
            Some(tokens) => tokens.saturating_add(self.effective_cached_tokens_for(worker)),
            None => self.isl_tokens,
        }
    }

    /// How many blocks the request has, the last one perhaps not full.
    pub fn request_blocks(&self, block_size: u32) -> (blocks: u64)
        requires
            block_size > 0,
        ensures
            blocks == (self.isl_tokens + block_size - 1) / block_size as int,
    {
        let size = block_size as usize;
        let full = self.isl_tokens / size;
        let rest = self.isl_tokens % size;
        proof {
            lemma_ceiling(self.isl_tokens as int, size as int);
        }
        if rest == 0 {
            full as u64
        } else {
            full as u64 + 1
        }
    }
}

proof fn lemma_ceiling(a: int, b: int)
    requires
        0 <= a,
        0 < b,
    ensures
        a % b == 0 ==> (a + b - 1) / b == a / b,
        a % b != 0 ==> (a + b - 1) / b == a / b + 1 && a / b < a + 1 && b > 1 && a / b <= a / 2,
{
    vstd::arithmetic::div_mod::lemma_fundamental_div_mod(a, b);
    let q = a / b;
    let r = a % b;
    vstd::arithmetic::div_mod::lemma_mod_bound(a, b);
    vstd::arithmetic::div_mod::lemma_div_pos_is_pos(a, b);
    if r == 0 {
        assert(a + b - 1 == q * b + (b - 1)) by (nonlinear_arith)
            requires
                a == b * q,
        ;
        vstd::arithmetic::div_mod::lemma_fundamental_div_mod_converse(a + b - 1, b, q, b - 1);
    } else {
        assert(a + b - 1 == (q + 1) * b + (r - 1)) by (nonlinear_arith)
            requires
                a == b * q + r,
        ;
        vstd::arithmetic::div_mod::lemma_fundamental_div_mod_converse(a + b - 1, b, q + 1, r - 1);
        assert(2 * q <= b * q) by (nonlinear_arith)
            requires
                b >= 2,
                q >= 0,
        ;
    }
}

/// What must be prefilled at best is no more than on any worker that the request may go
/// to, and it is what one of them has to prefill, or the whole prompt where none has any of
/// it; a request that is bound to a rank counts that rank alone.
pub proof fn best_prefill_is_the_least(
    request: SchedulingRequest,
    workers: Seq<SchedulableWorker>,
    best: nat,
)
    requires
        request.is_best_cached(workers, best),
    ensures
        ({
            let least = request.spec_best_prefill(workers);
            let left = |cached: usize|
                if cached <= request.isl_tokens {
                    request.isl_tokens - cached
                } else {
                    0
                };
            match request.pinned_worker {
                Some(w) => {
                    let rank = (w.worker_id, w.dp_rank);
                    least == if request.effective_cached_tokens@.dom().contains(rank) {
                        left(request.effective_cached_tokens@[rank])
                    } else {
                        request.isl_tokens as int
                    }
                },
                None => {
                    &&& forall|rank: (u64, u32), i: int|
                        #![trigger request.effective_cached_tokens@.dom().contains(rank), workers[i]]
                        request.effective_cached_tokens@.dom().contains(rank) && worker_at(
                            workers,
                            rank.0,
                            i,
                        ) && request.spec_allows(&workers[i]) ==> least <= left(
                            request.effective_cached_tokens@[rank],
                        )
                    &&& least == request.isl_tokens || exists|rank: (u64, u32), i: int|
                        #![trigger request.effective_cached_tokens@.dom().contains(rank), workers[i]]
                        request.effective_cached_tokens@.dom().contains(rank) && worker_at(
                            workers,
                            rank.0,
                            i,
                        ) && request.spec_allows(&workers[i]) && least == left(
                            request.effective_cached_tokens@[rank],
                        )
                },
            }
        }),
{
    let chosen = choose|best: nat| #[trigger] request.is_best_cached(workers, best);
    request.lemma_best_cached_is_unique(workers, best, chosen);
    if request.pinned_worker is None {
        assert forall|rank: (u64, u32), i: int|
            #![trigger request.effective_cached_tokens@.dom().contains(rank), workers[i]]
            request.effective_cached_tokens@.dom().contains(rank) && worker_at(workers, rank.0, i)
                && request.spec_allows(&workers[i]) implies request.effective_cached_tokens@[rank]
            <= best by {
            assert(request.counts_for(workers, rank));
        }
        if best > 0 {
            let rank = choose|w: (u64, u32)| #[trigger]
                request.counts_for(workers, w) && request.effective_cached_tokens@[w] == best;
            let i = choose|i: int| #[trigger]
                worker_at(workers, rank.0, i) && request.spec_allows(&workers[i]);
            assert(request.effective_cached_tokens@.dom().contains(rank));
            assert(request.spec_allows(&workers[i]));
        }
    }
}

} // verus!
