//! The requests that are active on each worker, and the load that they make.

use vstd::prelude::*;
use vstd::string::StringExecFns;

use crate::collections::{fx_insert, fx_len, FxMap};
use crate::protocols::{DpRank, PrefillLoadHint, SequenceHash, WorkerId, WorkerWithDpRank};
use crate::scheduling::types::PrefillTokenDeltas;
use crate::text::{append_decimal, concat3, decimal, str_eq};

verus! {

/// After this many milliseconds a request counts as lost.
pub const EXPIRY_MILLIS: u64 = 300_000;

/// The ranks of a worker.
#[derive(Clone, Copy, Debug, PartialEq, Eq, Structural)]
pub struct WorkerDpRange {
    pub worker_id: WorkerId,
    pub dp_start: DpRank,
    pub dp_size: u32,
}

/// What is wrong with a change of the workers.
#[derive(Clone, Copy, Debug, PartialEq, Eq, Structural)]
pub enum WorkerTopologyError {
    InvalidDpSize { worker_id: WorkerId },
    InvalidDpRange { worker_id: WorkerId, dp_start: u32, dp_size: u32 },
    DuplicateWorker { worker_id: WorkerId },
    WorkerNotFound { worker_id: WorkerId },
}

impl WorkerDpRange {
    pub fn new(worker_id: WorkerId, dp_start: DpRank, dp_size: u32) -> (range: Self)
        ensures
            range == (WorkerDpRange { worker_id, dp_start, dp_size }),
    {
        WorkerDpRange { worker_id, dp_start, dp_size }
    }

    /// Whether there are ranks and their numbers fit.
    pub open spec fn valid(self) -> bool {
        self.dp_size > 0 && self.dp_start + self.dp_size <= u32::MAX
    }

    /// Whether a rank of a worker is in the range.
    pub open spec fn covers(self, worker: (u64, u32)) -> bool {
        self.worker_id == worker.0 && self.dp_start <= worker.1 < self.dp_start + self.dp_size
    }

    /// Checks a range.
    pub fn validate(self) -> (r: Result<Self, WorkerTopologyError>)
        ensures
            r is Ok <==> self.valid(),
            r matches Ok(range) ==> range == self,
            r matches Err(e) ==> e == if self.dp_size == 0 {
                WorkerTopologyError::InvalidDpSize { worker_id: self.worker_id }
            } else {
                WorkerTopologyError::InvalidDpRange {
                    worker_id: self.worker_id,
                    dp_start: self.dp_start,
                    dp_size: self.dp_size,
                }
            },
    {
        if self.dp_size == 0 {
            return Err(WorkerTopologyError::InvalidDpSize { worker_id: self.worker_id });
        }
        if self.dp_start > u32::MAX - self.dp_size {
            return Err(
                WorkerTopologyError::InvalidDpRange {
                    worker_id: self.worker_id,
                    dp_start: self.dp_start,
                    dp_size: self.dp_size,
                },
            );
        }
        Ok(self)
    }
}

/// What is wrong with a change of the active requests.
#[derive(Debug, PartialEq, Eq)]
pub enum SequenceError {
    DuplicateRequest { request_id: String },
    RequestNotFound { request_id: String },
    WorkerNotFound { worker: WorkerWithDpRank },
    /// The change was made here and could not be told to the replicas.
    ReplicaSyncPublishFailed(String),
}

impl SequenceError {
    /// The error in words.
    pub open spec fn spec_message(&self) -> Seq<char> {
        match *self {
            SequenceError::DuplicateRequest { request_id } => "request "@ + request_id@
                + " already exists"@,
            SequenceError::RequestNotFound { request_id } => "request "@ + request_id@
                + " not found"@,
            SequenceError::WorkerNotFound { worker } => "worker "@ + decimal(
                worker.worker_id as nat,
            ) + " dp_rank "@ + decimal(worker.dp_rank as nat) + " not found"@,
            SequenceError::ReplicaSyncPublishFailed(why) =>
                "failed to publish replica sync event: "@ + why@,
        }
    }

    /// The error in words.
    pub fn message(&self) -> (text: String)
        ensures
            text@ == self.spec_message(),
    {
        match self {
            SequenceError::DuplicateRequest { request_id } => concat3(
                "request ",
                request_id.as_str(),
                " already exists",
            ),
            SequenceError::RequestNotFound { request_id } => concat3(
                "request ",
                request_id.as_str(),
                " not found",
            ),
            SequenceError::WorkerNotFound { worker } => {
                let mut text = "worker ".to_owned();
                append_decimal(&mut text, worker.worker_id);
                text.append(" dp_rank ");
                append_decimal(&mut text, worker.dp_rank as u64);
                text.append(" not found");
                text
            },
            SequenceError::ReplicaSyncPublishFailed(why) => {
                let mut text = "failed to publish replica sync event: ".to_owned();
                text.append(why.as_str());
                text
            },
        }
    }
}

/// A request that is to become active.
pub struct SequenceRequest {
    pub request_id: String,
    pub token_sequence: Option<Vec<SequenceHash>>,
    pub track_prefill_tokens: bool,
    pub expected_output_tokens: Option<u32>,
    pub prefill_load_hint: Option<PrefillLoadHint>,
    pub worker: WorkerWithDpRank,
    pub lora_name: Option<String>,
}

/// An active request.
struct ActiveRequest {
    request_id: String,
    worker: (u64, u32),
    hashes: Vec<SequenceHash>,
    output_blocks: usize,
    prefill_tokens: usize,
    since_millis: u64,
}

/// Model of an active request.
pub struct ActiveView {
    pub id: Seq<char>,
    pub worker: (u64, u32),
    /// The blocks that it uses.
    pub hashes: Seq<u64>,
    /// The blocks of output that it has made since.
    pub output_blocks: usize,
    /// The prefill tokens that it still has to compute.
    pub prefill_tokens: usize,
    pub since_millis: u64,
}

impl ActiveRequest {
    spec fn model(&self) -> ActiveView {
        ActiveView {
            id: self.request_id@,
            worker: self.worker,
            hashes: self.hashes@,
            output_blocks: self.output_blocks,
            prefill_tokens: self.prefill_tokens,
            since_millis: self.since_millis,
        }
    }
}

/// Which requests stay.
enum Keep {
    NotOf(WorkerId),
    StaysWith(WorkerDpRange),
    Fresh(u64),
}

impl Keep {
    spec fn pred(self) -> spec_fn(ActiveView) -> bool {
        match self {
            Keep::NotOf(worker_id) => not_of(worker_id),
            Keep::StaysWith(range) => stays_with(range),
            Keep::Fresh(now_millis) => fresh_at(now_millis),
        }
    }

    fn holds(&self, request: &ActiveRequest) -> (r: bool)
        requires
            *self matches Keep::StaysWith(range) ==> range.valid(),
        ensures
            r == self.pred()(request.model()),
    {
        match self {
            Keep::NotOf(worker_id) => request.worker.0 != *worker_id,
            Keep::StaysWith(range) => request.worker.0 != range.worker_id || (range.dp_start
                <= request.worker.1 && request.worker.1 - range.dp_start < range.dp_size),
            Keep::Fresh(now_millis) => *now_millis <= request.since_millis || *now_millis
                - request.since_millis <= EXPIRY_MILLIS,
        }
    }
}

/// Model of the active requests of some workers.
pub struct SequencesView {
    pub ranges: Seq<WorkerDpRange>,
    pub requests: Seq<ActiveView>,
}

/// Whether a worker is registered.
pub open spec fn has_worker(ranges: Seq<WorkerDpRange>, worker_id: u64) -> bool {
    exists|i: int| 0 <= i < ranges.len() && (#[trigger] ranges[i]).worker_id == worker_id
}

/// Whether a rank is registered.
pub open spec fn has_rank(ranges: Seq<WorkerDpRange>, worker: (u64, u32)) -> bool {
    exists|i: int| 0 <= i < ranges.len() && (#[trigger] ranges[i]).covers(worker)
}

/// Whether a request is active.
pub open spec fn has_request(requests: Seq<ActiveView>, id: Seq<char>) -> bool {
    exists|i: int| 0 <= i < requests.len() && (#[trigger] requests[i]).id == id
}

/// What always holds: no worker is registered twice, ranges make sense, no request
/// is active twice, and requests are on registered ranks.
pub open spec fn sequences_wf(s: SequencesView) -> bool {
    &&& forall|i: int, j: int|
        0 <= i < j < s.ranges.len() ==> (#[trigger] s.ranges[i]).worker_id != (
        #[trigger] s.ranges[j]).worker_id
    &&& forall|i: int| 0 <= i < s.ranges.len() ==> (#[trigger] s.ranges[i]).valid()
    &&& forall|i: int, j: int|
        0 <= i < j < s.requests.len() ==> (#[trigger] s.requests[i]).id != (
        #[trigger] s.requests[j]).id
    &&& forall|i: int|
        0 <= i < s.requests.len() ==> has_rank(s.ranges, (#[trigger] s.requests[i]).worker)
}

/// The blocks that the requests on a rank use.
pub open spec fn active_hashes(requests: Seq<ActiveView>, worker: (u64, u32)) -> Set<u64>
    decreases requests.len(),
{
    if requests.len() == 0 {
        Set::empty()
    } else {
        let before = active_hashes(requests.drop_last(), worker);
        if requests.last().worker == worker {
            before.union(requests.last().hashes.to_set())
        } else {
            before
        }
    }
}

/// The blocks of output that the requests on a rank have made.
pub open spec fn active_outputs(requests: Seq<ActiveView>, worker: (u64, u32)) -> nat
    decreases requests.len(),
{
    if requests.len() == 0 {
        0
    } else {
        active_outputs(requests.drop_last(), worker) + if requests.last().worker == worker {
            requests.last().output_blocks as nat
        } else {
            0
        }
    }
}

/// The blocks that a rank would use with one more sequence: each one of a prompt
/// counted once, and those of outputs.
pub open spec fn blocks_with(
    requests: Seq<ActiveView>,
    worker: (u64, u32),
    sequence: Seq<u64>,
) -> usize {
    capped(
        active_hashes(requests, worker).union(sequence.to_set()).len() + active_outputs(
            requests,
            worker,
        ),
    )
}

/// The prefill tokens that the requests on a rank still have to compute.
pub open spec fn active_prefill(requests: Seq<ActiveView>, worker: (u64, u32)) -> nat
    decreases requests.len(),
{
    if requests.len() == 0 {
        0
    } else {
        active_prefill(requests.drop_last(), worker) + if requests.last().worker == worker {
            requests.last().prefill_tokens as nat
        } else {
            0
        }
    }
}

/// How many requests are active on a rank.
pub open spec fn active_count(requests: Seq<ActiveView>, worker: (u64, u32)) -> nat
    decreases requests.len(),
{
    if requests.len() == 0 {
        0
    } else {
        active_count(requests.drop_last(), worker) + if requests.last().worker == worker {
            1nat
        } else {
            0
        }
    }
}

/// A number of tokens, or the largest that can be counted.
pub open spec fn capped(n: nat) -> usize {
    if n <= usize::MAX {
        n as usize
    } else {
        usize::MAX
    }
}

/// The requests of a list that are not of a worker.
pub open spec fn without_worker(requests: Seq<ActiveView>, worker_id: u64) -> Seq<ActiveView> {
    requests.filter(not_of(worker_id))
}

/// Tells requests that are not of a worker.
pub open spec fn not_of(worker_id: u64) -> spec_fn(ActiveView) -> bool {
    |r: ActiveView| r.worker.0 != worker_id
}

/// The ranks of a list that are not of a worker.
pub open spec fn without_ranks(ranges: Seq<WorkerDpRange>, worker_id: u64) -> Seq<WorkerDpRange> {
    ranges.filter(other_ranks(worker_id))
}

/// Tells ranks that are not of a worker.
pub open spec fn other_ranks(worker_id: u64) -> spec_fn(WorkerDpRange) -> bool {
    |r: WorkerDpRange| r.worker_id != worker_id
}

/// Tells requests that stay when a worker has new ranks.
pub open spec fn stays_with(range: WorkerDpRange) -> spec_fn(ActiveView) -> bool {
    |r: ActiveView| r.worker.0 != range.worker_id || range.covers(r.worker)
}

/// The ranks and requests when a worker has new ranks.
pub open spec fn upserted(s: SequencesView, range: WorkerDpRange) -> SequencesView {
    SequencesView {
        ranges: without_ranks(s.ranges, range.worker_id).push(range),
        requests: s.requests.filter(stays_with(range)),
    }
}

/// A worker that is not registered has no requests.
proof fn lemma_unknown_worker(s: SequencesView, worker_id: u64)
    requires
        sequences_wf(s),
        !has_worker(s.ranges, worker_id),
    ensures
        forall|i: int| 0 <= i < s.requests.len() ==> (#[trigger] s.requests[i]).worker.0 != worker_id,
{
    assert forall|i: int| 0 <= i < s.requests.len() implies (#[trigger] s.requests[i]).worker.0
        != worker_id by {
        assert(has_rank(s.ranges, s.requests[i].worker));
    }
}

/// New ranks keep the invariants.
proof fn lemma_upserted(before: SequencesView, place: int, range: WorkerDpRange)
    requires
        sequences_wf(before),
        0 <= place < before.ranges.len(),
        before.ranges[place].worker_id == range.worker_id,
        range.valid(),
    ensures
        upserted(before, range).ranges == before.ranges.remove(place).push(range),
        sequences_wf(upserted(before, range)),
{
    let after = upserted(before, range);
    let left = before.ranges.remove(place);
    let keep = stays_with(range);
    assert forall|i: int| 0 <= i < before.ranges.len() && i != place implies other_ranks(
        range.worker_id,
    )(#[trigger] before.ranges[i]) by {
        if i < place {
            assert(before.ranges[i].worker_id != before.ranges[place].worker_id);
        } else {
            assert(before.ranges[place].worker_id != before.ranges[i].worker_id);
        }
    }
    crate::seqs::lemma_filter_one(before.ranges, place, other_ranks(range.worker_id));
    assert(after.ranges == left.push(range));
    assert forall|i: int| 0 <= i < left.len() implies (#[trigger] left[i]).worker_id
        != range.worker_id && left[i].valid() by {
        let a = if i < place {
            i
        } else {
            i + 1
        };
        assert(other_ranks(range.worker_id)(before.ranges[a]));
        assert(before.ranges[a].valid());
    }
    assert forall|i: int, j: int| 0 <= i < j < after.ranges.len() implies (
    #[trigger] after.ranges[i]).worker_id != (#[trigger] after.ranges[j]).worker_id by {
        if j < left.len() {
            let a = if i < place {
                i
            } else {
                i + 1
            };
            let b = if j < place {
                j
            } else {
                j + 1
            };
            assert(before.ranges[a].worker_id != before.ranges[b].worker_id);
        } else {
            assert(left[i].worker_id != range.worker_id);
        }
    }
    assert forall|i: int| 0 <= i < after.ranges.len() implies (
    #[trigger] after.ranges[i]).valid() by {
        if i < left.len() {
            assert(left[i].valid());
        }
    }
    lemma_filter_requests(before.ranges, before.requests, keep);
    assert forall|i: int| 0 <= i < after.requests.len() implies has_rank(
        after.ranges,
        (#[trigger] after.requests[i]).worker,
    ) by {
        let r = after.requests[i];
        assert(keep(r));
        let k = choose|k: int| 0 <= k < before.requests.len() && before.requests[k] == r;
        if r.worker.0 == range.worker_id {
            assert(after.ranges[left.len() as int].covers(r.worker));
        } else {
            assert(has_rank(before.ranges, before.requests[k].worker));
            let m = choose|m: int|
                0 <= m < before.ranges.len() && (#[trigger] before.ranges[m]).covers(r.worker);
            let n = if m < place {
                m
            } else {
                m - 1
            };
            assert(after.ranges[n] == before.ranges[m]);
        }
    }
}

/// The requests of a list that are not too old.
pub open spec fn not_expired(requests: Seq<ActiveView>, now_millis: u64) -> Seq<ActiveView> {
    requests.filter(fresh_at(now_millis))
}

/// Tells requests that are not too old.
pub open spec fn fresh_at(now_millis: u64) -> spec_fn(ActiveView) -> bool {
    |r: ActiveView| now_millis - r.since_millis <= EXPIRY_MILLIS
}

/// The requests of a list but one.
pub open spec fn without_request(requests: Seq<ActiveView>, id: Seq<char>) -> Seq<ActiveView> {
    requests.filter(|r: ActiveView| r.id != id)
}

/// The active requests of some workers.
pub struct ActiveSequencesMultiWorker {
    ranges: Vec<WorkerDpRange>,
    requests: Vec<ActiveRequest>,
}

impl View for ActiveSequencesMultiWorker {
    type V = SequencesView;

    closed spec fn view(&self) -> SequencesView {
        SequencesView {
            ranges: self.ranges@,
            requests: self.requests@.map_values(|r: ActiveRequest| r.model()),
        }
    }
}

/// What is left of a sorted-out list keeps the invariants of the whole.
proof fn lemma_filter_requests(
    ranges: Seq<WorkerDpRange>,
    requests: Seq<ActiveView>,
    keep: spec_fn(ActiveView) -> bool,
)
    requires
        forall|i: int, j: int|
            0 <= i < j < requests.len() ==> (#[trigger] requests[i]).id != (
            #[trigger] requests[j]).id,
    ensures
        ({
            let left = requests.filter(keep);
            &&& forall|i: int, j: int|
                0 <= i < j < left.len() ==> (#[trigger] left[i]).id != (#[trigger] left[j]).id
            &&& forall|i: int|
                0 <= i < left.len() ==> keep(#[trigger] left[i]) && requests.contains(left[i])
        }),
    decreases requests.len(),
{
    reveal(Seq::filter);
    if requests.len() > 0 {
        let init = requests.drop_last();
        assert forall|i: int, j: int| 0 <= i < j < init.len() implies (#[trigger] init[i]).id != (
        #[trigger] init[j]).id by {
            assert(requests[i].id != requests[j].id);
        }
        lemma_filter_requests(ranges, init, keep);
        let before = init.filter(keep);
        let left = requests.filter(keep);
        assert forall|i: int| 0 <= i < before.len() implies requests.contains(
            #[trigger] before[i],
        ) && before[i].id != requests.last().id by {
            let k = choose|k: int| 0 <= k < init.len() && init[k] == before[i];
            assert(requests[k] == before[i]);
            assert(requests[k].id != requests[requests.len() - 1].id);
        }
        assert(requests[requests.len() - 1] == requests.last());
        assert forall|i: int, j: int| 0 <= i < j < left.len() implies (#[trigger] left[i]).id != (
        #[trigger] left[j]).id by {
            if j < before.len() {
                assert(before[i].id != before[j].id);
            } else {
                assert(left[i] == before[i]);
            }
        }
    }
}

impl ActiveSequencesMultiWorker {
    /// The invariant.
    pub open spec fn wf(&self) -> bool {
        sequences_wf(self@)
    }

    /// No workers and no requests.
    pub fn new() -> (s: Self)
        ensures
            s.wf(),
            s@.ranges == Seq::<WorkerDpRange>::empty(),
            s@.requests == Seq::<ActiveView>::empty(),
    {
        let s = ActiveSequencesMultiWorker { ranges: Vec::new(), requests: Vec::new() };
        assert(s@.requests =~= Seq::empty());
        s
    }

    fn find_range(&self, worker_id: u64) -> (place: Option<usize>)
        ensures
            place is Some <==> has_worker(self@.ranges, worker_id),
            place matches Some(i) ==> i < self@.ranges.len() && self@.ranges[i as int].worker_id
                == worker_id,
    {
        for i in 0..self.ranges.len()
            invariant
                forall|j: int| 0 <= j < i ==> (#[trigger] self.ranges@[j]).worker_id != worker_id,
        {
            if self.ranges[i].worker_id == worker_id {
                assert(self@.ranges[i as int].worker_id == worker_id);
                return Some(i);
            }
        }
        None
    }

    fn find_request(&self, request_id: &str) -> (place: Option<usize>)
        ensures
            place is Some <==> has_request(self@.requests, request_id@),
            place matches Some(i) ==> i < self@.requests.len() && self@.requests[i as int].id
                == request_id@,
    {
        for i in 0..self.requests.len()
            invariant
                forall|j: int| 0 <= j < i ==> (#[trigger] self@.requests[j]).id != request_id@,
        {
            if str_eq(self.requests[i].request_id.as_str(), request_id) {
                assert(self@.requests[i as int].id == request_id@);
                return Some(i);
            }
        }
        None
    }

    /// Registers the ranks of a worker.
    pub fn register_worker(&mut self, range: WorkerDpRange) -> (r: Result<(), WorkerTopologyError>)
        requires
            old(self).wf(),
            range.valid(),
        ensures
            final(self).wf(),
            r is Err <==> has_worker(old(self)@.ranges, range.worker_id),
            r matches Err(e) ==> e == (WorkerTopologyError::DuplicateWorker {
                worker_id: range.worker_id,
            }) && final(self)@ == old(self)@,
            r is Ok ==> final(self)@ == (SequencesView {
                ranges: old(self)@.ranges.push(range),
                requests: old(self)@.requests,
            }),
    {
        if self.find_range(range.worker_id).is_some() {
            return Err(WorkerTopologyError::DuplicateWorker { worker_id: range.worker_id });
        }
        let ghost before = self@;
        self.ranges.push(range);
        proof {
            assert forall|i: int| 0 <= i < self@.requests.len() implies has_rank(
                self@.ranges,
                (#[trigger] self@.requests[i]).worker,
            ) by {
                let w = before.requests[i].worker;
                assert(has_rank(before.ranges, w));
                let k = choose|k: int|
                    0 <= k < before.ranges.len() && (#[trigger] before.ranges[k]).covers(w);
                assert(self@.ranges[k].covers(w));
            }
        }
        Ok(())
    }

    /// Registers the ranks of a worker, in place of those it had. Its requests on
    /// ranks that are gone go too.
    pub fn upsert_worker(&mut self, range: WorkerDpRange) -> (r: Result<(), WorkerTopologyError>)
        requires
            old(self).wf(),
        ensures
            final(self).wf(),
            r is Ok <==> range.valid(),
            r matches Err(e) ==> final(self)@ == old(self)@ && e == if range.dp_size == 0 {
                WorkerTopologyError::InvalidDpSize { worker_id: range.worker_id }
            } else {
                WorkerTopologyError::InvalidDpRange {
                    worker_id: range.worker_id,
                    dp_start: range.dp_start,
                    dp_size: range.dp_size,
                }
            },
            r is Ok ==> final(self)@ == upserted(old(self)@, range),
    {
        let range = match range.validate() {
            Ok(range) => range,
            Err(e) => {
                return Err(e);
            },
        };
        let ghost before = self@;
        let place = match self.find_range(range.worker_id) {
            Some(place) => place,
            None => {
                let _ = self.register_worker(range);
                proof {
                    lemma_unknown_worker(before, range.worker_id);
                    assert forall|i: int| 0 <= i < before.ranges.len() implies other_ranks(
                        range.worker_id,
                    )(#[trigger] before.ranges[i]) by {}
                    crate::seqs::lemma_filter_all(before.ranges, other_ranks(range.worker_id));
                    assert forall|i: int| 0 <= i < before.requests.len() implies stays_with(range)(
                        #[trigger] before.requests[i],
                    ) by {}
                    crate::seqs::lemma_filter_all(before.requests, stays_with(range));
                }
                return Ok(());
            },
        };
        self.ranges.remove(place);
        self.ranges.push(range);
        self.keep(Keep::StaysWith(range));
        proof {
            lemma_upserted(before, place as int, range);
            assert(self@.ranges =~= before.ranges.remove(place as int).push(range));
        }
        Ok(())
    }

    /// Takes a worker out, with the requests on it.
    pub fn unregister_worker(&mut self, worker_id: u64) -> (r: Result<(), WorkerTopologyError>)
        requires
            old(self).wf(),
        ensures
            final(self).wf(),
            r is Err <==> !has_worker(old(self)@.ranges, worker_id),
            r matches Err(e) ==> e == (WorkerTopologyError::WorkerNotFound { worker_id })
                && final(self)@ == old(self)@,
            r is Ok ==> {
                &&& final(self)@.ranges == without_ranks(old(self)@.ranges, worker_id)
                &&& final(self)@.requests == without_worker(old(self)@.requests, worker_id)
                &&& !has_worker(final(self)@.ranges, worker_id)
            },
    {
        let ghost before = self@;
        let place = match self.find_range(worker_id) {
            Some(place) => place,
            None => {
                return Err(WorkerTopologyError::WorkerNotFound { worker_id });
            },
        };
        self.ranges.remove(place);
        let ghost keep = not_of(worker_id);
        self.keep(Keep::NotOf(worker_id));
        proof {
            lemma_filter_requests(before.ranges, before.requests, keep);
            assert(before.ranges[place as int].worker_id == worker_id);
            assert forall|i: int|
                0 <= i < before.ranges.len() && i != place implies other_ranks(worker_id)(
                #[trigger] before.ranges[i],
            ) by {
                if i < place {
                    assert(before.ranges[i].worker_id != before.ranges[place as int].worker_id);
                } else {
                    assert(before.ranges[place as int].worker_id != before.ranges[i].worker_id);
                }
            }
            crate::seqs::lemma_filter_one(before.ranges, place as int, other_ranks(worker_id));
            assert(self@.ranges =~= before.ranges.remove(place as int));
            assert forall|i: int| 0 <= i < self@.requests.len() implies has_rank(
                self@.ranges,
                (#[trigger] self@.requests[i]).worker,
            ) by {
                let r = self@.requests[i];
                let k = choose|k: int| 0 <= k < before.requests.len() && before.requests[k] == r;
                assert(has_rank(before.ranges, before.requests[k].worker));
                let m = choose|m: int|
                    0 <= m < before.ranges.len() && (#[trigger] before.ranges[m]).covers(r.worker);
                let n = if m < place {
                    m
                } else {
                    m - 1
                };
                assert(m != place);
                assert(self@.ranges[n] == before.ranges[m]);
            }
            assert forall|i: int, j: int| 0 <= i < j < self@.ranges.len() implies (
            #[trigger] self@.ranges[i]).worker_id != (#[trigger] self@.ranges[j]).worker_id by {
                let a = if i < place {
                    i
                } else {
                    i + 1
                };
                let b = if j < place {
                    j
                } else {
                    j + 1
                };
                assert(before.ranges[a].worker_id != before.ranges[b].worker_id);
            }
            assert forall|i: int| 0 <= i < self@.ranges.len() implies (
            #[trigger] self@.ranges[i]).worker_id != worker_id && self@.ranges[i].valid() by {
                let a = if i < place {
                    i
                } else {
                    i + 1
                };
                if a < place {
                    assert(before.ranges[a].worker_id != before.ranges[place as int].worker_id);
                } else {
                    assert(before.ranges[place as int].worker_id != before.ranges[a].worker_id);
                }
                assert(before.ranges[a].valid());
            }
        }
        Ok(())
    }

    /// Sorts the requests out.
    fn keep(&mut self, which: Keep)
        requires
            which matches Keep::StaysWith(range) ==> range.valid(),
        ensures
            final(self)@.ranges == old(self)@.ranges,
            final(self)@.requests == old(self)@.requests.filter(which.pred()),
    {
        let ghost keep = which.pred();
        let ghost all = self@.requests;
        let mut kept: Vec<ActiveRequest> = Vec::new();
        let mut rest: Vec<ActiveRequest> = Vec::new();
        std::mem::swap(&mut rest, &mut self.requests);
        let ghost whole = rest@;
        let ghost mut done: int = 0;
        proof {
            reveal(Seq::filter);
            assert(all.take(0).filter(keep) =~= Seq::<ActiveView>::empty());
            assert(kept@.map_values(|r: ActiveRequest| r.model()) =~= Seq::<ActiveView>::empty());
        }
        while rest.len() > 0
            invariant
                self.ranges@ == old(self)@.ranges,
                which matches Keep::StaysWith(range) ==> range.valid(),
                0 <= done,
                done + rest@.len() == whole.len(),
                rest@ == whole.skip(done),
                all == whole.map_values(|r: ActiveRequest| r.model()),
                keep == which.pred(),
                kept@.map_values(|r: ActiveRequest| r.model()) == all.take(done).filter(keep),
            decreases rest@.len(),
        {
            let request = rest.remove(0);
            let ghost earlier = kept@;
            let ghost model = request.model();
            proof {
                reveal(Seq::filter);
                assert(whole[done] == request);
                assert(all.take(done + 1).drop_last() =~= all.take(done));
                assert(all.take(done + 1).last() == model);
            }
            if which.holds(&request) {
                kept.push(request);
                assert(kept@.map_values(|r: ActiveRequest| r.model()) =~= earlier.map_values(
                    |r: ActiveRequest| r.model(),
                ).push(model));
            }
            proof {
                done = done + 1;
                assert(rest@ =~= whole.skip(done));
            }
        }
        assert(all.take(all.len() as int) =~= all);
        self.requests = kept;
    }

    /// Whether any worker is registered.
    pub fn has_registered_workers(&self) -> (r: bool)
        ensures
            r == (self@.ranges.len() > 0),
    {
        self.ranges.len() > 0
    }

    /// The registered ranks.
    pub fn worker_ranges(&self) -> (ranges: &Vec<WorkerDpRange>)
        ensures
            ranges@ == self@.ranges,
    {
        &self.ranges
    }

    fn rank_registered(&self, worker: (u64, u32)) -> (r: bool)
        requires
            self.wf(),
        ensures
            r == has_rank(self@.ranges, worker),
    {
        for i in 0..self.ranges.len()
            invariant
                self.wf(),
                forall|j: int| 0 <= j < i ==> !(#[trigger] self.ranges@[j]).covers(worker),
        {
            let range = self.ranges[i];
            assert(self@.ranges[i as int].valid());
            if range.worker_id == worker.0 && range.dp_start <= worker.1 && worker.1
                - range.dp_start < range.dp_size {
                assert(self@.ranges[i as int].covers(worker));
                return true;
            }
        }
        false
    }

    /// Makes a request active on a registered rank.
    pub fn add_request_if_registered(&mut self, request: SequenceRequest, now_millis: u64) -> (r:
        Result<(), SequenceError>)
        requires
            old(self).wf(),
        ensures
            final(self).wf(),
            r is Ok <==> has_rank(old(self)@.ranges, request.worker.spec_key()) && !has_request(
                old(self)@.requests,
                request.request_id@,
            ),
            r is Err ==> final(self)@ == old(self)@,
            r matches Err(e) ==> if !has_rank(old(self)@.ranges, request.worker.spec_key()) {
                e matches SequenceError::WorkerNotFound { worker } && worker == request.worker
            } else {
                e matches SequenceError::DuplicateRequest { request_id } && request_id@
                    == request.request_id@
            },
            r is Ok ==> final(self)@ == (SequencesView {
                ranges: old(self)@.ranges,
                requests: old(self)@.requests.push(made_active(request, now_millis)),
            }),
    {
        let worker = request.worker.key();
        if !self.rank_registered(worker) {
            return Err(SequenceError::WorkerNotFound { worker: request.worker });
        }
        if self.find_request(request.request_id.as_str()).is_some() {
            return Err(SequenceError::DuplicateRequest { request_id: request.request_id });
        }
        let ghost before = self@;
        let ghost made = made_active(request, now_millis);
        let prefill_tokens = match request.prefill_load_hint {
            Some(hint) => if request.track_prefill_tokens {
                hint.initial_effective_prefill_tokens
            } else {
                0
            },
            None => 0,
        };
        let hashes = match request.token_sequence {
            Some(hashes) => hashes,
            None => Vec::new(),
        };
        self.requests.push(
            ActiveRequest {
                request_id: request.request_id,
                worker,
                hashes,
                output_blocks: 0,
                prefill_tokens,
                since_millis: now_millis,
            },
        );
        proof {
            assert(self@.requests =~= before.requests.push(made));
            assert forall|i: int| 0 <= i < self@.requests.len() implies has_rank(
                self@.ranges,
                (#[trigger] self@.requests[i]).worker,
            ) by {
                if i < before.requests.len() {
                    assert(has_rank(before.ranges, before.requests[i].worker));
                }
            }
            assert forall|i: int, j: int| 0 <= i < j < self@.requests.len() implies (
            #[trigger] self@.requests[i]).id != (#[trigger] self@.requests[j]).id by {
                if j < before.requests.len() {
                    assert(before.requests[i].id != before.requests[j].id);
                } else {
                    assert(before.requests[i].id != made.id);
                }
            }
        }
        Ok(())
    }

    /// Whether a request is active.
    pub fn is_active(&self, request_id: &str) -> (r: bool)
        ensures
            r == has_request(self@.requests, request_id@),
    {
        self.find_request(request_id).is_some()
    }

    /// Marks a request's prefill as done. Doing so again changes nothing.
    pub fn mark_prefill_completed(&mut self, request_id: &str) -> (r: Result<(), SequenceError>)
        requires
            old(self).wf(),
        ensures
            final(self).wf(),
            r is Ok <==> has_request(old(self)@.requests, request_id@),
            r matches Err(e) ==> (e matches SequenceError::RequestNotFound { request_id: id }
                && id@ == request_id@) && final(self)@ == old(self)@,
            r is Ok ==> final(self)@ == (SequencesView {
                ranges: old(self)@.ranges,
                requests: prefilled(old(self)@.requests, request_id@),
            }),
    {
        let ghost before = self@;
        match self.find_request(request_id) {
            None => Err(SequenceError::RequestNotFound { request_id: request_id.to_owned() }),
            Some(place) => {
                self.requests[place].prefill_tokens = 0;
                proof {
                    assert forall|i: int|
                        0 <= i < before.requests.len() && i != place implies (
                    #[trigger] before.requests[i]).id != request_id@ by {
                        if i < place {
                            assert(before.requests[i].id != before.requests[place as int].id);
                        } else {
                            assert(before.requests[place as int].id != before.requests[i].id);
                        }
                    }
                    assert(self@.requests =~= prefilled(before.requests, request_id@));
                    assert forall|i: int| 0 <= i < self@.requests.len() implies has_rank(
                        self@.ranges,
                        (#[trigger] self@.requests[i]).worker,
                    ) by {
                        assert(has_rank(before.ranges, before.requests[i].worker));
                    }
                    assert forall|i: int, j: int| 0 <= i < j < self@.requests.len() implies (
                    #[trigger] self@.requests[i]).id != (#[trigger] self@.requests[j]).id by {
                        assert(before.requests[i].id != before.requests[j].id);
                    }
                }
                Ok(())
            },
        }
    }

    /// Counts one more block of a request's output.
    pub fn add_output_block(&mut self, request_id: &str) -> (r: Result<(), SequenceError>)
        requires
            old(self).wf(),
        ensures
            final(self).wf(),
            r is Ok <==> has_request(old(self)@.requests, request_id@),
            r matches Err(e) ==> (e matches SequenceError::RequestNotFound { request_id: id }
                && id@ == request_id@) && final(self)@ == old(self)@,
            r is Ok ==> final(self)@ == (SequencesView {
                ranges: old(self)@.ranges,
                requests: with_output(old(self)@.requests, request_id@),
            }),
    {
        let ghost before = self@;
        match self.find_request(request_id) {
            None => Err(SequenceError::RequestNotFound { request_id: request_id.to_owned() }),
            Some(place) => {
                let made = self.requests[place].output_blocks;
                self.requests[place].output_blocks = made.saturating_add(1);
                proof {
                    assert forall|i: int|
                        0 <= i < before.requests.len() && i != place implies (
                    #[trigger] before.requests[i]).id != request_id@ by {
                        if i < place {
                            assert(before.requests[i].id != before.requests[place as int].id);
                        } else {
                            assert(before.requests[place as int].id != before.requests[i].id);
                        }
                    }
                    assert(self@.requests =~= with_output(before.requests, request_id@));
                    assert forall|i: int| 0 <= i < self@.requests.len() implies has_rank(
                        self@.ranges,
                        (#[trigger] self@.requests[i]).worker,
                    ) by {
                        assert(has_rank(before.ranges, before.requests[i].worker));
                    }
                    assert forall|i: int, j: int| 0 <= i < j < self@.requests.len() implies (
                    #[trigger] self@.requests[i]).id != (#[trigger] self@.requests[j]).id by {
                        assert(before.requests[i].id != before.requests[j].id);
                    }
                }
                Ok(())
            },
        }
    }

    /// Ends a request. One that is not active is none to end, and that is no
    /// error.
    pub fn free(&mut self, request_id: &str)
        requires
            old(self).wf(),
        ensures
            final(self).wf(),
            final(self)@.ranges == old(self)@.ranges,
            final(self)@.requests == without_request(old(self)@.requests, request_id@),
            !has_request(final(self)@.requests, request_id@),
    {
        let ghost before = self@;
        let ghost keep = |r: ActiveView| r.id != request_id@;
        match self.find_request(request_id) {
            None => {
                proof {
                    assert forall|i: int| 0 <= i < before.requests.len() implies keep(
                        #[trigger] before.requests[i],
                    ) by {}
                    crate::seqs::lemma_filter_all(before.requests, keep);
                }
            },
            Some(place) => {
                let _ = self.requests.remove(place);
                proof {
                    assert(self@.requests =~= before.requests.remove(place as int));
                    assert forall|i: int|
                        0 <= i < before.requests.len() && i != place implies keep(
                        #[trigger] before.requests[i],
                    ) by {
                        if i < place {
                            assert(before.requests[i].id != before.requests[place as int].id);
                        } else {
                            assert(before.requests[place as int].id != before.requests[i].id);
                        }
                    }
                    crate::seqs::lemma_filter_one(before.requests, place as int, keep);
                }
            },
        }
        proof {
            lemma_filter_requests(before.ranges, before.requests, keep);
            lemma_kept_ranks(before, self@);
        }
    }

    /// Ends the requests that have been active for too long.
    pub fn force_expiry(&mut self, now_millis: u64)
        requires
            old(self).wf(),
        ensures
            final(self).wf(),
            final(self)@.ranges == old(self)@.ranges,
            final(self)@.requests == not_expired(old(self)@.requests, now_millis),
    {
        let ghost before = self@;
        let ghost keep = fresh_at(now_millis);
        self.keep(Keep::Fresh(now_millis));
        proof {
            lemma_filter_requests(before.ranges, before.requests, keep);
            lemma_kept_ranks(before, self@);
        }
    }

    /// The blocks that a rank would use with one more sequence: each one of a prompt
    /// counted once, and those of outputs.
    pub fn potential_decode_blocks(&self, worker: (u64, u32), sequence: &[SequenceHash]) -> (blocks:
        usize)
        ensures
            blocks == blocks_with(self@.requests, worker, sequence@),
    {
        let mut seen: FxMap<u64, ()> = FxMap::default();
        let mut outputs: usize = 0;
        assert(seen@.dom() =~= active_hashes(self@.requests.take(0), worker));
        for i in 0..self.requests.len()
            invariant
                seen@.dom() == active_hashes(self@.requests.take(i as int), worker),
                outputs == capped(active_outputs(self@.requests.take(i as int), worker)),
        {
            let request = &self.requests[i];
            proof {
                let more = self@.requests.take(i + 1);
                assert(more.drop_last() =~= self@.requests.take(i as int));
                assert(more.last() == request.model());
            }
            if request.worker.0 == worker.0 && request.worker.1 == worker.1 {
                see_hashes(&mut seen, request.hashes.as_slice());
                outputs = outputs.saturating_add(request.output_blocks);
            }
        }
        assert(self@.requests.take(self@.requests.len() as int) =~= self@.requests);
        see_hashes(&mut seen, sequence);
        fx_len(&seen).saturating_add(outputs)
    }

    /// The prefill tokens that a rank would have to compute with some more.
    pub fn potential_prefill_tokens(&self, worker: (u64, u32), more: usize) -> (tokens: usize)
        ensures
            tokens == capped(active_prefill(self@.requests, worker) + more as nat),
    {
        let mut sum: usize = more;
        for i in 0..self.requests.len()
            invariant
                sum == capped(active_prefill(self@.requests.take(i as int), worker) + more as nat),
        {
            let request = &self.requests[i];
            proof {
                let longer = self@.requests.take(i + 1);
                assert(longer.drop_last() =~= self@.requests.take(i as int));
                assert(longer.last() == request.model());
            }
            if request.worker.0 == worker.0 && request.worker.1 == worker.1 {
                sum = sum.saturating_add(request.prefill_tokens);
            }
        }
        assert(self@.requests.take(self@.requests.len() as int) =~= self@.requests);
        sum
    }

    /// How many requests are active on a rank.
    pub fn active_requests(&self, worker: (u64, u32)) -> (count: usize)
        ensures
            count == active_count(self@.requests, worker),
    {
        let mut count: usize = 0;
        for i in 0..self.requests.len()
            invariant
                count == active_count(self@.requests.take(i as int), worker),
                count <= i,
        {
            let request = &self.requests[i];
            proof {
                let longer = self@.requests.take(i + 1);
                assert(longer.drop_last() =~= self@.requests.take(i as int));
                assert(longer.last() == request.model());
            }
            if request.worker.0 == worker.0 && request.worker.1 == worker.1 {
                count = count + 1;
            }
        }
        assert(self@.requests.take(self@.requests.len() as int) =~= self@.requests);
        count
    }

    /// The load that each registered rank would have with one more request.
    pub fn potential_blocks_and_tokens(
        &self,
        sequence: &[SequenceHash],
        deltas: &PrefillTokenDeltas,
    ) -> (loads: Vec<RankLoad>)
        requires
            self.wf(),
        ensures
            forall|i: int|
                0 <= i < loads@.len() ==> has_rank(
                    self@.ranges,
                    (#[trigger] loads@[i]).worker.spec_key(),
                ) && rank_load(self@, sequence@, deltas, loads@[i]),
            forall|w: (u64, u32)| #[trigger]
                has_rank(self@.ranges, w) ==> exists|i: int|
                    0 <= i < loads@.len() && (#[trigger] loads@[i]).worker.spec_key() == w,
            forall|i: int, j: int|
                0 <= i < j < loads@.len() ==> (#[trigger] loads@[i]).worker != (
                #[trigger] loads@[j]).worker,
    {
        let mut loads: Vec<RankLoad> = Vec::new();
        for i in 0..self.ranges.len()
            invariant
                self.wf(),
                forall|k: int|
                    0 <= k < loads@.len() ==> rank_load(
                        self@,
                        sequence@,
                        deltas,
                        #[trigger] loads@[k],
                    ) && has_rank(self@.ranges.take(i as int), loads@[k].worker.spec_key()),
                forall|m: int, w: (u64, u32)|
                    0 <= m < i && #[trigger] self@.ranges[m].covers(w) ==> exists|k: int|
                        0 <= k < loads@.len() && (#[trigger] loads@[k]).worker.spec_key() == w,
                forall|a: int, b: int|
                    0 <= a < b < loads@.len() ==> (#[trigger] loads@[a]).worker != (
                    #[trigger] loads@[b]).worker,
        {
            let range = self.ranges[i];
            let ghost earlier = loads@;
            assert(self@.ranges[i as int].valid());
            for j in 0..range.dp_size
                invariant
                    self.wf(),
                    i < self.ranges@.len(),
                    range == self@.ranges[i as int],
                    range.valid(),
                    loads@.len() == earlier.len() + j,
                    forall|k: int| 0 <= k < earlier.len() ==> loads@[k] == earlier[k],
                    forall|k: int|
                        0 <= k < j ==> rank_load(
                            self@,
                            sequence@,
                            deltas,
                            #[trigger] loads@[earlier.len() + k],
                        ) && loads@[earlier.len() + k].worker.spec_key() == (
                            range.worker_id,
                            (range.dp_start + k) as u32,
                        ),
            {
                let worker = WorkerWithDpRank::new(range.worker_id, range.dp_start + j);
                let decode_blocks = self.potential_decode_blocks(worker.key(), sequence);
                let prefill_tokens = self.potential_prefill_tokens(
                    worker.key(),
                    deltas.delta_for(worker),
                );
                let active_requests = self.active_requests(worker.key());
                loads.push(RankLoad { worker, decode_blocks, prefill_tokens, active_requests });
            }
            proof {
                assert forall|k: int| 0 <= k < loads@.len() implies rank_load(
                    self@,
                    sequence@,
                    deltas,
                    #[trigger] loads@[k],
                ) && has_rank(self@.ranges.take(i + 1), loads@[k].worker.spec_key()) by {
                    let taken = self@.ranges.take(i + 1);
                    if k < earlier.len() {
                        assert(loads@[k] == earlier[k]);
                        let shorter = self@.ranges.take(i as int);
                        let m = choose|m: int|
                            0 <= m < shorter.len() && (#[trigger] shorter[m]).covers(
                                earlier[k].worker.spec_key(),
                            );
                        assert(taken[m].covers(loads@[k].worker.spec_key()));
                    } else {
                        let t = k - earlier.len();
                        assert(rank_load(
                            self@,
                            sequence@,
                            deltas,
                            loads@[earlier.len() + t],
                        ));
                        assert(taken[i as int].covers(loads@[k].worker.spec_key()));
                    }
                }
                assert forall|m: int, w: (u64, u32)|
                    0 <= m < i + 1 && #[trigger] self@.ranges[m].covers(w) implies exists|k: int|
                    0 <= k < loads@.len() && (#[trigger] loads@[k]).worker.spec_key() == w by {
                    if m < i {
                        let k = choose|k: int|
                            0 <= k < earlier.len() && (#[trigger] earlier[k]).worker.spec_key() == w;
                        assert(loads@[k].worker.spec_key() == w);
                    } else {
                        let t = w.1 - range.dp_start;
                        assert(loads@[earlier.len() + t].worker.spec_key() == w);
                    }
                }
                assert forall|a: int, b: int| 0 <= a < b < loads@.len() implies (
                #[trigger] loads@[a]).worker != (#[trigger] loads@[b]).worker by {
                    if b < earlier.len() {
                        assert(earlier[a].worker != earlier[b].worker);
                    } else {
                        let t = b - earlier.len();
                        assert(loads@[earlier.len() + t].worker.spec_key() == (
                            range.worker_id,
                            (range.dp_start + t) as u32,
                        ));
                        if a < earlier.len() {
                            let shorter = self@.ranges.take(i as int);
                            let m = choose|m: int|
                                0 <= m < shorter.len() && (#[trigger] shorter[m]).covers(
                                    earlier[a].worker.spec_key(),
                                );
                            assert(shorter[m] == self@.ranges[m]);
                            assert(self@.ranges[m].worker_id != self@.ranges[i as int].worker_id);
                        } else {
                            let u = a - earlier.len();
                            assert(loads@[earlier.len() + u].worker.spec_key() == (
                                range.worker_id,
                                (range.dp_start + u) as u32,
                            ));
                        }
                    }
                }
            }
        }
        proof {
            assert(self@.ranges.take(self@.ranges.len() as int) =~= self@.ranges);
            assert forall|w: (u64, u32)| #[trigger] has_rank(self@.ranges, w) implies exists|i: int|
                0 <= i < loads@.len() && (#[trigger] loads@[i]).worker.spec_key() == w by {
                let m = choose|m: int|
                    0 <= m < self@.ranges.len() && (#[trigger] self@.ranges[m]).covers(w);
                assert(self@.ranges[m].covers(w));
            }
        }
        loads
    }
}

/// The load of a rank.
#[derive(Clone, Copy, Debug, PartialEq, Eq, Structural)]
pub struct RankLoad {
    pub worker: WorkerWithDpRank,
    pub decode_blocks: usize,
    pub prefill_tokens: usize,
    /// How many requests the rank has as it is.
    pub active_requests: usize,
}

/// Whether a load is what a rank would have with one more request.
pub open spec fn rank_load(
    s: SequencesView,
    sequence: Seq<u64>,
    deltas: &PrefillTokenDeltas,
    load: RankLoad,
) -> bool {
    &&& load.decode_blocks == blocks_with(s.requests, load.worker.spec_key(), sequence)
    &&& load.prefill_tokens == capped(
        active_prefill(s.requests, load.worker.spec_key()) + deltas.spec_delta(
            load.worker.spec_key(),
        ) as nat,
    )
    &&& load.active_requests == active_count(s.requests, load.worker.spec_key())
}

/// Model of a request that was made active.
pub open spec fn made_active(request: SequenceRequest, now_millis: u64) -> ActiveView {
    ActiveView {
        id: request.request_id@,
        worker: request.worker.spec_key(),
        hashes: match request.token_sequence {
            Some(hashes) => hashes@,
            None => Seq::empty(),
        },
        output_blocks: 0,
        prefill_tokens: match request.prefill_load_hint {
            Some(hint) => if request.track_prefill_tokens {
                hint.initial_effective_prefill_tokens
            } else {
                0
            },
            None => 0,
        },
        since_millis: now_millis,
    }
}

/// The requests of a list, one of them with its prefill done.
pub open spec fn prefilled(requests: Seq<ActiveView>, id: Seq<char>) -> Seq<ActiveView> {
    requests.map_values(
        |r: ActiveView|
            if r.id == id {
                ActiveView { prefill_tokens: 0, ..r }
            } else {
                r
            },
    )
}

/// The requests of a list, one of them with one more block of output.
pub open spec fn with_output(requests: Seq<ActiveView>, id: Seq<char>) -> Seq<ActiveView> {
    requests.map_values(
        |r: ActiveView|
            if r.id == id {
                ActiveView { output_blocks: capped(r.output_blocks as nat + 1), ..r }
            } else {
                r
            },
    )
}

/// What happened to a request at a replica.
pub enum ActiveSequenceEventData {
    AddRequest {
        token_sequence: Option<Vec<SequenceHash>>,
        track_prefill_tokens: bool,
        expected_output_tokens: Option<u32>,
        prefill_load_hint: Option<PrefillLoadHint>,
    },
    MarkPrefillCompleted,
    Free,
}

/// What a replica reports of a request.
pub struct ActiveSequenceEvent {
    pub request_id: String,
    pub worker: WorkerWithDpRank,
    pub data: ActiveSequenceEventData,
    /// The number by which the replica is known.
    pub router_id: u64,
    pub lora_name: Option<String>,
}

/// The request that a replica reports as added.
pub open spec fn added_at_replica(event: ActiveSequenceEvent) -> SequenceRequest
    recommends
        event.data is AddRequest,
{
    SequenceRequest {
        request_id: event.request_id,
        token_sequence: event.data->token_sequence,
        track_prefill_tokens: event.data->track_prefill_tokens,
        expected_output_tokens: event.data->expected_output_tokens,
        prefill_load_hint: event.data->prefill_load_hint,
        worker: event.worker,
        lora_name: event.lora_name,
    }
}

/// The requests after a replica's report. One for a rank that is not registered,
/// or of a request that is active, adds nothing.
pub open spec fn replicated(
    s: SequencesView,
    event: ActiveSequenceEvent,
    now_millis: u64,
) -> SequencesView {
    SequencesView {
        ranges: s.ranges,
        requests: match event.data {
            ActiveSequenceEventData::AddRequest { .. } => if has_rank(
                s.ranges,
                event.worker.spec_key(),
            ) && !has_request(s.requests, event.request_id@) {
                s.requests.push(made_active(added_at_replica(event), now_millis))
            } else {
                s.requests
            },
            ActiveSequenceEventData::MarkPrefillCompleted => prefilled(
                s.requests,
                event.request_id@,
            ),
            ActiveSequenceEventData::Free => without_request(s.requests, event.request_id@),
        },
    }
}

impl ActiveSequencesMultiWorker {
    /// Takes over what a replica reports.
    pub fn apply_replica_event(&mut self, event: ActiveSequenceEvent, now_millis: u64)
        requires
            old(self).wf(),
        ensures
            final(self).wf(),
            final(self)@ == replicated(old(self)@, event, now_millis),
    {
        let ghost before = self@;
        let ghost whole = event;
        let ActiveSequenceEvent { request_id, worker, data, router_id: _, lora_name } = event;
        match data {
            ActiveSequenceEventData::AddRequest {
                token_sequence,
                track_prefill_tokens,
                expected_output_tokens,
                prefill_load_hint,
            } => {
                let request = SequenceRequest {
                    request_id,
                    token_sequence,
                    track_prefill_tokens,
                    expected_output_tokens,
                    prefill_load_hint,
                    worker,
                    lora_name,
                };
                assert(request == added_at_replica(whole));
                let _ = self.add_request_if_registered(request, now_millis);
            },
            ActiveSequenceEventData::MarkPrefillCompleted => {
                match self.mark_prefill_completed(request_id.as_str()) {
                    Ok(()) => {},
                    Err(_) => {
                        assert(prefilled(before.requests, request_id@) =~= before.requests);
                    },
                }
            },
            ActiveSequenceEventData::Free => {
                self.free(request_id.as_str());
            },
        }
    }
}

/// Adding a request and ending it leaves everything as it was.
pub proof fn free_undoes_add(requests: Seq<ActiveView>, added: ActiveView)
    requires
        !has_request(requests, added.id),
    ensures
        without_request(requests.push(added), added.id) == requests,
{
    let keep = |r: ActiveView| r.id != added.id;
    reveal(Seq::filter);
    assert(requests.push(added).drop_last() =~= requests);
    assert forall|i: int| 0 <= i < requests.len() implies keep(#[trigger] requests[i]) by {}
    crate::seqs::lemma_filter_all(requests, keep);
}

/// Marking a prefill as done again changes nothing.
pub proof fn prefill_completes_once(requests: Seq<ActiveView>, id: Seq<char>)
    ensures
        prefilled(prefilled(requests, id), id) == prefilled(requests, id),
{
    assert(prefilled(prefilled(requests, id), id) =~= prefilled(requests, id));
}

fn see_hashes(seen: &mut FxMap<u64, ()>, hashes: &[SequenceHash])
    ensures
        final(seen)@.dom() == old(seen)@.dom().union(hashes@.to_set()),
{
    let ghost before = seen@.dom();
    assert(before =~= before.union(hashes@.take(0).to_set()));
    for i in 0..hashes.len()
        invariant
            seen@.dom() == before.union(hashes@.take(i as int).to_set()),
    {
        proof {
            let done = hashes@.take(i as int);
            assert(hashes@.take(i + 1) =~= done.push(hashes@[i as int]));
            crate::seqs::lemma_push_contains(done, hashes@[i as int]);
            assert(hashes@.take(i + 1).to_set() =~= done.to_set().insert(hashes@[i as int]));
        }
        fx_insert(seen, hashes[i], ());
        assert(seen@.dom() =~= before.union(hashes@.take(i + 1).to_set()));
    }
    assert(hashes@.take(hashes@.len() as int) =~= hashes@);
}

/// Requests that were there are on registered ranks.
proof fn lemma_kept_ranks(before: SequencesView, after: SequencesView)
    requires
        sequences_wf(before),
        after.ranges == before.ranges,
        forall|i: int|
            0 <= i < after.requests.len() ==> before.requests.contains(#[trigger] after.requests[i]),
    ensures
        forall|i: int|
            0 <= i < after.requests.len() ==> has_rank(
                after.ranges,
                (#[trigger] after.requests[i]).worker,
            ),
{
    assert forall|i: int| 0 <= i < after.requests.len() implies has_rank(
        after.ranges,
        (#[trigger] after.requests[i]).worker,
    ) by {
        let k = choose|k: int| 0 <= k < before.requests.len() && before.requests[k]
            == after.requests[i];
        assert(has_rank(before.ranges, before.requests[k].worker));
    }
}

/// One more request loads the rank that it is on, by its own blocks, outputs and prefill
/// tokens, and no other rank, be it of the same worker.
pub proof fn request_loads_its_own_rank(
    requests: Seq<ActiveView>,
    added: ActiveView,
    worker: (u64, u32),
)
    ensures
        ({
            let more = requests.push(added);
            if worker == added.worker {
                &&& active_prefill(more, worker) == active_prefill(requests, worker)
                    + added.prefill_tokens
                &&& active_outputs(more, worker) == active_outputs(requests, worker)
                    + added.output_blocks
                &&& active_count(more, worker) == active_count(requests, worker) + 1
                &&& forall|h: u64| #[trigger]
                    active_hashes(more, worker).contains(h) <==> active_hashes(
                        requests,
                        worker,
                    ).contains(h) || added.hashes.contains(h)
            } else {
                &&& active_prefill(more, worker) == active_prefill(requests, worker)
                &&& active_outputs(more, worker) == active_outputs(requests, worker)
                &&& active_count(more, worker) == active_count(requests, worker)
                &&& active_hashes(more, worker) == active_hashes(requests, worker)
            }
        }),
{
    let more = requests.push(added);
    assert(more.drop_last() =~= requests);
    assert(more.last() == added);
}

/// A rank without requests has no load.
pub proof fn no_requests_no_load(worker: (u64, u32))
    ensures
        active_prefill(Seq::empty(), worker) == 0,
        active_outputs(Seq::empty(), worker) == 0,
        active_count(Seq::empty(), worker) == 0,
        active_hashes(Seq::empty(), worker) == Set::<u64>::empty(),
{
}

/// Blocks that requests on a rank share count once: one more request adds to the blocks
/// of its rank only those that nobody there uses yet, and its outputs.
pub proof fn shared_blocks_count_once(
    requests: Seq<ActiveView>,
    added: ActiveView,
    sequence: Seq<u64>,
)
    requires
        forall|h: u64| #[trigger]
            added.hashes.contains(h) ==> active_hashes(requests, added.worker).contains(h)
                || sequence.contains(h),
        added.output_blocks == 0,
    ensures
        blocks_with(requests.push(added), added.worker, sequence) == blocks_with(
            requests,
            added.worker,
            sequence,
        ),
{
    request_loads_its_own_rank(requests, added, added.worker);
    let before = active_hashes(requests, added.worker).union(sequence.to_set());
    let after = active_hashes(requests.push(added), added.worker).union(sequence.to_set());
    assert(after =~= before) by {
        assert forall|h: u64| after.contains(h) implies before.contains(h) by {
            if added.hashes.contains(h) {
                assert(active_hashes(requests, added.worker).contains(h) || sequence.contains(h));
            }
        }
        assert forall|h: u64| before.contains(h) implies after.contains(h) by {
            if active_hashes(requests, added.worker).contains(h) {
                assert(active_hashes(requests.push(added), added.worker).contains(h));
            }
        }
    }
}

/// A block that nobody on a rank uses yet counts there.
pub proof fn new_blocks_count(requests: Seq<ActiveView>, worker: (u64, u32), block: u64)
    requires
        !active_hashes(requests, worker).contains(block),
        active_hashes(requests, worker).len() + active_outputs(requests, worker) < usize::MAX,
    ensures
        blocks_with(requests, worker, seq![block]) == blocks_with(requests, worker, Seq::empty())
            + 1,
        blocks_with(requests, worker, Seq::empty()) == active_hashes(requests, worker).len()
            + active_outputs(requests, worker),
{
    let used = active_hashes(requests, worker);
    lemma_active_hashes_finite(requests, worker);
    assert(used.union(Seq::<u64>::empty().to_set()) =~= used);
    assert(used.union(seq![block].to_set()) =~= used.insert(block)) by {
        assert forall|h: u64| seq![block].contains(h) <==> h == block by {
            assert(seq![block][0] == block);
        }
    }
}

proof fn lemma_active_hashes_finite(requests: Seq<ActiveView>, worker: (u64, u32))
    ensures
        active_hashes(requests, worker).finite(),
    decreases requests.len(),
{
    if requests.len() > 0 {
        lemma_active_hashes_finite(requests.drop_last(), worker);
        vstd::seq_lib::seq_to_set_is_finite(requests.last().hashes);
    }
}

/// A prefill that is done takes its tokens off its rank's load, and changes nothing else
/// of any rank.
pub proof fn done_prefill_takes_its_tokens_off(
    requests: Seq<ActiveView>,
    i: int,
    worker: (u64, u32),
)
    requires
        0 <= i < requests.len(),
        forall|j: int, k: int|
            0 <= j < k < requests.len() ==> (#[trigger] requests[j]).id != (
            #[trigger] requests[k]).id,
    ensures
        ({
            let after = prefilled(requests, requests[i].id);
            &&& active_prefill(requests, worker) == active_prefill(after, worker) + if worker
                == requests[i].worker {
                requests[i].prefill_tokens as nat
            } else {
                0
            }
            &&& active_hashes(after, worker) == active_hashes(requests, worker)
            &&& active_outputs(after, worker) == active_outputs(requests, worker)
            &&& active_count(after, worker) == active_count(requests, worker)
        }),
    decreases requests.len(),
{
    let id = requests[i].id;
    let after = prefilled(requests, id);
    let fewer = requests.drop_last();
    assert(after.drop_last() =~= prefilled(fewer, id));
    if i < fewer.len() {
        assert(fewer[i].id != requests.last().id) by {
            assert(requests[i].id != requests[requests.len() - 1].id);
        }
        assert forall|j: int, k: int| 0 <= j < k < fewer.len() implies (#[trigger] fewer[j]).id != (
        #[trigger] fewer[k]).id by {
            assert(requests[j].id != requests[k].id);
        }
        done_prefill_takes_its_tokens_off(fewer, i, worker);
        assert(after.last() == requests.last());
    } else {
        assert(prefilled(fewer, id) =~= fewer) by {
            assert forall|j: int| 0 <= j < fewer.len() implies prefilled(fewer, id)[j]
                == fewer[j] by {
                assert(requests[j].id != requests[i].id);
            }
        }
        assert(after.last() == (ActiveView { prefill_tokens: 0, ..requests.last() }));
    }
}

/// One more block of output counts once, on the rank of its request.
pub proof fn output_adds_one_block_to_its_rank(
    requests: Seq<ActiveView>,
    i: int,
    worker: (u64, u32),
)
    requires
        0 <= i < requests.len(),
        requests[i].output_blocks < usize::MAX,
        forall|j: int, k: int|
            0 <= j < k < requests.len() ==> (#[trigger] requests[j]).id != (
            #[trigger] requests[k]).id,
    ensures
        ({
            let after = with_output(requests, requests[i].id);
            &&& active_outputs(after, worker) == active_outputs(requests, worker) + if worker
                == requests[i].worker {
                1nat
            } else {
                0
            }
            &&& active_hashes(after, worker) == active_hashes(requests, worker)
            &&& active_prefill(after, worker) == active_prefill(requests, worker)
            &&& active_count(after, worker) == active_count(requests, worker)
        }),
    decreases requests.len(),
{
    let id = requests[i].id;
    let after = with_output(requests, id);
    let fewer = requests.drop_last();
    assert(after.drop_last() =~= with_output(fewer, id));
    if i < fewer.len() {
        assert(fewer[i].id != requests.last().id) by {
            assert(requests[i].id != requests[requests.len() - 1].id);
        }
        assert forall|j: int, k: int| 0 <= j < k < fewer.len() implies (#[trigger] fewer[j]).id != (
        #[trigger] fewer[k]).id by {
            assert(requests[j].id != requests[k].id);
        }
        output_adds_one_block_to_its_rank(fewer, i, worker);
        assert(after.last() == requests.last());
    } else {
        assert(with_output(fewer, id) =~= fewer) by {
            assert forall|j: int| 0 <= j < fewer.len() implies with_output(fewer, id)[j]
                == fewer[j] by {
                assert(requests[j].id != requests[i].id);
            }
        }
    }
}

/// What stays of a list is what is to stay, in its order.
proof fn lemma_filtered(requests: Seq<ActiveView>, keep: spec_fn(ActiveView) -> bool)
    ensures
        forall|r: ActiveView| #[trigger]
            requests.filter(keep).contains(r) <==> requests.contains(r) && keep(r),
    decreases requests.len(),
{
    reveal(Seq::filter);
    if requests.len() > 0 {
        let init = requests.drop_last();
        lemma_filtered(init, keep);
        assert(requests =~= init.push(requests.last()));
        crate::seqs::lemma_push_contains(init, requests.last());
        crate::seqs::lemma_push_contains(init.filter(keep), requests.last());
    }
}

/// A freed request is gone, and all others stay.
pub proof fn freeing_takes_one_request(requests: Seq<ActiveView>, id: Seq<char>, r: ActiveView)
    ensures
        without_request(requests, id).contains(r) <==> requests.contains(r) && r.id != id,
{
    lemma_filtered(requests, |r: ActiveView| r.id != id);
}

/// Requests are lost after five minutes, not before, and others never are.
pub proof fn requests_expire_after_five_minutes(
    requests: Seq<ActiveView>,
    now_millis: u64,
    r: ActiveView,
)
    ensures
        not_expired(requests, now_millis).contains(r) <==> requests.contains(r) && now_millis
            <= r.since_millis + 300_000,
{
    lemma_filtered(requests, fresh_at(now_millis));
}

/// With a worker go all its requests, whatever their rank, and no others.
pub proof fn workers_leave_with_their_requests(
    requests: Seq<ActiveView>,
    worker_id: u64,
    r: ActiveView,
)
    ensures
        without_worker(requests, worker_id).contains(r) <==> requests.contains(r) && r.worker.0
            != worker_id,
{
    lemma_filtered(requests, not_of(worker_id));
}

/// A worker with new ranks keeps the requests of those ranks that it still has, loses the
/// others, and has no other ranks; other workers keep all.
pub proof fn new_ranks_replace_old_ones(
    s: SequencesView,
    range: WorkerDpRange,
    r: ActiveView,
    worker: (u64, u32),
)
    ensures
        upserted(s, range).requests.contains(r) <==> s.requests.contains(r) && (r.worker.0
            != range.worker_id || range.dp_start <= r.worker.1 < range.dp_start + range.dp_size),
        has_rank(upserted(s, range).ranges, worker) <==> if worker.0 == range.worker_id {
            range.dp_start <= worker.1 < range.dp_start + range.dp_size
        } else {
            has_rank(s.ranges, worker)
        },
{
    lemma_filtered(s.requests, stays_with(range));
    let kept = without_ranks(s.ranges, range.worker_id);
    let after = upserted(s, range).ranges;
    lemma_filtered_ranges(s.ranges, other_ranks(range.worker_id));
    assert(after[kept.len() as int] == range);
    if has_rank(after, worker) && worker.0 != range.worker_id {
        let i = choose|i: int| 0 <= i < after.len() && (#[trigger] after[i]).covers(worker);
        assert(kept[i] == after[i]);
        assert(kept.contains(after[i]));
        let k = choose|k: int| 0 <= k < s.ranges.len() && s.ranges[k] == after[i];
        assert(s.ranges[k].covers(worker));
    }
    if has_rank(after, worker) && worker.0 == range.worker_id {
        let i = choose|i: int| 0 <= i < after.len() && (#[trigger] after[i]).covers(worker);
        if i < kept.len() {
            assert(kept.contains(kept[i]));
        }
    }
    if worker.0 != range.worker_id && has_rank(s.ranges, worker) {
        let k = choose|k: int| 0 <= k < s.ranges.len() && (#[trigger] s.ranges[k]).covers(worker);
        assert(s.ranges.contains(s.ranges[k]));
        assert(kept.contains(s.ranges[k]));
        let i = choose|i: int| 0 <= i < kept.len() && kept[i] == s.ranges[k];
        assert(after[i].covers(worker));
    }
    if worker.0 == range.worker_id && range.covers(worker) {
        assert(after[kept.len() as int].covers(worker));
    }
}

proof fn lemma_filtered_ranges(ranges: Seq<WorkerDpRange>, keep: spec_fn(WorkerDpRange) -> bool)
    ensures
        forall|r: WorkerDpRange| #[trigger]
            ranges.filter(keep).contains(r) <==> ranges.contains(r) && keep(r),
    decreases ranges.len(),
{
    reveal(Seq::filter);
    if ranges.len() > 0 {
        let init = ranges.drop_last();
        lemma_filtered_ranges(init, keep);
        assert(ranges =~= init.push(ranges.last()));
        crate::seqs::lemma_push_contains(init, ranges.last());
        crate::seqs::lemma_push_contains(init.filter(keep), ranges.last());
    }
}

/// A request becomes active with the prefill tokens that it is said to need, where they
/// count, and else with none; with its own blocks, on its own rank, from now on.
pub proof fn new_request_brings_what_it_says(request: SequenceRequest, now_millis: u64)
    ensures
        ({
            let active = made_active(request, now_millis);
            &&& active.id == request.request_id@
            &&& active.worker == (request.worker.worker_id, request.worker.dp_rank)
            &&& active.since_millis == now_millis
            &&& active.output_blocks == 0
            &&& request.token_sequence matches Some(hashes) ==> active.hashes == hashes@
            &&& request.token_sequence is None ==> active.hashes.len() == 0
            &&& request.track_prefill_tokens && request.prefill_load_hint is Some
                ==> active.prefill_tokens
                == request.prefill_load_hint->0.initial_effective_prefill_tokens
            &&& !request.track_prefill_tokens || request.prefill_load_hint is None
                ==> active.prefill_tokens == 0
        }),
{
}

/// What a replica reports has the effect that the same change has here: a request that is
/// new and on a known rank becomes active, a prefill is done, a request is freed.
pub proof fn replica_reports_have_the_same_effect(
    s: SequencesView,
    event: ActiveSequenceEvent,
    now_millis: u64,
    r: ActiveView,
)
    ensures
        replicated(s, event, now_millis).ranges == s.ranges,
        event.data is Free ==> (replicated(s, event, now_millis).requests.contains(r)
            <==> s.requests.contains(r) && r.id != event.request_id@),
        event.data is AddRequest ==> replicated(s, event, now_millis).requests == if (exists|i: int|
            0 <= i < s.ranges.len() && (#[trigger] s.ranges[i]).worker_id == event.worker.worker_id
                && s.ranges[i].dp_start <= event.worker.dp_rank < s.ranges[i].dp_start
                + s.ranges[i].dp_size) && !(exists|i: int|
            0 <= i < s.requests.len() && (#[trigger] s.requests[i]).id == event.request_id@) {
            s.requests.push(
                ActiveView {
                    id: event.request_id@,
                    worker: (event.worker.worker_id, event.worker.dp_rank),
                    hashes: match event.data->token_sequence {
                        Some(hashes) => hashes@,
                        None => Seq::empty(),
                    },
                    output_blocks: 0,
                    prefill_tokens: if event.data->track_prefill_tokens
                        && event.data->prefill_load_hint is Some {
                        event.data->prefill_load_hint->0.initial_effective_prefill_tokens
                    } else {
                        0
                    },
                    since_millis: now_millis,
                },
            )
        } else {
            s.requests
        },
        event.data is MarkPrefillCompleted ==> {
            let after = replicated(s, event, now_millis).requests;
            &&& after.len() == s.requests.len()
            &&& forall|i: int|
                0 <= i < after.len() ==> #[trigger] after[i] == if s.requests[i].id
                    == event.request_id@ {
                    ActiveView { prefill_tokens: 0, ..s.requests[i] }
                } else {
                    s.requests[i]
                }
        },
{
    lemma_filtered(s.requests, |r: ActiveView| r.id != event.request_id@);
    let worker = (event.worker.worker_id, event.worker.dp_rank);
    if has_rank(s.ranges, worker) {
        let i = choose|i: int| 0 <= i < s.ranges.len() && (#[trigger] s.ranges[i]).covers(worker);
        assert(s.ranges[i].worker_id == event.worker.worker_id);
    }
    if exists|i: int|
        0 <= i < s.ranges.len() && (#[trigger] s.ranges[i]).worker_id == event.worker.worker_id
            && s.ranges[i].dp_start <= event.worker.dp_rank < s.ranges[i].dp_start
            + s.ranges[i].dp_size {
        let i = choose|i: int|
            0 <= i < s.ranges.len() && (#[trigger] s.ranges[i]).worker_id == event.worker.worker_id
                && s.ranges[i].dp_start <= event.worker.dp_rank < s.ranges[i].dp_start
                + s.ranges[i].dp_size;
        assert(s.ranges[i].covers(worker));
    }
}

/// What a rank would bear with one more request: the blocks that it uses and the request
/// would, each once; the prefill tokens that wait and those that the request adds there.
pub proof fn loads_tell_what_a_rank_would_bear(
    s: SequencesView,
    sequence: Seq<u64>,
    deltas: &PrefillTokenDeltas,
    load: RankLoad,
)
    requires
        rank_load(s, sequence, deltas, load),
    ensures
        ({
            let worker = (load.worker.worker_id, load.worker.dp_rank);
            let blocks = active_hashes(s.requests, worker).union(sequence.to_set()).len()
                + active_outputs(s.requests, worker);
            let tokens = active_prefill(s.requests, worker) + deltas.spec_delta(worker);
            &&& blocks <= usize::MAX ==> load.decode_blocks == blocks
            &&& blocks > usize::MAX ==> load.decode_blocks == usize::MAX
            &&& tokens <= usize::MAX ==> load.prefill_tokens == tokens
            &&& tokens > usize::MAX ==> load.prefill_tokens == usize::MAX
            &&& load.active_requests == active_count(s.requests, worker)
        }),
{
}

/// With a worker go all its ranks, and no others.
pub proof fn workers_leave_with_their_ranks(
    ranges: Seq<WorkerDpRange>,
    worker_id: u64,
    range: WorkerDpRange,
)
    ensures
        without_ranks(ranges, worker_id).contains(range) <==> ranges.contains(range)
            && range.worker_id != worker_id,
{
    lemma_filtered_ranges(ranges, other_ranks(worker_id));
}

} // verus!
