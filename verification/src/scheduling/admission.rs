//! From a request that need not wait to a booked worker.

use vstd::prelude::*;

use crate::collections::{fx_insert, FxMap};
use crate::protocols::{PrefillLoadHint, SequenceHash, WorkerId, WorkerWithDpRank};
use crate::scheduling::config::F64Bits;
use crate::scheduling::prefill_load::PrefillLoadEstimator;
use crate::scheduling::types::{
    find_worker, worker_at, KvSchedulerError, SchedulableWorker, SchedulingRequest,
};
use crate::sequences::{
    active_prefill, blocks_with, capped, has_rank, has_request, made_active,
    new_ranks_replace_old_ones, rank_load, upserted, without_request, ActiveSequencesMultiWorker,
    ActiveView, SequenceError, SequenceRequest, SequencesView,
    WorkerDpRange,
};

verus! {

/// The worker that was selected for a request.
#[derive(Clone, Copy, Debug, PartialEq, Eq, Structural)]
pub struct WorkerSelection {
    pub worker: WorkerWithDpRank,
    pub effective_overlap_blocks: F64Bits,
    pub cached_tokens: usize,
}

/// The answer to a request.
#[derive(Clone, Copy, Debug, PartialEq, Eq, Structural)]
pub struct SchedulingResponse {
    pub best_worker: WorkerWithDpRank,
    pub effective_overlap_blocks: F64Bits,
    pub cached_tokens: usize,
}

/// The prefill work that a request brings to a worker that has some of its tokens
/// in its cache, with a predicted duration; none where it does not count or there
/// is none.
pub open spec fn hint_with(
    isl_tokens: usize,
    cached_tokens: usize,
    track_prefill_tokens: bool,
    predicted: Option<u64>,
) -> Option<PrefillLoadHint> {
    if !track_prefill_tokens || cached_tokens >= isl_tokens {
        None
    } else {
        Some(
            PrefillLoadHint {
                initial_effective_prefill_tokens: (isl_tokens - cached_tokens) as usize,
                expected_prefill_duration: predicted,
            },
        )
    }
}

/// The hint for a request, with a predicted duration that is at hand.
pub fn prefill_load_hint_with(
    isl_tokens: usize,
    cached_tokens: usize,
    track_prefill_tokens: bool,
    predicted: Option<u64>,
) -> (hint: Option<PrefillLoadHint>)
    ensures
        hint == hint_with(isl_tokens, cached_tokens, track_prefill_tokens, predicted),
{
    if !track_prefill_tokens {
        return None;
    }
    let prefix = if cached_tokens <= isl_tokens {
        cached_tokens
    } else {
        isl_tokens
    };
    let effective_isl = isl_tokens - prefix;
    if effective_isl == 0 {
        return None;
    }
    Some(
        PrefillLoadHint {
            initial_effective_prefill_tokens: effective_isl,
            expected_prefill_duration: predicted,
        },
    )
}

/// Whether a duration is what an estimator predicts for one request whose cached
/// tokens are taken off, where it is asked at all.
pub open spec fn foretold<E: PrefillLoadEstimator>(
    estimator: Option<&E>,
    isl_tokens: usize,
    cached_tokens: usize,
    track_prefill_tokens: bool,
    predicted: Option<u64>,
) -> bool {
    if estimator is Some && track_prefill_tokens && cached_tokens < isl_tokens {
        exists|word: Result<u64, String>| #[trigger]
            call_ensures(
                E::predict_prefill_duration,
                (estimator->0, 1usize, (isl_tokens - cached_tokens) as usize, cached_tokens),
                word,
            ) && predicted == match word {
                Ok(micros) => Some(micros),
                Err(_) => None,
            }
    } else {
        predicted is None
    }
}

/// The hint for a request, with the duration that an estimator predicts. A failed
/// prediction is none.
pub fn prefill_load_hint_for<E: PrefillLoadEstimator>(
    estimator: Option<&E>,
    isl_tokens: usize,
    cached_tokens: usize,
    track_prefill_tokens: bool,
) -> (hint: Option<PrefillLoadHint>)
    ensures
        exists|predicted: Option<u64>|
            hint == #[trigger] hint_with(
                isl_tokens,
                cached_tokens,
                track_prefill_tokens,
                predicted,
            ) && foretold(estimator, isl_tokens, cached_tokens, track_prefill_tokens, predicted),
{
    let mut predicted: Option<u64> = None;
    if track_prefill_tokens && cached_tokens < isl_tokens {
        if let Some(estimator) = estimator {
            let word = estimator.predict_prefill_duration(
                1,
                isl_tokens - cached_tokens,
                cached_tokens,
            );
            let ghost said = word;
            assert(call_ensures(
                E::predict_prefill_duration,
                (estimator, 1usize, (isl_tokens - cached_tokens) as usize, cached_tokens),
                said,
            ));
            if let Ok(micros) = word {
                predicted = Some(micros);
            }
        }
    }
    assert(foretold(estimator, isl_tokens, cached_tokens, track_prefill_tokens, predicted));
    prefill_load_hint_with(isl_tokens, cached_tokens, track_prefill_tokens, predicted)
}

/// The blocks of a request.
pub open spec fn request_hashes(request: SchedulingRequest) -> Seq<u64> {
    match request.token_seq {
        Some(hashes) => hashes@,
        None => Seq::empty(),
    }
}

/// The prefill tokens that a request adds to a rank.
pub open spec fn added_prefill(request: SchedulingRequest, worker: (u64, u32)) -> nat {
    if !request.track_prefill_tokens {
        0
    } else if request.spec_cached_for(worker) <= request.isl_tokens {
        (request.isl_tokens - request.spec_cached_for(worker)) as nat
    } else {
        0
    }
}

/// Whether a request has the loads noted that each registered rank would have with
/// it, and is else as it was.
pub open spec fn loads_noted(
    before: SchedulingRequest,
    s: SequencesView,
    after: SchedulingRequest,
) -> bool {
    &&& after == (SchedulingRequest {
        decode_blocks: after.decode_blocks,
        prefill_tokens: after.prefill_tokens,
        ..before
    })
    &&& forall|w: (u64, u32)| #[trigger]
        after.decode_blocks@.dom().contains(w) <==> has_rank(s.ranges, w)
    &&& forall|w: (u64, u32)| #[trigger]
        after.prefill_tokens@.dom().contains(w) <==> has_rank(s.ranges, w)
    &&& forall|w: (u64, u32)|
        has_rank(s.ranges, w) ==> #[trigger] after.decode_blocks@[w] == blocks_with(
            s.requests,
            w,
            request_hashes(before),
        )
    &&& forall|w: (u64, u32)|
        has_rank(s.ranges, w) ==> #[trigger] after.prefill_tokens@[w] == capped(
            active_prefill(s.requests, w) + added_prefill(before, w),
        )
}

/// Notes in a request what load each registered rank would have with it.
pub fn note_loads(request: &mut SchedulingRequest, slots: &ActiveSequencesMultiWorker)
    requires
        slots.wf(),
    ensures
        loads_noted(*old(request), slots@, *final(request)),
{
    let deltas = request.prefill_token_deltas();
    let none: Vec<SequenceHash> = Vec::new();
    let loads = match &request.token_seq {
        Some(hashes) => slots.potential_blocks_and_tokens(hashes.as_slice(), &deltas),
        None => slots.potential_blocks_and_tokens(none.as_slice(), &deltas),
    };
    let ghost hashes = request_hashes(*request);
    assert(request.token_seq is None ==> none@ =~= hashes);
    let mut decode_blocks: FxMap<(u64, u32), usize> = FxMap::default();
    let mut prefill_tokens: FxMap<(u64, u32), usize> = FxMap::default();
    for i in 0..loads.len()
        invariant
            forall|j: int|
                0 <= j < loads@.len() ==> has_rank(
                    slots@.ranges,
                    (#[trigger] loads@[j]).worker.spec_key(),
                ) && rank_load(slots@, hashes, &deltas, loads@[j]),
            forall|w: (u64, u32)| #[trigger]
                decode_blocks@.dom().contains(w) ==> has_rank(slots@.ranges, w) && decode_blocks@[w]
                    == blocks_with(slots@.requests, w, hashes),
            forall|w: (u64, u32)| #[trigger]
                prefill_tokens@.dom().contains(w) ==> has_rank(slots@.ranges, w)
                    && prefill_tokens@[w] == capped(
                    active_prefill(slots@.requests, w) + deltas.spec_delta(w) as nat,
                ),
            forall|j: int|
                0 <= j < i ==> decode_blocks@.dom().contains((#[trigger] loads@[j]).worker.spec_key())
                    && prefill_tokens@.dom().contains(loads@[j].worker.spec_key()),
    {
        let load = loads[i];
        assert(rank_load(slots@, hashes, &deltas, loads@[i as int]));
        let worker = load.worker.key();
        fx_insert(&mut decode_blocks, worker, load.decode_blocks);
        fx_insert(&mut prefill_tokens, worker, load.prefill_tokens);
    }
    proof {
        assert forall|w: (u64, u32)| has_rank(slots@.ranges, w) implies #[trigger] decode_blocks@.dom().contains(
        w) && prefill_tokens@.dom().contains(w) by {
            let j = choose|j: int|
                0 <= j < loads@.len() && (#[trigger] loads@[j]).worker.spec_key() == w;
            assert(decode_blocks@.dom().contains(loads@[j].worker.spec_key()));
        }
    }
    request.decode_blocks = decode_blocks;
    request.prefill_tokens = prefill_tokens;
}

/// What is done with a request for which a worker was looked for.
pub enum Admission {
    /// It is answered.
    Answer(Result<SchedulingResponse, KvSchedulerError>),
    /// It is booked, and answered if that goes well.
    Book(SequenceRequest, SchedulingResponse),
}

/// Why a request that is to be booked and has no id is not.
pub const MISSING_REQUEST_ID: &'static str =
    "tracked scheduling request did not include a request_id";

/// The answer that tells of a selected worker.
pub open spec fn response_of(selection: WorkerSelection) -> SchedulingResponse {
    SchedulingResponse {
        best_worker: selection.worker,
        effective_overlap_blocks: selection.effective_overlap_blocks,
        cached_tokens: selection.cached_tokens,
    }
}

/// What is booked of a request at the worker that was selected for it.
pub open spec fn booked_as<E: PrefillLoadEstimator>(
    request: SchedulingRequest,
    selected: WorkerSelection,
    estimator: Option<&E>,
    booking: SequenceRequest,
) -> bool {
    &&& booking.request_id@ == request.maybe_request_id->0@
    &&& booking.token_sequence == request.token_seq
    &&& booking.track_prefill_tokens == request.track_prefill_tokens
    &&& booking.expected_output_tokens == request.expected_output_tokens
    &&& booking.worker == selected.worker
    &&& booking.lora_name == request.lora_name
    &&& exists|predicted: Option<u64>|
        booking.prefill_load_hint == #[trigger] hint_with(
            request.isl_tokens,
            selected.cached_tokens,
            request.track_prefill_tokens,
            predicted,
        ) && foretold(
            estimator,
            request.isl_tokens,
            selected.cached_tokens,
            request.track_prefill_tokens,
            predicted,
        )
}

/// What is done with a request once a worker was looked for, and what is left of
/// it: what is booked takes the blocks and the adapter out.
pub open spec fn admitted<E: PrefillLoadEstimator>(
    before: SchedulingRequest,
    selection: Result<WorkerSelection, KvSchedulerError>,
    estimator: Option<&E>,
    admission: Admission,
    after: SchedulingRequest,
) -> bool {
    match selection {
        Err(e) => admission == Admission::Answer(Err(e)) && after == before,
        Ok(selected) => if !before.update_states {
            admission == Admission::Answer(Ok(response_of(selected))) && after == before
        } else if before.maybe_request_id is None {
            &&& admission matches Admission::Answer(Err(KvSchedulerError::BookingFailed(why)))
                && why@ == MISSING_REQUEST_ID@
            &&& after == before
        } else {
            &&& admission matches Admission::Book(booking, response) && response == response_of(
                selected,
            ) && booked_as(before, selected, estimator, booking)
            &&& after == (SchedulingRequest { token_seq: None, lora_name: None, ..before })
        },
    }
}

/// Decides what is done with a request once a worker was looked for. What is booked
/// takes the blocks and the adapter out of the request.
pub fn decide_admission<E: PrefillLoadEstimator>(
    request: &mut SchedulingRequest,
    selection: Result<WorkerSelection, KvSchedulerError>,
    estimator: Option<&E>,
) -> (admission: Admission)
    ensures
        admitted(*old(request), selection, estimator, admission, *final(request)),
{
    let selected = match selection {
        Ok(selected) => selected,
        Err(e) => {
            return Admission::Answer(Err(e));
        },
    };
    let response = SchedulingResponse {
        best_worker: selected.worker,
        effective_overlap_blocks: selected.effective_overlap_blocks,
        cached_tokens: selected.cached_tokens,
    };
    if !request.update_states {
        return Admission::Answer(Ok(response));
    }
    let request_id = match &request.maybe_request_id {
        Some(request_id) => request_id.as_str().to_owned(),
        None => {
            return Admission::Answer(
                Err(KvSchedulerError::BookingFailed(MISSING_REQUEST_ID.to_owned())),
            );
        },
    };
    let prefill_load_hint = prefill_load_hint_for(
        estimator,
        request.isl_tokens,
        selected.cached_tokens,
        request.track_prefill_tokens,
    );
    let token_sequence = request.token_seq.take();
    let lora_name = request.lora_name.take();
    Admission::Book(
        SequenceRequest {
            request_id,
            token_sequence,
            track_prefill_tokens: request.track_prefill_tokens,
            expected_output_tokens: request.expected_output_tokens,
            prefill_load_hint,
            worker: selected.worker,
            lora_name,
        },
        response,
    )
}

/// Selects a worker for a request.
pub trait WorkerSelector {
    /// The worker that a request goes to, or why there is none. Some workers may be
    /// named that have too much to do.
    fn select_worker(
        &self,
        workers: &Vec<SchedulableWorker>,
        request: &SchedulingRequest,
        overloaded_worker_ids: Option<&Vec<WorkerId>>,
        block_size: u32,
    ) -> Result<WorkerSelection, KvSchedulerError>;
}

/// Finds a worker for a request and decides what is done with it: the loads are
/// noted in the request, the selector is asked, and its word decides.
pub fn admit_one<S: WorkerSelector, E: PrefillLoadEstimator>(
    request: SchedulingRequest,
    slots: &ActiveSequencesMultiWorker,
    workers: &Vec<SchedulableWorker>,
    selector: &S,
    overloaded_worker_ids: Option<&Vec<WorkerId>>,
    estimator: Option<&E>,
    block_size: u32,
) -> (r: (SchedulingRequest, Admission))
    requires
        slots.wf(),
    ensures
        exists|noted: SchedulingRequest, selection: Result<WorkerSelection, KvSchedulerError>|
            loads_noted(request, slots@, noted) && call_ensures(
                S::select_worker,
                (selector, workers, &noted, overloaded_worker_ids, block_size),
                selection,
            ) && #[trigger] admitted(noted, selection, estimator, r.1, r.0),
{
    let mut left = request;
    note_loads(&mut left, slots);
    let ghost noted = left;
    assert(loads_noted(request, slots@, noted));
    let selection = selector.select_worker(workers, &left, overloaded_worker_ids, block_size);
    let ghost chosen = selection;
    let admission = decide_admission(&mut left, selection, estimator);
    let outcome = (left, admission);
    assert(admitted(noted, chosen, estimator, outcome.1, outcome.0));
    outcome
}

/// Whether an error says why a booking is refused: its rank is not known, or there is
/// such a request already.
pub open spec fn booking_refused(
    s: SequencesView,
    booking: SequenceRequest,
    error: KvSchedulerError,
) -> bool {
    error matches KvSchedulerError::BookingFailed(why) && why@ == if !has_rank(
        s.ranges,
        booking.worker.spec_key(),
    ) {
        (SequenceError::WorkerNotFound { worker: booking.worker }).spec_message()
    } else {
        (SequenceError::DuplicateRequest { request_id: booking.request_id }).spec_message()
    }
}

/// Books a request at its worker, and tells whether it was booked: nothing is where
/// nobody waits for the answer any more.
pub fn book(
    slots: &mut ActiveSequencesMultiWorker,
    booking: SequenceRequest,
    response_is_closed: bool,
    now_millis: u64,
) -> (r: Result<bool, KvSchedulerError>)
    requires
        old(slots).wf(),
    ensures
        final(slots).wf(),
        r is Ok <==> response_is_closed || (has_rank(
            old(slots)@.ranges,
            booking.worker.spec_key(),
        ) && !has_request(old(slots)@.requests, booking.request_id@)),
        r matches Ok(booked) ==> booked == !response_is_closed,
        r == Ok::<bool, KvSchedulerError>(true) ==> final(slots)@ == (SequencesView {
            ranges: old(slots)@.ranges,
            requests: old(slots)@.requests.push(made_active(booking, now_millis)),
        }),
        r != Ok::<bool, KvSchedulerError>(true) ==> final(slots)@ == old(slots)@,
        r matches Err(e) ==> booking_refused(old(slots)@, booking, e),
{
    if response_is_closed {
        return Ok(false);
    }
    match slots.add_request_if_registered(booking, now_millis) {
        Ok(()) => Ok(true),
        Err(e) => Err(KvSchedulerError::BookingFailed(e.message())),
    }
}

/// Takes a booking back whose answer reached nobody.
pub fn settle_booking(slots: &mut ActiveSequencesMultiWorker, request_id: &str, delivered: bool)
    requires
        old(slots).wf(),
    ensures
        final(slots).wf(),
        delivered ==> final(slots)@ == old(slots)@,
        !delivered ==> final(slots)@ == (SequencesView {
            ranges: old(slots)@.ranges,
            requests: without_request(old(slots)@.requests, request_id@),
        }),
{
    if !delivered {
        slots.free(request_id);
    }
}

/// The ranks of a worker: those that are known of it, or one.
pub open spec fn known_range(workers: Seq<SchedulableWorker>, worker_id: u64) -> WorkerDpRange {
    if exists|i: int| worker_at(workers, worker_id, i) {
        let i = choose|i: int| worker_at(workers, worker_id, i);
        WorkerDpRange { worker_id, dp_start: workers[i].dp_start, dp_size: workers[i].dp_size }
    } else {
        WorkerDpRange { worker_id, dp_start: 0, dp_size: 1 }
    }
}

/// The ranks and requests once some workers are registered. One whose ranks make no
/// sense is left out.
pub open spec fn all_registered(
    s: SequencesView,
    worker_ids: Seq<u64>,
    workers: Seq<SchedulableWorker>,
) -> SequencesView
    decreases worker_ids.len(),
{
    if worker_ids.len() == 0 {
        s
    } else {
        let before = all_registered(s, worker_ids.drop_last(), workers);
        let range = known_range(workers, worker_ids.last());
        if range.valid() {
            upserted(before, range)
        } else {
            before
        }
    }
}

/// Registers workers that somebody else named, with the ranks that are known of
/// them. Workers that were registered before stay.
pub fn register_workers(
    slots: &mut ActiveSequencesMultiWorker,
    worker_ids: &Vec<u64>,
    workers: &Vec<SchedulableWorker>,
)
    requires
        old(slots).wf(),
    ensures
        final(slots).wf(),
        final(slots)@ == all_registered(old(slots)@, worker_ids@, workers@),
{
    let ghost before = slots@;
    assert(worker_ids@.take(0) =~= Seq::<u64>::empty());
    for i in 0..worker_ids.len()
        invariant
            slots.wf(),
            slots@ == all_registered(before, worker_ids@.take(i as int), workers@),
    {
        let worker_id = worker_ids[i];
        let range = match find_worker(workers, worker_id) {
            Some(place) => {
                proof {
                    assert(worker_at(workers@, worker_id, place as int));
                    let k = choose|k: int| worker_at(workers@, worker_id, k);
                    if k < place {
                        assert(workers@[k].worker_id != worker_id);
                    } else if k > place {
                        assert(workers@[place as int].worker_id != worker_id);
                    }
                }
                WorkerDpRange::new(worker_id, workers[place].dp_start, workers[place].dp_size)
            },
            None => {
                assert forall|k: int| !worker_at(workers@, worker_id, k) by {}
                WorkerDpRange::new(worker_id, 0, 1)
            },
        };
        assert(range == known_range(workers@, worker_id));
        let _ = slots.upsert_worker(range);
        proof {
            let more = worker_ids@.take(i + 1);
            assert(more.drop_last() =~= worker_ids@.take(i as int));
            assert(more.last() == worker_id);
        }
    }
    assert(worker_ids@.take(worker_ids@.len() as int) =~= worker_ids@);
}

/// What a booked request adds to its worker's load is what the worker does not have in its
/// cache, where prefill counts; it is booked on the worker that was selected, and that
/// worker is the answer.
pub proof fn booked_load_is_what_is_not_cached<E: PrefillLoadEstimator>(
    before: SchedulingRequest,
    selected: WorkerSelection,
    estimator: Option<&E>,
    admission: Admission,
    after: SchedulingRequest,
    now_millis: u64,
)
    requires
        admitted(before, Ok(selected), estimator, admission, after),
        before.update_states,
        before.maybe_request_id is Some,
    ensures
        admission matches Admission::Book(booking, response) && {
            let active = made_active(booking, now_millis);
            &&& response.best_worker == selected.worker
            &&& response.cached_tokens == selected.cached_tokens
            &&& active.worker == (selected.worker.worker_id, selected.worker.dp_rank)
            &&& active.id == before.maybe_request_id->0@
            &&& before.token_seq matches Some(hashes) ==> active.hashes == hashes@
            &&& active.prefill_tokens == if before.track_prefill_tokens
                && selected.cached_tokens < before.isl_tokens {
                before.isl_tokens - selected.cached_tokens
            } else {
                0
            }
        },
{
}

/// Only a request that asks for it is booked; any other is answered with the worker that
/// was selected, or with the selector's error, and is left as it is.
pub proof fn lookups_book_nothing<E: PrefillLoadEstimator>(
    before: SchedulingRequest,
    selection: Result<WorkerSelection, KvSchedulerError>,
    estimator: Option<&E>,
    admission: Admission,
    after: SchedulingRequest,
)
    requires
        admitted(before, selection, estimator, admission, after),
        selection is Err || !before.update_states,
    ensures
        after == before,
        selection matches Ok(selected) ==> (admission matches Admission::Answer(Ok(response))
            && response.best_worker == selected.worker && response.cached_tokens
            == selected.cached_tokens && response.effective_overlap_blocks
            == selected.effective_overlap_blocks),
        selection matches Err(error) ==> admission == Admission::Answer(Err(error)),
{
}

/// The loads that a selector sees are those of the registered ranks: what is active there,
/// and what the request would add.
pub proof fn selectors_see_every_rank(
    before: SchedulingRequest,
    s: SequencesView,
    after: SchedulingRequest,
    rank: (u64, u32),
)
    requires
        loads_noted(before, s, after),
    ensures
        has_rank(s.ranges, rank) <==> after.prefill_tokens@.dom().contains(rank),
        has_rank(s.ranges, rank) <==> after.decode_blocks@.dom().contains(rank),
        has_rank(s.ranges, rank) ==> {
            let cached = if before.effective_cached_tokens@.dom().contains(rank) {
                before.effective_cached_tokens@[rank] as int
            } else {
                0
            };
            let added = if before.track_prefill_tokens && cached <= before.isl_tokens {
                before.isl_tokens - cached
            } else {
                0
            };
            &&& active_prefill(s.requests, rank) + added <= usize::MAX ==> after.prefill_tokens@[rank]
                == active_prefill(s.requests, rank) + added
            &&& active_prefill(s.requests, rank) + added > usize::MAX
                ==> after.prefill_tokens@[rank] == usize::MAX
        },
        after.isl_tokens == before.isl_tokens,
        after.pinned_worker == before.pinned_worker,
        after.allowed_worker_ids == before.allowed_worker_ids,
{
}

/// A request is expected to prefill what is not cached of it; nothing is expected of one
/// that is cached whole or whose prefill does not count.
pub proof fn hints_are_of_what_is_not_cached(
    isl_tokens: usize,
    cached_tokens: usize,
    track_prefill_tokens: bool,
    predicted: Option<u64>,
)
    ensures
        ({
            let hint = hint_with(isl_tokens, cached_tokens, track_prefill_tokens, predicted);
            &&& hint is Some <==> track_prefill_tokens && cached_tokens < isl_tokens
            &&& hint matches Some(h) ==> h.initial_effective_prefill_tokens + cached_tokens
                == isl_tokens && h.expected_prefill_duration == predicted
        }),
{
}

/// A worker that is registered for scheduling has the ranks that are known of it, or one
/// where nothing is known.
pub proof fn registered_workers_have_their_ranks(
    s: SequencesView,
    worker_ids: Seq<u64>,
    workers: Seq<SchedulableWorker>,
    i: int,
    rank: u32,
)
    requires
        0 <= i < worker_ids.len(),
        forall|a: int, b: int|
            0 <= a < b < workers.len() ==> (#[trigger] workers[a]).worker_id != (
            #[trigger] workers[b]).worker_id,
    ensures
        forall|w: int|
            0 <= w < workers.len() && (#[trigger] workers[w]).worker_id == worker_ids[i]
                && workers[w].dp_size > 0 && workers[w].dp_start + workers[w].dp_size <= u32::MAX
                ==> (has_rank(
                all_registered(s, worker_ids, workers).ranges,
                (worker_ids[i], rank),
            ) <==> workers[w].dp_start <= rank < workers[w].dp_start + workers[w].dp_size),
        (forall|w: int|
            0 <= w < workers.len() ==> (#[trigger] workers[w]).worker_id != worker_ids[i]) ==> (
        has_rank(all_registered(s, worker_ids, workers).ranges, (worker_ids[i], rank)) <==> rank
            == 0),
    decreases worker_ids.len(),
{
    let init = worker_ids.drop_last();
    let last = worker_ids.last();
    let id = worker_ids[i];
    let anyone = ActiveView {
        id: Seq::empty(),
        worker: (0, 0),
        hashes: Seq::empty(),
        output_blocks: 0,
        prefill_tokens: 0,
        since_millis: 0,
    };
    new_ranks_replace_old_ones(
        all_registered(s, init, workers),
        known_range(workers, last),
        anyone,
        (id, rank),
    );
    assert forall|w: int|
        0 <= w < workers.len() && (#[trigger] workers[w]).worker_id == last implies known_range(
        workers,
        last,
    ).dp_start == workers[w].dp_start && known_range(workers, last).dp_size
        == workers[w].dp_size by {
        assert(worker_at(workers, last, w));
        let k = choose|k: int| worker_at(workers, last, k);
        if k < w {
            assert(workers[k].worker_id != workers[w].worker_id);
        } else if w < k {
            assert(workers[w].worker_id != workers[k].worker_id);
        }
    }
    if i < worker_ids.len() - 1 {
        assert(init[i] == id);
        registered_workers_have_their_ranks(s, init, workers, i, rank);
    } else {
        assert(id == last);
    }
}

} // verus!
