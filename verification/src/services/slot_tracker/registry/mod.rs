//! The registry of the slot tracker: one tracker for each model and tenant.

use dashmap::DashMap;
use std::collections::hash_map::RandomState;
use vstd::prelude::*;

use crate::collections::{
    dash_places, dash_places_get, dash_places_insert, dash_places_new, dash_places_remove,
};
use crate::protocols::{PrefillLoadHint, SequenceHash, WorkerId, WorkerWithDpRank};
use crate::sequences::{
    active_count, active_hashes, active_prefill, has_rank, has_request, has_worker, made_active,
    not_expired, not_of, other_ranks, prefilled, replicated, request_loads_its_own_rank,
    sequences_wf, without_ranks, without_request, without_worker, workers_leave_with_their_ranks,
    workers_leave_with_their_requests, ActiveSequenceEvent, ActiveSequencesMultiWorker, ActiveView,
    SequenceError, SequenceRequest, SequencesView, WorkerDpRange,
};
use crate::services::slot_tracker::{
    topology_error, validate_block_size, RegistryError, RegistryErrorView, ServiceError, TrackerKey,
};

pub mod listing;

verus! {

/// A tracker with its key.
struct TrackerEntry {
    key: TrackerKey,
    block_size: u32,
    tracker: ActiveSequencesMultiWorker,
}

/// Model of a tracker.
pub struct TrackerView {
    pub block_size: u32,
    pub sequences: SequencesView,
}

impl TrackerEntry {
    spec fn model(&self) -> TrackerView {
        TrackerView { block_size: self.block_size, sequences: self.tracker@ }
    }
}

/// The trackers, one for each model and tenant with a registered worker.
pub struct SlotTrackerRegistry {
    entries: Vec<TrackerEntry>,
    /// Where the tracker of a key is.
    places: DashMap<(String, String), usize, RandomState>,
    /// The number by which this process is known to its replicas, where it has
    /// any.
    process_id: Option<u64>,
}

impl View for SlotTrackerRegistry {
    type V = Map<(Seq<char>, Seq<char>), TrackerView>;

    closed spec fn view(&self) -> Map<(Seq<char>, Seq<char>), TrackerView> {
        trackers_of(self.entries@, dash_places(&self.places))
    }
}

/// The trackers by their keys.
spec fn trackers_of(
    entries: Seq<TrackerEntry>,
    places: Map<(Seq<char>, Seq<char>), usize>,
) -> Map<(Seq<char>, Seq<char>), TrackerView> {
    Map::new(
        |k: (Seq<char>, Seq<char>)| places.dom().contains(k),
        |k: (Seq<char>, Seq<char>)| entries[places[k] as int].model(),
    )
}

/// Whether a key is bound to the place of its tracker.
spec fn placed(
    entries: Seq<TrackerEntry>,
    places: Map<(Seq<char>, Seq<char>), usize>,
    k: (Seq<char>, Seq<char>),
) -> bool {
    places[k] < entries.len() && entries[places[k] as int].key@ == k
}

/// Whether a tracker can be found by its key.
spec fn found(
    entries: Seq<TrackerEntry>,
    places: Map<(Seq<char>, Seq<char>), usize>,
    i: int,
) -> bool {
    places.dom().contains(entries[i].key@) && places[entries[i].key@] == i
}

/// Whether places and trackers agree.
spec fn places_agree(
    entries: Seq<TrackerEntry>,
    places: Map<(Seq<char>, Seq<char>), usize>,
) -> bool {
    &&& forall|k: (Seq<char>, Seq<char>)|
        places.dom().contains(k) ==> #[trigger] placed(entries, places, k)
    &&& forall|i: int| 0 <= i < entries.len() ==> #[trigger] found(entries, places, i)
}

/// What holds of every tracker.
spec fn entry_wf(entry: TrackerEntry) -> bool {
    &&& entry.tracker.wf()
    &&& entry.block_size > 0
    &&& entry.tracker@.ranges.len() > 0
}

/// The tracker of a key as it is, or as it would be made.
pub open spec fn tracker_or_new(
    trackers: Map<(Seq<char>, Seq<char>), TrackerView>,
    key: (Seq<char>, Seq<char>),
    block_size: u32,
) -> TrackerView {
    if trackers.dom().contains(key) {
        trackers[key]
    } else {
        TrackerView {
            block_size,
            sequences: SequencesView { ranges: Seq::empty(), requests: Seq::empty() },
        }
    }
}

/// Why a worker cannot be registered, if it cannot.
pub open spec fn registration_error(
    trackers: Map<(Seq<char>, Seq<char>), TrackerView>,
    key: (Seq<char>, Seq<char>),
    range: WorkerDpRange,
    block_size: u32,
) -> Option<RegistryErrorView> {
    let tracker = tracker_or_new(trackers, key, block_size);
    if block_size == 0 {
        Some(RegistryErrorView::InvalidBlockSize)
    } else if range.dp_size == 0 {
        Some(RegistryErrorView::InvalidDpSize)
    } else if !range.valid() {
        Some(RegistryErrorView::InvalidDpRange { dp_start: range.dp_start, dp_size: range.dp_size })
    } else if tracker.block_size != block_size {
        Some(
            RegistryErrorView::BlockSizeMismatch {
                key,
                existing: tracker.block_size,
                requested: block_size,
            },
        )
    } else if has_worker(tracker.sequences.ranges, range.worker_id) {
        Some(RegistryErrorView::DuplicateWorker { worker_id: range.worker_id, key })
    } else {
        None
    }
}

/// The trackers with one more worker.
pub open spec fn registered(
    trackers: Map<(Seq<char>, Seq<char>), TrackerView>,
    key: (Seq<char>, Seq<char>),
    range: WorkerDpRange,
    block_size: u32,
) -> Map<(Seq<char>, Seq<char>), TrackerView> {
    let tracker = tracker_or_new(trackers, key, block_size);
    trackers.insert(
        key,
        TrackerView {
            block_size,
            sequences: SequencesView {
                ranges: tracker.sequences.ranges.push(range),
                requests: tracker.sequences.requests,
            },
        },
    )
}

/// The trackers without a worker. A tracker goes with its last worker.
pub open spec fn unregistered(
    trackers: Map<(Seq<char>, Seq<char>), TrackerView>,
    key: (Seq<char>, Seq<char>),
    worker_id: u64,
) -> Map<(Seq<char>, Seq<char>), TrackerView> {
    let tracker = trackers[key];
    let ranges = without_ranks(tracker.sequences.ranges, worker_id);
    if ranges.len() == 0 {
        trackers.remove(key)
    } else {
        with_sequences(
            trackers,
            key,
            SequencesView {
                ranges,
                requests: without_worker(tracker.sequences.requests, worker_id),
            },
        )
    }
}

/// The trackers with other sequences in one of them.
pub open spec fn with_sequences(
    trackers: Map<(Seq<char>, Seq<char>), TrackerView>,
    key: (Seq<char>, Seq<char>),
    sequences: SequencesView,
) -> Map<(Seq<char>, Seq<char>), TrackerView> {
    trackers.insert(key, TrackerView { block_size: trackers[key].block_size, sequences })
}

/// The trackers with other requests in one of them.
pub open spec fn with_requests(
    trackers: Map<(Seq<char>, Seq<char>), TrackerView>,
    key: (Seq<char>, Seq<char>),
    requests: Seq<ActiveView>,
) -> Map<(Seq<char>, Seq<char>), TrackerView> {
    with_sequences(
        trackers,
        key,
        SequencesView { ranges: trackers[key].sequences.ranges, requests },
    )
}

/// The request that a report of work makes active.
pub open spec fn reported(
    request_id: Seq<char>,
    worker: (u64, u32),
    hashes: Seq<u64>,
    new_isl_tokens: usize,
    now_millis: u64,
) -> ActiveView {
    ActiveView {
        id: request_id,
        worker,
        hashes,
        output_blocks: 0,
        prefill_tokens: new_isl_tokens,
        since_millis: now_millis,
    }
}

/// Changing one tracker changes the map at its key only.
proof fn lemma_entry_changed(
    before: Seq<TrackerEntry>,
    after: Seq<TrackerEntry>,
    places: Map<(Seq<char>, Seq<char>), usize>,
    place: int,
)
    requires
        places_agree(before, places),
        0 <= place < before.len(),
        after.len() == before.len(),
        after[place].key@ == before[place].key@,
        forall|i: int| 0 <= i < before.len() && i != place ==> after[i] == before[i],
    ensures
        places_agree(after, places),
        trackers_of(after, places) == trackers_of(before, places).insert(
            before[place].key@,
            after[place].model(),
        ),
{
    let key = before[place].key@;
    assert(found(before, places, place));
    assert forall|k: (Seq<char>, Seq<char>)| places.dom().contains(k) implies #[trigger] placed(
        after,
        places,
        k,
    ) by {
        assert(placed(before, places, k));
    }
    assert forall|i: int| 0 <= i < after.len() implies #[trigger] found(after, places, i) by {
        assert(found(before, places, i));
    }
    assert forall|k: (Seq<char>, Seq<char>)| places.dom().contains(k) && k != key implies #[trigger]
        places[k] != place && after[places[k] as int] == before[places[k] as int] by {
        assert(placed(before, places, k));
    }
    assert(trackers_of(after, places) =~= trackers_of(before, places).insert(
        key,
        after[place].model(),
    ));
}

/// Adding a tracker adds it to the map.
proof fn lemma_entry_added(
    before: Seq<TrackerEntry>,
    entry: TrackerEntry,
    places: Map<(Seq<char>, Seq<char>), usize>,
)
    requires
        places_agree(before, places),
        !places.dom().contains(entry.key@),
        before.len() <= usize::MAX,
    ensures
        places_agree(before.push(entry), places.insert(entry.key@, before.len() as usize)),
        trackers_of(before.push(entry), places.insert(entry.key@, before.len() as usize))
            == trackers_of(before, places).insert(entry.key@, entry.model()),
{
    let after = before.push(entry);
    let more = places.insert(entry.key@, before.len() as usize);
    assert forall|k: (Seq<char>, Seq<char>)| more.dom().contains(k) implies #[trigger] placed(
        after,
        more,
        k,
    ) by {
        if k != entry.key@ {
            assert(placed(before, places, k));
        }
    }
    assert forall|i: int| 0 <= i < after.len() implies #[trigger] found(after, more, i) by {
        if i < before.len() {
            assert(found(before, places, i));
        }
    }
    assert forall|k: (Seq<char>, Seq<char>)| places.dom().contains(k) implies #[trigger] places[k]
        < before.len() by {
        assert(placed(before, places, k));
    }
    assert(trackers_of(after, more) =~= trackers_of(before, places).insert(
        entry.key@,
        entry.model(),
    ));
}

/// Taking a tracker out takes it out of the map; the last tracker takes its
/// place.
proof fn lemma_entry_removed(
    before: Seq<TrackerEntry>,
    after: Seq<TrackerEntry>,
    places: Map<(Seq<char>, Seq<char>), usize>,
    left: Map<(Seq<char>, Seq<char>), usize>,
    place: int,
)
    requires
        places_agree(before, places),
        0 <= place < before.len(),
        before.len() <= usize::MAX,
        after.len() == before.len() - 1,
        forall|i: int| 0 <= i < after.len() && i != place ==> after[i] == before[i],
        place < after.len() ==> after[place] == before.last(),
        left == if place < after.len() {
            places.remove(before[place].key@).insert(before.last().key@, place as usize)
        } else {
            places.remove(before[place].key@)
        },
    ensures
        places_agree(after, left),
        trackers_of(after, left) == trackers_of(before, places).remove(before[place].key@),
{
    let key = before[place].key@;
    let last = before.len() - 1;
    assert(found(before, places, place));
    assert(found(before, places, last));
    assert forall|k: (Seq<char>, Seq<char>)| left.dom().contains(k) implies #[trigger] placed(
        after,
        left,
        k,
    ) && places.dom().contains(k) && k != key && after[left[k] as int] == before[places[k] as int] by {
        if place < after.len() && k == before.last().key@ {
        } else {
            assert(placed(before, places, k));
            assert(places[k] != place);
            assert(places[k] != last || place == last);
        }
    }
    assert forall|i: int| 0 <= i < after.len() implies #[trigger] found(after, left, i) by {
        assert(found(before, places, i));
    }
    assert forall|k: (Seq<char>, Seq<char>)| left.dom().contains(k) implies #[trigger] trackers_of(
        after,
        left,
    )[k] == trackers_of(before, places)[k] by {
        assert(placed(after, left, k));
    }
    assert(trackers_of(after, left) =~= trackers_of(before, places).remove(key));
}

impl SlotTrackerRegistry {
    /// The invariant.
    pub closed spec fn wf(&self) -> bool {
        &&& places_agree(self.entries@, dash_places(&self.places))
        &&& forall|i: int| 0 <= i < self.entries@.len() ==> entry_wf(#[trigger] self.entries@[i])
    }

    /// The number by which this process is known to its replicas.
    pub closed spec fn process(&self) -> Option<u64> {
        self.process_id
    }

    /// No trackers, and no replicas.
    pub fn new() -> (registry: Self)
        ensures
            registry.wf(),
            registry@ == Map::<(Seq<char>, Seq<char>), TrackerView>::empty(),
            registry.process() is None,
    {
        let registry = SlotTrackerRegistry {
            entries: Vec::new(),
            places: dash_places_new(),
            process_id: None,
        };
        assert(registry@ =~= Map::empty());
        registry
    }

    /// No trackers, and replicas that know this process by a number.
    pub fn new_with_replica_sync(process_id: u64) -> (registry: Self)
        ensures
            registry.wf(),
            registry@ == Map::<(Seq<char>, Seq<char>), TrackerView>::empty(),
            registry.process() == Some(process_id),
    {
        let registry = SlotTrackerRegistry {
            entries: Vec::new(),
            places: dash_places_new(),
            process_id: Some(process_id),
        };
        assert(registry@ =~= Map::empty());
        registry
    }

    fn place_of(&self, key: &TrackerKey) -> (place: Option<usize>)
        requires
            self.wf(),
        ensures
            place is Some <==> self@.dom().contains(key@),
            place matches Some(i) ==> {
                &&& i < self.entries@.len()
                &&& self.entries@[i as int].key@ == key@
                &&& self.entries@[i as int].model() == self@[key@]
            },
    {
        let place = dash_places_get(
            &self.places,
            key.model_name.as_str(),
            key.tenant_id.as_str(),
        );
        assert(place is Some ==> placed(self.entries@, dash_places(&self.places), key@));
        place
    }

    /// Registers the ranks of a worker. The first worker of a key makes its
    /// tracker.
    pub fn register(
        &mut self,
        key: TrackerKey,
        worker_id: WorkerId,
        block_size: u32,
        dp_start: u32,
        dp_size: u32,
    ) -> (r: Result<(), RegistryError>)
        requires
            old(self).wf(),
        ensures
            final(self).wf(),
            final(self).process() == old(self).process(),
            r is Ok <==> registration_error(
                old(self)@,
                key@,
                (WorkerDpRange { worker_id, dp_start, dp_size }),
                block_size,
            ) is None,
            r matches Err(e) ==> Some(e@) == registration_error(
                old(self)@,
                key@,
                (WorkerDpRange { worker_id, dp_start, dp_size }),
                block_size,
            ) && final(self)@ == old(self)@,
            r is Ok ==> final(self)@ == registered(
                old(self)@,
                key@,
                (WorkerDpRange { worker_id, dp_start, dp_size }),
                block_size,
            ),
    {
        match validate_block_size(block_size) {
            Ok(()) => {},
            Err(e) => {
                return Err(e);
            },
        }
        let range = match WorkerDpRange::new(worker_id, dp_start, dp_size).validate() {
            Ok(range) => range,
            Err(error) => {
                return Err(topology_error(&key, error));
            },
        };
        match self.place_of(&key) {
            Some(place) => self.register_at(place, key, range, block_size),
            None => {
                self.add_tracker(key, range, block_size);
                Ok(())
            },
        }
    }

    fn register_at(&mut self, place: usize, key: TrackerKey, range: WorkerDpRange, block_size: u32) -> (r:
        Result<(), RegistryError>)
        requires
            old(self).wf(),
            range.valid(),
            block_size > 0,
            place < old(self).entries@.len(),
            old(self).entries@[place as int].key@ == key@,
            old(self).entries@[place as int].model() == old(self)@[key@],
            old(self)@.dom().contains(key@),
        ensures
            final(self).wf(),
            final(self).process() == old(self).process(),
            r is Ok <==> registration_error(old(self)@, key@, range, block_size) is None,
            r matches Err(e) ==> Some(e@) == registration_error(
                old(self)@,
                key@,
                range,
                block_size,
            ) && final(self)@ == old(self)@,
            r is Ok ==> final(self)@ == registered(old(self)@, key@, range, block_size),
    {
        let existing = self.entries[place].block_size;
        if existing != block_size {
            return Err(
                RegistryError::BlockSizeMismatch {
                    model_name: key.model_name,
                    tenant_id: key.tenant_id,
                    existing,
                    requested: block_size,
                },
            );
        }
        let ghost before = self.entries@;
        assert(entry_wf(self.entries@[place as int]));
        let outcome = self.entries[place].tracker.register_worker(range);
        proof {
            lemma_entry_changed(before, self.entries@, dash_places(&self.places), place as int);
        }
        match outcome {
            Ok(()) => Ok(()),
            Err(error) => {
                assert(self@ =~= old(self)@);
                Err(topology_error(&key, error))
            },
        }
    }

    fn add_tracker(&mut self, key: TrackerKey, range: WorkerDpRange, block_size: u32)
        requires
            old(self).wf(),
            range.valid(),
            block_size > 0,
            !old(self)@.dom().contains(key@),
        ensures
            final(self).wf(),
            final(self).process() == old(self).process(),
            final(self)@ == registered(old(self)@, key@, range, block_size),
    {
        let ghost before = self.entries@;
        let ghost places = dash_places(&self.places);
        let mut tracker = ActiveSequencesMultiWorker::new();
        let outcome = tracker.register_worker(range);
        assert(outcome is Ok);
        dash_places_insert(
            &mut self.places,
            key.model_name.as_str(),
            key.tenant_id.as_str(),
            self.entries.len(),
        );
        let ghost model_key = key@;
        let entry = TrackerEntry { key, block_size, tracker };
        proof {
            lemma_entry_added(before, entry, places);
        }
        self.entries.push(entry);
    }

    /// Takes a worker out, with the requests on it.
    pub fn unregister(&mut self, key: &TrackerKey, worker_id: WorkerId) -> (r: Result<
        (),
        RegistryError,
    >)
        requires
            old(self).wf(),
        ensures
            final(self).wf(),
            final(self).process() == old(self).process(),
            r is Ok <==> old(self)@.dom().contains(key@) && has_worker(
                old(self)@[key@].sequences.ranges,
                worker_id,
            ),
            r matches Err(e) ==> e@ == (RegistryErrorView::WorkerNotFound { worker_id, key: key@ })
                && final(self)@ == old(self)@,
            r is Ok ==> final(self)@ == unregistered(old(self)@, key@, worker_id),
    {
        let place = match self.place_of(key) {
            Some(place) => place,
            None => {
                return Err(
                    RegistryError::WorkerNotFound {
                        worker_id,
                        model_name: key.model_name.as_str().to_owned(),
                        tenant_id: key.tenant_id.as_str().to_owned(),
                    },
                );
            },
        };
        let ghost before = self.entries@;
        let ghost places = dash_places(&self.places);
        assert(entry_wf(self.entries@[place as int]));
        match self.entries[place].tracker.unregister_worker(worker_id) {
            Ok(()) => {},
            Err(error) => {
                proof {
                    lemma_entry_changed(before, self.entries@, places, place as int);
                    assert(self@ =~= old(self)@);
                }
                return Err(topology_error(key, error));
            },
        }
        let ghost changed = self.entries@;
        proof {
            lemma_entry_changed(before, changed, places, place as int);
        }
        if !self.entries[place].tracker.has_registered_workers() {
            let last = self.entries.len() - 1;
            dash_places_remove(&mut self.places, key.model_name.as_str(), key.tenant_id.as_str());
            if place < last {
                let moved = self.entries[last].key.clone();
                dash_places_insert(
                    &mut self.places,
                    moved.model_name.as_str(),
                    moved.tenant_id.as_str(),
                    place,
                );
            }
            let _ = self.entries.swap_remove(place);
            proof {
                lemma_entry_removed(
                    changed,
                    self.entries@,
                    places,
                    dash_places(&self.places),
                    place as int,
                );
                assert(self@ =~= unregistered(old(self)@, key@, worker_id));
            }
        }
        Ok(())
    }

    /// Makes a request active on a registered rank.
    pub fn add_request(
        &mut self,
        key: &TrackerKey,
        request_id: String,
        worker: WorkerWithDpRank,
        sequence_hashes: Vec<SequenceHash>,
        new_isl_tokens: usize,
        now_millis: u64,
    ) -> (r: Result<(), ServiceError>)
        requires
            old(self).wf(),
        ensures
            final(self).wf(),
            final(self).process() == old(self).process(),
            r is Err ==> final(self)@ == old(self)@,
            r is Ok <==> old(self)@.dom().contains(key@) && has_rank(
                old(self)@[key@].sequences.ranges,
                worker.spec_key(),
            ) && !has_request(old(self)@[key@].sequences.requests, request_id@),
            r is Ok ==> final(self)@ == with_requests(
                old(self)@,
                key@,
                old(self)@[key@].sequences.requests.push(
                    reported(
                        request_id@,
                        worker.spec_key(),
                        sequence_hashes@,
                        new_isl_tokens,
                        now_millis,
                    ),
                ),
            ),
            r matches Err(e) ==> if !old(self)@.dom().contains(key@) {
                e matches ServiceError::Registry(e) && e@ == (RegistryErrorView::TrackerNotFound {
                    key: key@,
                })
            } else if !has_rank(old(self)@[key@].sequences.ranges, worker.spec_key()) {
                e matches ServiceError::Sequence(SequenceError::WorkerNotFound { worker: missing })
                    && missing == worker
            } else {
                e matches ServiceError::Sequence(SequenceError::DuplicateRequest { request_id: id })
                    && id@ == request_id@
            },
    {
        let place = match self.place_of(key) {
            Some(place) => place,
            None => {
                return Err(ServiceError::Registry(tracker_not_found(key)));
            },
        };
        let prefill_load_hint = if new_isl_tokens > 0 {
            Some(
                PrefillLoadHint {
                    initial_effective_prefill_tokens: new_isl_tokens,
                    expected_prefill_duration: None,
                },
            )
        } else {
            None
        };
        let request = SequenceRequest {
            request_id,
            token_sequence: Some(sequence_hashes),
            track_prefill_tokens: new_isl_tokens > 0,
            expected_output_tokens: None,
            prefill_load_hint,
            worker,
            lora_name: None,
        };
        assert(made_active(request, now_millis) == reported(
            request_id@,
            worker.spec_key(),
            sequence_hashes@,
            new_isl_tokens,
            now_millis,
        ));
        let ghost before = self.entries@;
        assert(entry_wf(self.entries@[place as int]));
        let outcome = self.entries[place].tracker.add_request_if_registered(request, now_millis);
        proof {
            lemma_entry_changed(before, self.entries@, dash_places(&self.places), place as int);
        }
        match outcome {
            Ok(()) => Ok(()),
            Err(e) => {
                assert(self@ =~= old(self)@);
                Err(ServiceError::Sequence(e))
            },
        }
    }

    /// Marks a request's prefill as done.
    pub fn mark_prefill_completed(&mut self, key: &TrackerKey, request_id: &str) -> (r: Result<
        (),
        ServiceError,
    >)
        requires
            old(self).wf(),
        ensures
            final(self).wf(),
            final(self).process() == old(self).process(),
            r is Err ==> final(self)@ == old(self)@,
            r is Ok <==> old(self)@.dom().contains(key@) && has_request(
                old(self)@[key@].sequences.requests,
                request_id@,
            ),
            r is Ok ==> final(self)@ == with_requests(
                old(self)@,
                key@,
                prefilled(old(self)@[key@].sequences.requests, request_id@),
            ),
            r matches Err(e) ==> if !old(self)@.dom().contains(key@) {
                e matches ServiceError::Registry(e) && e@ == (RegistryErrorView::TrackerNotFound {
                    key: key@,
                })
            } else {
                e matches ServiceError::Sequence(SequenceError::RequestNotFound { request_id: id })
                    && id@ == request_id@
            },
    {
        let place = match self.place_of(key) {
            Some(place) => place,
            None => {
                return Err(ServiceError::Registry(tracker_not_found(key)));
            },
        };
        let ghost before = self.entries@;
        assert(entry_wf(self.entries@[place as int]));
        let outcome = self.entries[place].tracker.mark_prefill_completed(request_id);
        proof {
            lemma_entry_changed(before, self.entries@, dash_places(&self.places), place as int);
        }
        match outcome {
            Ok(()) => Ok(()),
            Err(e) => {
                assert(self@ =~= old(self)@);
                Err(ServiceError::Sequence(e))
            },
        }
    }

    /// Ends a request. One that is not active is none to end, and that is no
    /// error.
    pub fn free(&mut self, key: &TrackerKey, request_id: &str) -> (r: Result<(), ServiceError>)
        requires
            old(self).wf(),
        ensures
            final(self).wf(),
            final(self).process() == old(self).process(),
            r is Ok <==> old(self)@.dom().contains(key@),
            r is Ok ==> final(self)@ == with_requests(
                old(self)@,
                key@,
                without_request(old(self)@[key@].sequences.requests, request_id@),
            ),
            r matches Err(e) ==> final(self)@ == old(self)@ && (e matches ServiceError::Registry(e)
                && e@ == (RegistryErrorView::TrackerNotFound { key: key@ })),
    {
        let place = match self.place_of(key) {
            Some(place) => place,
            None => {
                return Err(ServiceError::Registry(tracker_not_found(key)));
            },
        };
        let ghost before = self.entries@;
        assert(entry_wf(self.entries@[place as int]));
        self.entries[place].tracker.free(request_id);
        proof {
            lemma_entry_changed(before, self.entries@, dash_places(&self.places), place as int);
        }
        Ok(())
    }

    /// Takes over what a replica reports. A process has no replicas unless it has
    /// a number, and takes nothing over from itself; a report for a tracker that
    /// is not there, or that has another block size, is dropped.
    pub fn dispatch_replica_event(&mut self, envelope: SlotReplicaEvent, now_millis: u64)
        requires
            old(self).wf(),
        ensures
            final(self).wf(),
            final(self).process() == old(self).process(),
            final(self)@ == if takes_over(old(self)@, old(self).process(), envelope) {
                with_sequences(
                    old(self)@,
                    (envelope.model_name@, envelope.tenant_id@),
                    replicated(
                        old(self)@[(envelope.model_name@, envelope.tenant_id@)].sequences,
                        envelope.event,
                        now_millis,
                    ),
                )
            } else {
                old(self)@
            },
    {
        match self.process_id {
            Some(process_id) => {
                if process_id == envelope.event.router_id {
                    return ;
                }
            },
            None => {
                return ;
            },
        }
        let SlotReplicaEvent { model_name, tenant_id, block_size, event } = envelope;
        let key = TrackerKey::new(model_name, Some(tenant_id));
        let place = match self.place_of(&key) {
            Some(place) => place,
            None => {
                return ;
            },
        };
        if self.entries[place].block_size != block_size {
            return ;
        }
        let ghost before = self.entries@;
        assert(entry_wf(self.entries@[place as int]));
        self.entries[place].tracker.apply_replica_event(event, now_millis);
        proof {
            lemma_entry_changed(before, self.entries@, dash_places(&self.places), place as int);
        }
    }

    /// Ends the requests that have been active for too long, in every tracker.
    pub fn force_expiry(&mut self, now_millis: u64)
        requires
            old(self).wf(),
        ensures
            final(self).wf(),
            final(self).process() == old(self).process(),
            final(self)@.dom() == old(self)@.dom(),
            forall|k: (Seq<char>, Seq<char>)| #[trigger]
                final(self)@.dom().contains(k) ==> final(self)@[k] == (TrackerView {
                    block_size: old(self)@[k].block_size,
                    sequences: SequencesView {
                        ranges: old(self)@[k].sequences.ranges,
                        requests: not_expired(old(self)@[k].sequences.requests, now_millis),
                    },
                }),
    {
        let ghost before = self.entries@;
        let ghost places = dash_places(&self.places);
        let count = self.entries.len();
        for i in 0..count
            invariant
                count == before.len(),
                self.entries@.len() == before.len(),
                dash_places(&self.places) == places,
                self.process_id == old(self).process_id,
                forall|j: int| 0 <= j < before.len() ==> entry_wf(#[trigger] self.entries@[j]),
                forall|j: int| i <= j < before.len() ==> #[trigger] self.entries@[j] == before[j],
                forall|j: int|
                    0 <= j < i ==> (#[trigger] self.entries@[j]).key@ == before[j].key@
                        && self.entries@[j].model() == expired_entry(before[j], now_millis),
        {
            assert(entry_wf(self.entries@[i as int]));
            self.entries[i].tracker.force_expiry(now_millis);
        }
        proof {
            let after = self.entries@;
            assert forall|k: (Seq<char>, Seq<char>)|
                places.dom().contains(k) implies #[trigger] placed(after, places, k) by {
                assert(placed(before, places, k));
                assert(after[places[k] as int].key@ == before[places[k] as int].key@);
            }
            assert forall|j: int| 0 <= j < after.len() implies #[trigger] found(
                after,
                places,
                j,
            ) by {
                assert(found(before, places, j));
                assert(after[j].key@ == before[j].key@);
            }
            assert(self@.dom() =~= old(self)@.dom());
            assert forall|k: (Seq<char>, Seq<char>)| #[trigger]
                self@.dom().contains(k) implies self@[k] == (TrackerView {
                block_size: old(self)@[k].block_size,
                sequences: SequencesView {
                    ranges: old(self)@[k].sequences.ranges,
                    requests: not_expired(old(self)@[k].sequences.requests, now_millis),
                },
            }) by {
                assert(placed(before, places, k));
                assert(after[places[k] as int].model() == expired_entry(
                    before[places[k] as int],
                    now_millis,
                ));
            }
        }
    }
}

/// A tracker without the requests that are too old.
spec fn expired_entry(entry: TrackerEntry, now_millis: u64) -> TrackerView {
    TrackerView {
        block_size: entry.block_size,
        sequences: SequencesView {
            ranges: entry.tracker@.ranges,
            requests: not_expired(entry.tracker@.requests, now_millis),
        },
    }
}

/// What a replica reports, with the tracker that it is about.
pub struct SlotReplicaEvent {
    pub model_name: String,
    pub tenant_id: String,
    pub block_size: u32,
    pub event: ActiveSequenceEvent,
}

/// Whether a report is taken over.
pub open spec fn takes_over(
    trackers: Map<(Seq<char>, Seq<char>), TrackerView>,
    process_id: Option<u64>,
    envelope: SlotReplicaEvent,
) -> bool {
    let key = (envelope.model_name@, envelope.tenant_id@);
    &&& process_id is Some
    &&& process_id->0 != envelope.event.router_id
    &&& trackers.dom().contains(key)
    &&& trackers[key].block_size == envelope.block_size
}

fn tracker_not_found(key: &TrackerKey) -> (e: RegistryError)
    ensures
        e@ == (RegistryErrorView::TrackerNotFound { key: key@ }),
{
    RegistryError::TrackerNotFound {
        model_name: key.model_name.as_str().to_owned(),
        tenant_id: key.tenant_id.as_str().to_owned(),
    }
}

impl SlotTrackerRegistry {
    /// Every tracker has a worker and blocks of some size, no worker is
    /// registered twice in it, and its requests are on registered ranks.
    pub proof fn trackers_are_in_use(&self)
        requires
            self.wf(),
        ensures
            forall|k: (Seq<char>, Seq<char>)| #[trigger]
                self@.dom().contains(k) ==> self@[k].block_size > 0
                    && self@[k].sequences.ranges.len() > 0 && sequences_wf(self@[k].sequences),
    {
        assert forall|k: (Seq<char>, Seq<char>)| #[trigger]
            self@.dom().contains(k) implies self@[k].block_size > 0
            && self@[k].sequences.ranges.len() > 0 && sequences_wf(self@[k].sequences) by {
            assert(placed(self.entries@, dash_places(&self.places), k));
            assert(entry_wf(self.entries@[dash_places(&self.places)[k] as int]));
        }
    }
}

/// Taking a worker out that was just registered leaves everything as it was.
pub proof fn unregister_undoes_register(
    trackers: Map<(Seq<char>, Seq<char>), TrackerView>,
    key: (Seq<char>, Seq<char>),
    range: WorkerDpRange,
    block_size: u32,
)
    requires
        registration_error(trackers, key, range, block_size) is None,
        trackers.dom().contains(key) ==> trackers[key].sequences.ranges.len() > 0 && sequences_wf(
            trackers[key].sequences,
        ),
    ensures
        unregistered(registered(trackers, key, range, block_size), key, range.worker_id)
            == trackers,
{
    let tracker = tracker_or_new(trackers, key, block_size);
    let after = registered(trackers, key, range, block_size);
    lemma_one_worker_more(tracker.sequences, range);
    assert(after[key].sequences.ranges == tracker.sequences.ranges.push(range));
    if trackers.dom().contains(key) {
        assert(unregistered(after, key, range.worker_id)[key] == trackers[key]);
    }
    assert(unregistered(after, key, range.worker_id) =~= trackers);
}

proof fn lemma_one_worker_more(s: SequencesView, range: WorkerDpRange)
    requires
        sequences_wf(s),
        !has_worker(s.ranges, range.worker_id),
    ensures
        without_ranks(s.ranges.push(range), range.worker_id) == s.ranges,
        without_worker(s.requests, range.worker_id) == s.requests,
{
    let more = s.ranges.push(range);
    let at = s.ranges.len() as int;
    assert forall|i: int| 0 <= i < more.len() && i != at implies other_ranks(range.worker_id)(
        #[trigger] more[i],
    ) by {
        assert(s.ranges[i].worker_id != range.worker_id);
    }
    crate::seqs::lemma_filter_one(more, at, other_ranks(range.worker_id));
    assert(more.remove(at) =~= s.ranges);
    assert forall|i: int| 0 <= i < s.requests.len() implies not_of(range.worker_id)(
        #[trigger] s.requests[i],
    ) by {
        assert(has_rank(s.ranges, s.requests[i].worker));
    }
    crate::seqs::lemma_filter_all(s.requests, not_of(range.worker_id));
}

/// A worker is registered exactly if its blocks have a size, it has ranks that can be
/// numbered, and its tracker, where there is one, has blocks of that size and does not
/// know the worker.
pub proof fn new_workers_must_fit(
    trackers: Map<(Seq<char>, Seq<char>), TrackerView>,
    key: (Seq<char>, Seq<char>),
    range: WorkerDpRange,
    block_size: u32,
)
    ensures
        registration_error(trackers, key, range, block_size) is None <==> block_size > 0
            && range.dp_size > 0 && range.dp_start + range.dp_size <= u32::MAX && (
        trackers.dom().contains(key) ==> trackers[key].block_size == block_size && forall|i: int|
            0 <= i < trackers[key].sequences.ranges.len() ==> (
            #[trigger] trackers[key].sequences.ranges[i]).worker_id != range.worker_id),
{
    if !trackers.dom().contains(key) {
        assert(!has_worker(Seq::<WorkerDpRange>::empty(), range.worker_id));
    }
}

/// A registered worker has its ranks, in a tracker with blocks of its size; ranks and
/// requests that were there stay, and other trackers are as they were.
pub proof fn registering_adds_ranks(
    trackers: Map<(Seq<char>, Seq<char>), TrackerView>,
    key: (Seq<char>, Seq<char>),
    range: WorkerDpRange,
    block_size: u32,
    worker: (u64, u32),
    other: (Seq<char>, Seq<char>),
)
    ensures
        ({
            let after = registered(trackers, key, range, block_size);
            &&& after.dom().contains(key)
            &&& after[key].block_size == block_size
            &&& has_rank(after[key].sequences.ranges, worker) <==> (trackers.dom().contains(key)
                && has_rank(trackers[key].sequences.ranges, worker)) || (worker.0
                == range.worker_id && range.dp_start <= worker.1 < range.dp_start + range.dp_size)
            &&& trackers.dom().contains(key) ==> after[key].sequences.requests
                == trackers[key].sequences.requests
            &&& !trackers.dom().contains(key) ==> after[key].sequences.requests.len() == 0
            &&& other != key ==> (after.dom().contains(other) <==> trackers.dom().contains(other))
            &&& other != key ==> after[other] == trackers[other]
        }),
{
    let before = tracker_or_new(trackers, key, block_size).sequences.ranges;
    let after = before.push(range);
    assert(registered(trackers, key, range, block_size)[key].sequences.ranges == after);
    if has_rank(before, worker) {
        let i = choose|i: int| 0 <= i < before.len() && (#[trigger] before[i]).covers(worker);
        assert(after[i].covers(worker));
    }
    if range.covers(worker) {
        assert(after[before.len() as int].covers(worker));
    }
    if has_rank(after, worker) && !range.covers(worker) {
        let i = choose|i: int| 0 <= i < after.len() && (#[trigger] after[i]).covers(worker);
        assert(before[i].covers(worker));
    }
}

/// With a worker go its ranks and its requests and nothing else; a tracker without ranks
/// goes too, and other trackers are as they were.
pub proof fn unregistering_takes_one_worker(
    trackers: Map<(Seq<char>, Seq<char>), TrackerView>,
    key: (Seq<char>, Seq<char>),
    worker_id: u64,
    range: WorkerDpRange,
    request: ActiveView,
    other: (Seq<char>, Seq<char>),
)
    requires
        trackers.dom().contains(key),
    ensures
        ({
            let before = trackers[key];
            let after = unregistered(trackers, key, worker_id);
            &&& before.sequences.ranges.contains(range) && range.worker_id != worker_id
                ==> after.dom().contains(key) && after[key].sequences.ranges.contains(range)
            &&& after.dom().contains(key) ==> {
                &&& after[key].block_size == before.block_size
                &&& after[key].sequences.ranges.contains(range) <==> before.sequences.ranges.contains(
                    range,
                ) && range.worker_id != worker_id
                &&& after[key].sequences.requests.contains(request)
                    <==> before.sequences.requests.contains(request) && request.worker.0
                    != worker_id
                &&& after[key].sequences.ranges.len() > 0
            }
            &&& other != key ==> (after.dom().contains(other) <==> trackers.dom().contains(other))
            &&& other != key ==> after[other] == trackers[other]
        }),
{
    workers_leave_with_their_ranks(trackers[key].sequences.ranges, worker_id, range);
    workers_leave_with_their_requests(trackers[key].sequences.requests, worker_id, request);
}

/// A change of one tracker's requests leaves its ranks, its block size and all other
/// trackers as they were.
pub proof fn requests_stay_in_their_tracker(
    trackers: Map<(Seq<char>, Seq<char>), TrackerView>,
    key: (Seq<char>, Seq<char>),
    requests: Seq<ActiveView>,
    other: (Seq<char>, Seq<char>),
)
    ensures
        ({
            let after = with_requests(trackers, key, requests);
            &&& after[key].sequences.requests == requests
            &&& after[key].sequences.ranges == trackers[key].sequences.ranges
            &&& after[key].block_size == trackers[key].block_size
            &&& other != key ==> (after.dom().contains(other) <==> trackers.dom().contains(other))
            &&& other != key ==> after[other] == trackers[other]
        }),
{
}

/// A request that is told of loads its rank with its new tokens and its blocks, and no
/// other rank.
pub proof fn told_requests_load_their_rank(
    requests: Seq<ActiveView>,
    request_id: Seq<char>,
    worker: (u64, u32),
    hashes: Seq<u64>,
    new_isl_tokens: usize,
    now_millis: u64,
    rank: (u64, u32),
)
    ensures
        ({
            let told = reported(request_id, worker, hashes, new_isl_tokens, now_millis);
            let more = requests.push(told);
            &&& told.id == request_id
            &&& told.since_millis == now_millis
            &&& rank == worker ==> active_prefill(more, rank) == active_prefill(requests, rank)
                + new_isl_tokens
            &&& rank == worker ==> active_count(more, rank) == active_count(requests, rank) + 1
            &&& rank == worker ==> forall|h: u64| #[trigger]
                hashes.contains(h) ==> active_hashes(more, rank).contains(h)
            &&& rank != worker ==> active_prefill(more, rank) == active_prefill(requests, rank)
            &&& rank != worker ==> active_count(more, rank) == active_count(requests, rank)
        }),
{
    let told = reported(request_id, worker, hashes, new_isl_tokens, now_millis);
    request_loads_its_own_rank(requests, told, rank);
}

/// What a replica reports counts only between replicas: not what came from here, and only
/// for a tracker that is known, with blocks of the same size.
pub proof fn reports_of_others_count(
    trackers: Map<(Seq<char>, Seq<char>), TrackerView>,
    process_id: Option<u64>,
    envelope: SlotReplicaEvent,
)
    ensures
        process_id is None ==> !takes_over(trackers, process_id, envelope),
        process_id == Some(envelope.event.router_id) ==> !takes_over(
            trackers,
            process_id,
            envelope,
        ),
        !trackers.dom().contains((envelope.model_name@, envelope.tenant_id@)) ==> !takes_over(
            trackers,
            process_id,
            envelope,
        ),
        trackers.dom().contains((envelope.model_name@, envelope.tenant_id@)) ==> (takes_over(
            trackers,
            process_id,
            envelope,
        ) <==> process_id is Some && process_id != Some(envelope.event.router_id) && trackers[(
            envelope.model_name@,
            envelope.tenant_id@,
        )].block_size == envelope.block_size),
{
}

} // verus!
