//! The state of the selection service and its decisions.

use vstd::prelude::*;
use vstd::string::StringExecFns;

use crate::hashing::{block_hashes, seq_hashes};
use crate::protocols::{opt_string_view, DpRank, WorkerId, WorkerWithDpRank};
use crate::scheduling::config::RouterConfigOverride;
use crate::scheduling::policy_config::{ClassRules, PolicyClassConfig, PolicyProfile};
use crate::scheduling::policy_queue::{
    queue_wf, ClassView, PolicyQueue, PolicyQueueStats, QueueView,
};
use crate::scheduling::prefill_load::{
    effective_prefill_tokens, prefill_load_hint_from_effective_tokens,
};
use crate::scheduling::types::SchedulingRequest;
use crate::sequences::{
    active_count, active_prefill, free_undoes_add, has_rank, has_request, made_active,
    new_ranks_replace_old_ones, prefilled, request_loads_its_own_rank, sequences_wf, upserted,
    without_request, ActiveSequencesMultiWorker, ActiveView, SequenceError, SequenceRequest,
    SequencesView, WorkerDpRange,
};
use crate::services::selection::catalog::{
    group_serves, in_state, knows_worker, serves, serving_count, unknown_worker,
    unknown_worker_text, WorkerCatalog,
};
use crate::services::selection::error::SelectionError;
use crate::services::selection::prompt::{
    hashed_as_eagle, routing_tokens, sequence_complaint, PromptRequest,
};
use crate::services::selection::types::{
    key_words, patched, texts_view, ReservationResponse, SelectionKey, WorkerCatalogRecord,
    WorkerLifecycle, WorkerPatchRequest, WorkerRequest,
};
use crate::text::{append_decimal, concat3, decimal, str_eq};

pub mod answers;
pub mod requests;
pub mod scheduling;

verus! {

/// What workers of a group share.
pub struct SelectionEntry {
    pub key: SelectionKey,
    pub block_size: u32,
    pub is_eagle: bool,
    pub slots: ActiveSequencesMultiWorker,
    /// Whether requests may have to wait.
    pub queueing: bool,
    /// How requests are sorted into the classes of the queue.
    pub rules: ClassRules,
    pub queue: PolicyQueue<WaitingSelection>,
}

/// A selection that waits.
pub struct WaitingSelection {
    pub request: SchedulingRequest,
    pub enqueue_at_millis: u64,
}

/// Model of what workers of a group share.
pub struct EntryView {
    pub key: (Seq<char>, Seq<char>),
    pub block_size: u32,
    pub is_eagle: bool,
    pub sequences: SequencesView,
    /// Whether requests may have to wait.
    pub queueing: bool,
    /// How requests are sorted into the classes of the queue.
    pub rules: ClassRules,
    /// The selections that wait.
    pub waiting: QueueView<WaitingSelection>,
}

impl SelectionEntry {
    /// Model.
    pub open spec fn model(&self) -> EntryView {
        EntryView {
            key: self.key@,
            block_size: self.block_size,
            is_eagle: self.is_eagle,
            sequences: self.slots@,
            queueing: self.queueing,
            rules: self.rules,
            waiting: self.queue@,
        }
    }

    /// The invariant.
    pub open spec fn wf(&self) -> bool {
        &&& self.slots.wf()
        &&& self.queue.wf()
        &&& self.queue@.classes.len() > 0
    }
}

/// The state of the selection service.
pub struct SelectionCore {
    catalog: WorkerCatalog,
    entries: Vec<SelectionEntry>,
    /// Whether requests may have to wait.
    queueing_enabled: bool,
    use_kv_events: bool,
    track_prefill_tokens: bool,
    running: bool,
}

/// Model of the service's groups.
pub open spec fn entry_models(entries: Seq<SelectionEntry>) -> Seq<EntryView> {
    entries.map_values(|e: SelectionEntry| e.model())
}

/// Whether there is a group.
pub open spec fn has_entry(entries: Seq<EntryView>, key: (Seq<char>, Seq<char>)) -> bool {
    exists|i: int| 0 <= i < entries.len() && (#[trigger] entries[i]).key == key
}

/// Whether a place is that of a group.
pub open spec fn entry_at(entries: Seq<EntryView>, key: (Seq<char>, Seq<char>), i: int) -> bool {
    0 <= i < entries.len() && entries[i].key == key
}

/// What is said while the service shuts down.
pub const SHUTTING_DOWN: &'static str = "selection service is shutting down";

/// What is said while no worker takes requests.
pub const NO_WORKERS: &'static str = "no schedulable workers are available";

/// What is said while no worker of a group takes requests.
pub open spec fn no_workers_for(key: (Seq<char>, Seq<char>)) -> Seq<char> {
    "no schedulable workers for "@ + key_words(key)
}

/// What is said of a worker of a group that takes no requests.
pub open spec fn not_schedulable_text(worker_id: u64, key: (Seq<char>, Seq<char>)) -> Seq<char> {
    "schedulable worker "@ + decimal(worker_id as nat) + " not found for "@ + key_words(key)
}

/// What is said of a reservation that is not there.
pub open spec fn no_reservation_text(reservation_id: Seq<char>) -> Seq<char> {
    "reservation "@ + reservation_id + " not found"@
}

/// What is said of workers of one group that do not agree.
pub open spec fn block_size_conflict(
    key: (Seq<char>, Seq<char>),
    existing: u32,
    requested: u32,
) -> Seq<char> {
    "block_size mismatch for "@ + key_words(key) + ": existing="@ + decimal(existing as nat)
        + " requested="@ + decimal(requested as nat)
}

/// A truth value in words.
pub open spec fn bool_text(b: bool) -> Seq<char> {
    if b {
        "true"@
    } else {
        "false"@
    }
}

/// What is said of workers of one group that do not agree.
pub open spec fn eagle_conflict(
    key: (Seq<char>, Seq<char>),
    existing: bool,
    requested: bool,
) -> Seq<char> {
    "is_eagle mismatch for "@ + key_words(key) + ": existing="@ + bool_text(existing)
        + " requested="@ + bool_text(requested)
}

/// Why there can be no group with some settings beside those there are, if there
/// cannot.
pub open spec fn entry_conflict(
    entries: Seq<EntryView>,
    key: (Seq<char>, Seq<char>),
    block_size: u32,
    is_eagle: bool,
    i: int,
) -> Option<Seq<char>> {
    if !entry_at(entries, key, i) {
        None
    } else if entries[i].block_size != block_size {
        Some(block_size_conflict(key, entries[i].block_size, block_size))
    } else if entries[i].is_eagle != is_eagle {
        Some(eagle_conflict(key, entries[i].is_eagle, is_eagle))
    } else {
        None
    }
}

fn append_bool(text: &mut String, b: bool)
    ensures
        final(text)@ == old(text)@ + bool_text(b),
{
    if b {
        text.append("true");
    } else {
        text.append("false");
    }
}

/// Whether a worker says that it is of an Eagle model.
pub open spec fn says_eagle(is_eagle: Option<bool>) -> bool {
    is_eagle == Some(true)
}

/// The queue of some classes in which nothing waits.
pub open spec fn empty_queue(classes: Seq<PolicyClassConfig>) -> QueueView<WaitingSelection> {
    QueueView {
        classes: Seq::new(
            classes.len(),
            |c: int|
                ClassView {
                    config: classes[c],
                    pending: Seq::empty(),
                    stats: PolicyQueueStats { requests: 0, raw_isl_tokens: 0, cached_tokens: 0 },
                    deficit: 0,
                },
        ),
        next_class: 0,
        next_enqueue_seq: 0,
    }
}

/// A group without workers and requests.
pub open spec fn new_group(
    key: (Seq<char>, Seq<char>),
    block_size: u32,
    is_eagle: bool,
    queueing: bool,
    profile: PolicyProfile,
) -> EntryView {
    EntryView {
        key,
        block_size,
        is_eagle,
        sequences: SequencesView { ranges: Seq::empty(), requests: Seq::empty() },
        queueing,
        rules: profile.rules,
        waiting: empty_queue(profile.classes@),
    }
}

/// The groups with other sequences in one of them.
pub open spec fn entry_with(entries: Seq<EntryView>, i: int, sequences: SequencesView) -> Seq<
    EntryView,
> {
    entries.update(i, EntryView { sequences, ..entries[i] })
}

impl SelectionCore {
    /// What is known of the workers.
    pub closed spec fn records(&self) -> Seq<WorkerCatalogRecord> {
        self.catalog@
    }

    /// The groups of workers.
    pub closed spec fn groups(&self) -> Seq<EntryView> {
        entry_models(self.entries@)
    }

    /// Whether the service runs.
    pub closed spec fn is_running(&self) -> bool {
        self.running
    }

    /// Whether requests may have to wait, whether events are listened to, and
    /// whether prefill tokens count.
    pub closed spec fn settings(&self) -> (bool, bool, bool) {
        (self.queueing_enabled, self.use_kv_events, self.track_prefill_tokens)
    }

    /// The invariant: no worker and no group is there twice.
    pub closed spec fn wf(&self) -> bool {
        &&& self.catalog.wf()
        &&& forall|i: int| 0 <= i < self.entries@.len() ==> (#[trigger] self.entries@[i]).wf()
        &&& forall|i: int, j: int|
            0 <= i < j < self.groups().len() ==> (#[trigger] self.groups()[i]).key != (
            #[trigger] self.groups()[j]).key
    }

    /// No two groups are of the same model and tenant, no two records of the same
    /// worker, and in each group there is a class, the waiting requests are in order and
    /// the booked ones as they must be.
    pub proof fn groups_are_distinct(&self)
        requires
            self.wf(),
        ensures
            forall|i: int, j: int|
                0 <= i < j < self.groups().len() ==> (#[trigger] self.groups()[i]).key != (
                #[trigger] self.groups()[j]).key,
            forall|i: int, j: int|
                0 <= i < j < self.records().len() ==> (#[trigger] self.records()[i]).worker_id != (
                #[trigger] self.records()[j]).worker_id,
            forall|i: int|
                0 <= i < self.groups().len() ==> queue_wf((#[trigger] self.groups()[i]).waiting)
                    && self.groups()[i].waiting.classes.len() > 0 && sequences_wf(
                    self.groups()[i].sequences,
                ),
    {
        assert forall|i: int| 0 <= i < self.groups().len() implies queue_wf(
            (#[trigger] self.groups()[i]).waiting,
        ) && self.groups()[i].waiting.classes.len() > 0 && sequences_wf(
            self.groups()[i].sequences,
        ) by {
            assert(self.entries@[i].wf());
            self.entries@[i].queue.queues_are_in_order();
        }
    }

    /// A service without workers.
    pub fn new(queueing_enabled: bool, use_kv_events: bool, track_prefill_tokens: bool) -> (core:
        Self)
        ensures
            core.wf(),
            core.records() == Seq::<WorkerCatalogRecord>::empty(),
            core.groups() == Seq::<EntryView>::empty(),
            core.is_running(),
            core.settings() == (queueing_enabled, use_kv_events, track_prefill_tokens),
    {
        let core = SelectionCore {
            catalog: WorkerCatalog::new(),
            entries: Vec::new(),
            queueing_enabled,
            use_kv_events,
            track_prefill_tokens,
            running: true,
        };
        assert(core.groups() =~= Seq::<EntryView>::empty());
        core
    }

    /// Ends the service. Doing so again changes nothing.
    pub fn shutdown(&mut self)
        requires
            old(self).wf(),
        ensures
            final(self).wf(),
            !final(self).is_running(),
            final(self).records() == old(self).records(),
            final(self).groups() == old(self).groups(),
            final(self).settings() == old(self).settings(),
    {
        self.running = false;
        assert(self.groups() == old(self).groups());
    }

    /// Turns new work away once the service has ended.
    pub fn ensure_running(&self) -> (r: Result<(), SelectionError>)
        ensures
            r is Ok <==> self.is_running(),
            r matches Err(e) ==> (e matches SelectionError::NotReady(text) && text@
                == SHUTTING_DOWN@),
    {
        if !self.running {
            return Err(SelectionError::NotReady(SHUTTING_DOWN.to_owned()));
        }
        Ok(())
    }

    /// Whether the service runs and has a worker that takes requests, and how many
    /// of them.
    pub fn ready(&self) -> (r: (bool, usize))
        ensures
            r.1 == serving_count(self.records()),
            r.0 == (self.is_running() && serving_count(self.records()) > 0),
    {
        let schedulable_workers = self.catalog.schedulable_count();
        (self.running && schedulable_workers > 0, schedulable_workers)
    }

    /// The workers.
    pub fn catalog(&self) -> (catalog: &WorkerCatalog)
        requires
            self.wf(),
        ensures
            catalog@ == self.records(),
            catalog.wf(),
    {
        &self.catalog
    }

    fn find_entry(&self, key: &SelectionKey) -> (place: Option<usize>)
        ensures
            place is Some <==> has_entry(self.groups(), key@),
            place matches Some(i) ==> i < self.entries@.len() && entry_at(
                self.groups(),
                key@,
                i as int,
            ),
    {
        for i in 0..self.entries.len()
            invariant
                forall|j: int| 0 <= j < i ==> (#[trigger] self.groups()[j]).key != key@,
        {
            if str_eq(self.entries[i].key.model_name.as_str(), key.model_name.as_str()) && str_eq(
                self.entries[i].key.tenant_id.as_str(),
                key.tenant_id.as_str(),
            ) {
                assert(self.groups()[i as int].key == key@);
                return Some(i);
            }
        }
        None
    }

    /// Makes sure that there is a group for a worker. Its workers have blocks of one
    /// size, and all or none of them are of an Eagle model. A new group gets the classes
    /// of the policy profile, which must be there.
    pub fn ensure_entry(
        &mut self,
        key: &SelectionKey,
        block_size: Option<u32>,
        is_eagle: Option<bool>,
        profile: Result<PolicyProfile, String>,
    ) -> (r: Result<usize, SelectionError>)
        requires
            old(self).wf(),
            profile matches Ok(p) ==> p.valid() && p.classes@.len() > 0,
        ensures
            final(self).wf(),
            final(self).records() == old(self).records(),
            final(self).is_running() == old(self).is_running(),
            final(self).settings() == old(self).settings(),
            r matches Ok(i) ==> {
                &&& block_size is Some
                &&& entry_at(final(self).groups(), key@, i as int)
                &&& final(self).groups()[i as int].block_size == block_size->0
                &&& final(self).groups()[i as int].is_eagle == says_eagle(is_eagle)
                &&& has_entry(old(self).groups(), key@) ==> final(self).groups()
                    == old(self).groups()
                &&& !has_entry(old(self).groups(), key@) ==> profile is Ok && final(self).groups()
                    == old(self).groups().push(
                    new_group(
                        key@,
                        block_size->0,
                        says_eagle(is_eagle),
                        old(self).settings().0,
                        profile->Ok_0,
                    ),
                )
            },
            r matches Err(e) ==> {
                &&& final(self).groups() == old(self).groups()
                &&& if block_size is None {
                    e matches SelectionError::BadRequest(text) && text@ == "block_size is required"@
                } else if !has_entry(old(self).groups(), key@) {
                    profile is Err && e == SelectionError::BadRequest(profile->Err_0)
                } else {
                    exists|i: int|
                        entry_at(old(self).groups(), key@, i) && e is Conflict && Some(
                            e->Conflict_0@,
                        ) == #[trigger] entry_conflict(
                            old(self).groups(),
                            key@,
                            block_size->0,
                            says_eagle(is_eagle),
                            i,
                        )
                }
            },
    {
        let block_size = match block_size {
            Some(block_size) => block_size,
            None => {
                return Err(SelectionError::BadRequest("block_size is required".to_owned()));
            },
        };
        let ghost asked = is_eagle;
        let is_eagle = match is_eagle {
            Some(is_eagle) => is_eagle,
            None => false,
        };
        if let Some(place) = self.find_entry(key) {
            assert(self.groups()[place as int].key == key@);
            let existing = self.entries[place].block_size;
            if existing != block_size {
                let mut text = "block_size mismatch for ".to_owned();
                text.append(key.message().as_str());
                text.append(": existing=");
                append_decimal(&mut text, existing as u64);
                text.append(" requested=");
                append_decimal(&mut text, block_size as u64);
                assert(entry_at(self.groups(), key@, place as int));
                assert(Some(text@) == entry_conflict(
                    old(self).groups(),
                    key@,
                    block_size,
                    says_eagle(asked),
                    place as int,
                ));
                return Err(SelectionError::Conflict(text));
            }
            let existing = self.entries[place].is_eagle;
            if existing != is_eagle {
                let mut text = "is_eagle mismatch for ".to_owned();
                text.append(key.message().as_str());
                text.append(": existing=");
                append_bool(&mut text, existing);
                text.append(" requested=");
                append_bool(&mut text, is_eagle);
                assert(entry_at(self.groups(), key@, place as int));
                assert(Some(text@) == entry_conflict(
                    old(self).groups(),
                    key@,
                    block_size,
                    says_eagle(asked),
                    place as int,
                ));
                return Err(SelectionError::Conflict(text));
            }
            return Ok(place);
        }
        let profile = match profile {
            Ok(profile) => profile,
            Err(error) => {
                return Err(SelectionError::BadRequest(error));
            },
        };
        let ghost wanted = profile;
        let ghost before = self.groups();
        let place = self.entries.len();
        let PolicyProfile { classes, rules } = profile;
        let queue = PolicyQueue::<WaitingSelection>::new_for(classes);
        assert(queue@.classes =~= empty_queue(wanted.classes@).classes);
        self.entries.push(
            SelectionEntry {
                key: key.clone(),
                block_size,
                is_eagle,
                slots: ActiveSequencesMultiWorker::new(),
                queueing: self.queueing_enabled,
                rules,
                queue,
            },
        );
        proof {
            let made = self.groups()[place as int];
            assert(self.groups() =~= before.push(made));
            assert forall|i: int, j: int| 0 <= i < j < self.groups().len() implies (
            #[trigger] self.groups()[i]).key != (#[trigger] self.groups()[j]).key by {
                if j < before.len() {
                    assert(before[i].key != before[j].key);
                } else {
                    assert(before[i].key != key@);
                }
            }
            assert(self.entries@[place as int].slots@ == (SequencesView {
                ranges: Seq::empty(),
                requests: Seq::empty(),
            }));
        }
        Ok(place)
    }

    /// The group that a request goes to: there must be a worker that takes requests
    /// at all, and one of the group.
    pub fn ready_entry(&self, key: &SelectionKey) -> (r: Result<usize, SelectionError>)
        requires
            self.wf(),
        ensures
            r is Ok <==> has_entry(self.groups(), key@) && group_serves(self.records(), key@),
            r matches Ok(i) ==> entry_at(self.groups(), key@, i as int),
            r matches Err(e) ==> (e matches SelectionError::NotReady(text) && text@
                == if serving_count(self.records()) == 0 {
                NO_WORKERS@
            } else {
                no_workers_for(key@)
            }),
    {
        if self.catalog.schedulable_count() == 0 {
            proof {
                assert forall|i: int| 0 <= i < self.records().len() implies !serves(
                    #[trigger] self.records()[i],
                    key@,
                ) by {
                    lemma_none_serve(self.records(), i);
                }
            }
            return Err(SelectionError::NotReady(NO_WORKERS.to_owned()));
        }
        let place = self.find_entry(key);
        if place.is_some() && self.catalog.has_schedulable_for_key(key) {
            return Ok(place.unwrap());
        }
        let mut text = "no schedulable workers for ".to_owned();
        text.append(key.message().as_str());
        Err(SelectionError::NotReady(text))
    }

    /// The block size of the group that a request goes to, and whether its workers are of
    /// an Eagle model.
    pub fn group_settings(&self, key: &SelectionKey) -> (r: Result<(u32, bool), SelectionError>)
        requires
            self.wf(),
        ensures
            r is Ok <==> has_entry(self.groups(), key@) && group_serves(self.records(), key@),
            r matches Ok(settings) ==> forall|i: int| #[trigger]
                entry_at(self.groups(), key@, i) ==> settings == (
                    self.groups()[i].block_size,
                    self.groups()[i].is_eagle,
                ),
            r matches Err(e) ==> (e matches SelectionError::NotReady(text) && text@
                == if serving_count(self.records()) == 0 {
                NO_WORKERS@
            } else {
                no_workers_for(key@)
            }),
    {
        match self.ready_entry(key) {
            Ok(place) => {
                let entry = &self.entries[place];
                assert(self.groups()[place as int] == entry.model());
                assert forall|i: int| #[trigger] entry_at(self.groups(), key@, i) implies i
                    == place by {
                    if i < place {
                        assert(self.groups()[i].key != self.groups()[place as int].key);
                    } else if i > place {
                        assert(self.groups()[place as int].key != self.groups()[i].key);
                    }
                }
                Ok((entry.block_size, entry.is_eagle))
            },
            Err(e) => Err(e),
        }
    }
}

proof fn lemma_none_serve(records: Seq<WorkerCatalogRecord>, i: int)
    requires
        serving_count(records) == 0,
        0 <= i < records.len(),
    ensures
        records[i].lifecycle != WorkerLifecycle::Schedulable,
    decreases records.len(),
{
    if i < records.len() - 1 {
        lemma_none_serve(records.drop_last(), i);
    }
}

/// Asks to book a worker for a request.
pub struct ReservationRequest {
    pub model_name: String,
    pub tenant_id: String,
    pub reservation_id: String,
    pub worker_id: WorkerId,
    pub dp_rank: Option<DpRank>,
    pub prompt: PromptRequest,
    pub router_config_override: Option<RouterConfigOverride>,
    pub expected_output_tokens: Option<u32>,
    pub effective_prefill_tokens: Option<usize>,
}

impl ReservationRequest {
    /// The rank that is booked: the first where none is named.
    pub open spec fn spec_worker(&self) -> (u64, u32) {
        (
            self.worker_id,
            match self.dp_rank {
                Some(rank) => rank,
                None => 0,
            },
        )
    }

    /// The group of the worker.
    pub open spec fn spec_key(&self) -> (Seq<char>, Seq<char>) {
        (self.model_name@, self.tenant_id@)
    }
}

/// Whether a prompt can be reserved for.
pub open spec fn reservable(prompt: PromptRequest) -> bool {
    routing_tokens(prompt) is Some || sequence_complaint(prompt) is None
}

/// The tokens of a prompt that can be reserved for.
pub open spec fn reserved_isl(prompt: PromptRequest) -> nat {
    match routing_tokens(prompt) {
        Some(tokens) => tokens.0.len(),
        None => prompt.isl_tokens->0 as nat,
    }
}

/// The blocks of a prompt that can be reserved for.
pub open spec fn reserved_hashes(prompt: PromptRequest, block_size: u32, is_eagle: bool) -> Seq<
    u64,
> {
    match routing_tokens(prompt) {
        Some(tokens) => seq_hashes(
            block_hashes(
                tokens.0,
                block_size as nat,
                tokens.1,
                opt_string_view(prompt.lora_name),
                Some(hashed_as_eagle(prompt, is_eagle)),
            ),
        ),
        None => prompt.sequence_hashes->0@,
    }
}

/// What is said of too many prefill tokens.
pub open spec fn too_many_tokens_text(effective: usize, isl: nat) -> Seq<char> {
    "effective_prefill_tokens ("@ + decimal(effective as nat) + ") must not exceed isl_tokens ("@
        + decimal(isl) + ")"@
}

/// Whether a worker of a group takes requests, and where.
pub open spec fn serves_at(
    records: Seq<WorkerCatalogRecord>,
    worker_id: u64,
    key: (Seq<char>, Seq<char>),
    endpoint: Seq<char>,
) -> bool {
    exists|i: int|
        0 <= i < records.len() && serves(#[trigger] records[i], key) && records[i].worker_id
            == worker_id && records[i].endpoint is Some && records[i].endpoint->0@ == endpoint
}

/// What a reservation makes active.
pub open spec fn reserved_view(
    req: ReservationRequest,
    entry: EntryView,
    now_millis: u64,
) -> ActiveView {
    ActiveView {
        id: req.reservation_id@,
        worker: req.spec_worker(),
        hashes: reserved_hashes(req.prompt, entry.block_size, entry.is_eagle),
        output_blocks: 0,
        prefill_tokens: match req.effective_prefill_tokens {
            Some(tokens) => tokens,
            None => 0,
        },
        since_millis: now_millis,
    }
}

/// Whether nothing but a reservation stands in its own way.
pub open spec fn reservation_can_be_made(core: SelectionCore, req: ReservationRequest, i: int) -> bool {
    &&& core.is_running()
    &&& group_serves(core.records(), req.spec_key())
    &&& entry_at(core.groups(), req.spec_key(), i)
    &&& reservable(req.prompt)
    &&& (req.effective_prefill_tokens matches Some(tokens) ==> tokens <= reserved_isl(req.prompt))
    &&& exists|endpoint: Seq<char>| #[trigger]
        serves_at(core.records(), req.worker_id, req.spec_key(), endpoint)
    &&& has_rank(core.groups()[i].sequences.ranges, req.spec_worker())
    &&& !has_request(core.groups()[i].sequences.requests, req.reservation_id@)
}

/// Why a reservation is turned away: the first of what stands in its way.
pub open spec fn reservation_refused(
    core: SelectionCore,
    req: ReservationRequest,
    error: SelectionError,
) -> bool {
    let key = req.spec_key();
    if !core.is_running() {
        error matches SelectionError::NotReady(text) && text@ == SHUTTING_DOWN@
    } else if !has_entry(core.groups(), key) || !group_serves(core.records(), key) {
        error matches SelectionError::NotReady(text) && text@ == if serving_count(core.records())
            == 0 {
            NO_WORKERS@
        } else {
            no_workers_for(key)
        }
    } else if !reservable(req.prompt) {
        error matches SelectionError::BadRequest(text) && Some(text@) == sequence_complaint(
            req.prompt,
        )
    } else if req.effective_prefill_tokens is Some && req.effective_prefill_tokens->0
        > reserved_isl(req.prompt) {
        error matches SelectionError::BadRequest(text) && text@ == too_many_tokens_text(
            req.effective_prefill_tokens->0,
            reserved_isl(req.prompt),
        )
    } else if !(exists|endpoint: Seq<char>| #[trigger]
        serves_at(core.records(), req.worker_id, key, endpoint)) {
        error matches SelectionError::NotFound(text) && text@ == not_schedulable_text(
            req.worker_id,
            key,
        )
    } else {
        exists|i: int| #[trigger]
            entry_at(core.groups(), key, i) && if !has_rank(
                core.groups()[i].sequences.ranges,
                req.spec_worker(),
            ) {
                error matches SelectionError::Sequence(SequenceError::WorkerNotFound { worker })
                    && worker.spec_key() == req.spec_worker()
            } else {
                error matches SelectionError::Sequence(
                    SequenceError::DuplicateRequest { request_id },
                ) && request_id@ == req.reservation_id@
            }
    }
}

/// The entries that a change of one of them leaves are as they were.
proof fn lemma_entry_changed(
    before: Seq<SelectionEntry>,
    after: Seq<SelectionEntry>,
    place: int,
)
    requires
        0 <= place < before.len(),
        after.len() == before.len(),
        forall|i: int| 0 <= i < before.len() && i != place ==> after[i] == before[i],
        after[place].key == before[place].key,
        after[place].block_size == before[place].block_size,
        after[place].is_eagle == before[place].is_eagle,
        after[place].queueing == before[place].queueing,
        after[place].rules == before[place].rules,
        after[place].queue == before[place].queue,
        forall|i: int, j: int|
            0 <= i < j < before.len() ==> (#[trigger] entry_models(before)[i]).key != (
            #[trigger] entry_models(before)[j]).key,
    ensures
        entry_models(after) == entry_with(entry_models(before), place, after[place].slots@),
        forall|i: int, j: int|
            0 <= i < j < after.len() ==> (#[trigger] entry_models(after)[i]).key != (
            #[trigger] entry_models(after)[j]).key,
{
    assert(entry_models(after) =~= entry_with(entry_models(before), place, after[place].slots@));
    assert forall|i: int, j: int| 0 <= i < j < after.len() implies (
    #[trigger] entry_models(after)[i]).key != (#[trigger] entry_models(after)[j]).key by {
        assert(entry_models(before)[i].key != entry_models(before)[j].key);
    }
}

impl SelectionCore {
    /// Books a worker that was selected before.
    pub fn create_reservation(&mut self, req: ReservationRequest, now_millis: u64) -> (r: Result<
        ReservationResponse,
        SelectionError,
    >)
        requires
            old(self).wf(),
        ensures
            final(self).wf(),
            final(self).records() == old(self).records(),
            final(self).is_running() == old(self).is_running(),
            final(self).settings() == old(self).settings(),
            r is Ok <==> exists|i: int| #[trigger] reservation_can_be_made(*old(self), req, i),
            r matches Ok(response) ==> {
                &&& exists|i: int|
                    #![trigger entry_at(old(self).groups(), req.spec_key(), i)]
                    entry_at(old(self).groups(), req.spec_key(), i) && final(self).groups()
                        == entry_with(
                        old(self).groups(),
                        i,
                        SequencesView {
                            ranges: old(self).groups()[i].sequences.ranges,
                            requests: old(self).groups()[i].sequences.requests.push(
                                reserved_view(req, old(self).groups()[i], now_millis),
                            ),
                        },
                    )
                &&& response.reservation_id@ == req.reservation_id@
                &&& (response.model_name@, response.tenant_id@) == req.spec_key()
                &&& (response.worker_id, response.dp_rank) == req.spec_worker()
                &&& serves_at(
                    old(self).records(),
                    req.worker_id,
                    req.spec_key(),
                    response.endpoint@,
                )
            },
            r matches Err(e) ==> reservation_refused(*old(self), req, e) && final(self).groups()
                == old(self).groups(),
    {
        match self.ensure_running() {
            Ok(()) => {},
            Err(e) => {
                return Err(e);
            },
        }
        let key = SelectionKey::new(
            req.model_name.as_str().to_owned(),
            req.tenant_id.as_str().to_owned(),
        );
        let place = match self.ready_entry(&key) {
            Ok(place) => place,
            Err(e) => {
                return Err(e);
            },
        };
        let ghost entry = self.groups()[place as int];
        assert(entry == self.entries@[place as int].model());
        proof {
            assert forall|i: int| #[trigger] reservation_can_be_made(*self, req, i) implies i
                == place by {
                if i < place {
                    assert(self.groups()[i].key != self.groups()[place as int].key);
                } else if i > place {
                    assert(self.groups()[place as int].key != self.groups()[i].key);
                }
            }
        }
        let normalized = match req.prompt.normalize_for_reservation(
            self.entries[place].block_size,
            self.entries[place].is_eagle,
        ) {
            Ok(normalized) => normalized,
            Err(e) => {
                return Err(e);
            },
        };
        assert(normalized.isl_tokens == reserved_isl(req.prompt));
        assert(normalized.sequence_hashes@ == reserved_hashes(
            req.prompt,
            entry.block_size,
            entry.is_eagle,
        ));
        let prefill_load_hint = match req.effective_prefill_tokens {
            Some(tokens) => match prefill_load_hint_from_effective_tokens(
                normalized.isl_tokens,
                tokens,
            ) {
                Ok(hint) => Some(hint),
                Err(e) => {
                    return Err(SelectionError::BadRequest(e.message()));
                },
            },
            None => None,
        };
        let worker = WorkerWithDpRank::new(
            req.worker_id,
            match req.dp_rank {
                Some(rank) => rank,
                None => 0,
            },
        );
        let endpoint = match self.catalog.schedulable_endpoint(req.worker_id, &key) {
            Some(endpoint) => endpoint,
            None => {
                proof {
                    assert forall|endpoint: Seq<char>|
                        !#[trigger] serves_at(
                            self.records(),
                            req.worker_id,
                            req.spec_key(),
                            endpoint,
                        ) by {}
                }
                let mut text = "schedulable worker ".to_owned();
                append_decimal(&mut text, req.worker_id);
                text.append(" not found for ");
                text.append(key.message().as_str());
                return Err(SelectionError::NotFound(text));
            },
        };
        assert(serves_at(self.records(), req.worker_id, req.spec_key(), endpoint@));
        let track_prefill_tokens = req.effective_prefill_tokens.is_some() || match &req.router_config_override {
            Some(config) => match config.track_prefill_tokens {
                Some(track) => track,
                None => self.track_prefill_tokens,
            },
            None => self.track_prefill_tokens,
        };
        let lora_name = match &req.prompt.lora_name {
            Some(name) => Some(name.as_str().to_owned()),
            None => None,
        };
        let booking = SequenceRequest {
            request_id: req.reservation_id.as_str().to_owned(),
            token_sequence: Some(normalized.sequence_hashes),
            track_prefill_tokens,
            expected_output_tokens: req.expected_output_tokens,
            prefill_load_hint,
            worker,
            lora_name,
        };
        assert(made_active(booking, now_millis) == reserved_view(req, entry, now_millis));
        let ghost before = self.entries@;
        assert(self.entries@[place as int].wf());
        let outcome = self.entries[place].slots.add_request_if_registered(booking, now_millis);
        proof {
            lemma_entry_changed(before, self.entries@, place as int);
        }
        match outcome {
            Ok(()) => {
                assert(reservation_can_be_made(*old(self), req, place as int));
                assert(entry_at(old(self).groups(), req.spec_key(), place as int));
                Ok(
                    ReservationResponse {
                        reservation_id: req.reservation_id,
                        model_name: key.model_name,
                        tenant_id: key.tenant_id,
                        worker_id: worker.worker_id,
                        dp_rank: worker.dp_rank,
                        endpoint,
                    },
                )
            },
            Err(e) => {
                assert(self.groups() =~= old(self).groups());
                Err(SelectionError::Sequence(e))
            },
        }
    }
}

/// Whether a reservation is in a group.
pub open spec fn reserved_in(entries: Seq<EntryView>, id: Seq<char>, i: int) -> bool {
    0 <= i < entries.len() && has_request(entries[i].sequences.requests, id)
}

/// Whether a reservation is in a group, and in none before it.
pub open spec fn first_reserved_in(entries: Seq<EntryView>, id: Seq<char>, i: int) -> bool {
    reserved_in(entries, id, i) && forall|j: int| 0 <= j < i ==> !#[trigger] reserved_in(
        entries,
        id,
        j,
    )
}

fn no_reservation(reservation_id: &str) -> (e: SelectionError)
    ensures
        e matches SelectionError::NotFound(text) && text@ == no_reservation_text(reservation_id@),
{
    SelectionError::NotFound(concat3("reservation ", reservation_id, " not found"))
}

impl SelectionCore {
    /// Marks the prefill of a reservation as done.
    pub fn prefill_complete(&mut self, reservation_id: &str) -> (r: Result<(), SelectionError>)
        requires
            old(self).wf(),
        ensures
            final(self).wf(),
            final(self).records() == old(self).records(),
            final(self).is_running() == old(self).is_running(),
            final(self).settings() == old(self).settings(),
            r is Ok ==> exists|i: int| #[trigger]
                first_reserved_in(old(self).groups(), reservation_id@, i) && final(self).groups()
                    == entry_with(
                    old(self).groups(),
                    i,
                    SequencesView {
                        ranges: old(self).groups()[i].sequences.ranges,
                        requests: prefilled(
                            old(self).groups()[i].sequences.requests,
                            reservation_id@,
                        ),
                    },
                ),
            r matches Err(e) ==> {
                &&& final(self).groups() == old(self).groups()
                &&& forall|i: int| !#[trigger] reserved_in(old(self).groups(), reservation_id@, i)
                &&& e matches SelectionError::NotFound(text) && text@ == no_reservation_text(
                    reservation_id@,
                )
            },
    {
        let place = match self.find_reservation(reservation_id) {
            Some(place) => place,
            None => {
                return Err(no_reservation(reservation_id));
            },
        };
        let ghost before = self.entries@;
        assert(self.entries@[place as int].wf());
        let outcome = self.entries[place].slots.mark_prefill_completed(reservation_id);
        proof {
            assert(outcome is Ok);
            lemma_entry_changed(before, self.entries@, place as int);
        }
        Ok(())
    }

    fn find_reservation(&self, reservation_id: &str) -> (place: Option<usize>)
        ensures
            place matches Some(i) ==> i < self.entries@.len() && first_reserved_in(
                self.groups(),
                reservation_id@,
                i as int,
            ),
            place is None ==> forall|i: int|
                !#[trigger] reserved_in(self.groups(), reservation_id@, i),
    {
        for i in 0..self.entries.len()
            invariant
                forall|j: int|
                    0 <= j < i ==> !#[trigger] reserved_in(self.groups(), reservation_id@, j),
        {
            assert(self.groups()[i as int] == self.entries@[i as int].model());
            if self.entries[i].slots.is_active(reservation_id) {
                assert(first_reserved_in(self.groups(), reservation_id@, i as int));
                return Some(i);
            }
        }
        None
    }

    /// Ends a reservation.
    pub fn free_reservation(&mut self, reservation_id: &str) -> (r: Result<(), SelectionError>)
        requires
            old(self).wf(),
        ensures
            final(self).wf(),
            final(self).records() == old(self).records(),
            final(self).is_running() == old(self).is_running(),
            final(self).settings() == old(self).settings(),
            r is Ok ==> exists|i: int| #[trigger]
                first_reserved_in(old(self).groups(), reservation_id@, i) && final(self).groups()
                    == entry_with(
                    old(self).groups(),
                    i,
                    SequencesView {
                        ranges: old(self).groups()[i].sequences.ranges,
                        requests: without_request(
                            old(self).groups()[i].sequences.requests,
                            reservation_id@,
                        ),
                    },
                ),
            r matches Err(e) ==> {
                &&& final(self).groups() == old(self).groups()
                &&& forall|i: int| !#[trigger] reserved_in(old(self).groups(), reservation_id@, i)
                &&& e matches SelectionError::NotFound(text) && text@ == no_reservation_text(
                    reservation_id@,
                )
            },
    {
        let place = match self.find_reservation(reservation_id) {
            Some(place) => place,
            None => {
                return Err(no_reservation(reservation_id));
            },
        };
        let ghost before = self.entries@;
        assert(self.entries@[place as int].wf());
        self.entries[place].slots.free(reservation_id);
        proof {
            lemma_entry_changed(before, self.entries@, place as int);
        }
        Ok(())
    }

    /// Registers the ranks of the workers of a group that take requests, so that
    /// they can be booked.
    pub fn publish_scheduler_config(&mut self, key: &SelectionKey)
        requires
            old(self).wf(),
        ensures
            final(self).wf(),
            final(self).records() == old(self).records(),
            final(self).is_running() == old(self).is_running(),
            final(self).settings() == old(self).settings(),
            !has_entry(old(self).groups(), key@) ==> final(self).groups() == old(self).groups(),
            has_entry(old(self).groups(), key@) ==> exists|i: int| #[trigger]
                entry_at(old(self).groups(), key@, i) && final(self).groups() == entry_with(
                    old(self).groups(),
                    i,
                    published(old(self).records(), key@, old(self).groups()[i].sequences),
                ),
    {
        let place = match self.find_entry(key) {
            Some(place) => place,
            None => {
                return ;
            },
        };
        let ghost before = self.entries@;
        let ghost records = self.catalog@;
        let ghost start = before[place as int].slots@;
        let count = self.catalog.len();
        assert(self.entries@[place as int].wf());
        assert(records.take(0) =~= Seq::<WorkerCatalogRecord>::empty());
        for i in 0..count
            invariant
                place < before.len(),
                count == records.len(),
                self.catalog@ == records,
                self.catalog.wf(),
                self.running == old(self).running,
                self.settings() == old(self).settings(),
                self.entries@.len() == before.len(),
                forall|j: int|
                    0 <= j < before.len() && j != place ==> self.entries@[j] == before[j],
                self.entries@[place as int].key == before[place as int].key,
                self.entries@[place as int].block_size == before[place as int].block_size,
                self.entries@[place as int].is_eagle == before[place as int].is_eagle,
                self.entries@[place as int].queueing == before[place as int].queueing,
                self.entries@[place as int].rules == before[place as int].rules,
                self.entries@[place as int].queue == before[place as int].queue,
                self.entries@[place as int].wf(),
                self.entries@[place as int].slots@ == published(
                    records.take(i as int),
                    key@,
                    start,
                ),
        {
            let record = self.catalog.at(i);
            let range = WorkerDpRange::new(record.worker_id, record.dp_start(), record.dp_size());
            let serving = self.catalog.serves_key(i, key);
            proof {
                let more = records.take(i + 1);
                assert(more.drop_last() =~= records.take(i as int));
                assert(more.last() == records[i as int]);
            }
            if serving {
                let _ = self.entries[place].slots.upsert_worker(range);
            }
        }
        proof {
            assert(records.take(records.len() as int) =~= records);
            assert forall|i: int| 0 <= i < self.entries@.len() implies (
            #[trigger] self.entries@[i]).wf() by {
                if i != place {
                    assert(self.entries@[i] == before[i]);
                    assert(old(self).entries@[i].wf());
                }
            }
            lemma_entry_changed(before, self.entries@, place as int);
            assert(entry_at(old(self).groups(), key@, place as int));
        }
    }
}

/// The ranks of a worker.
pub open spec fn ranks_of(record: WorkerCatalogRecord) -> WorkerDpRange {
    WorkerDpRange {
        worker_id: record.worker_id,
        dp_start: record.spec_dp_start(),
        dp_size: record.spec_dp_size(),
    }
}

/// The ranks and requests of a group once its workers that take requests are
/// registered. One whose ranks make no sense is left out.
pub open spec fn published(
    records: Seq<WorkerCatalogRecord>,
    key: (Seq<char>, Seq<char>),
    s: SequencesView,
) -> SequencesView
    decreases records.len(),
{
    if records.len() == 0 {
        s
    } else {
        let before = published(records.drop_last(), key, s);
        let range = ranks_of(records.last());
        if serves(records.last(), key) && range.valid() {
            upserted(before, range)
        } else {
            before
        }
    }
}

/// Whether a worker, and nothing else, was put into a state for some reasons.
pub open spec fn settled(
    before: Seq<WorkerCatalogRecord>,
    after: Seq<WorkerCatalogRecord>,
    worker_id: u64,
    lifecycle: WorkerLifecycle,
    reasons: Seq<Seq<char>>,
) -> bool {
    exists|i: int, texts: Vec<String>|
        #![trigger before[i], texts_view(texts@)]
        0 <= i < before.len() && before[i].worker_id == worker_id && texts_view(texts@) == reasons
            && after == before.update(i, in_state(before[i], lifecycle, texts))
}

/// Whether a place is that of a worker.
pub open spec fn worker_in(records: Seq<WorkerCatalogRecord>, worker_id: u64, i: int) -> bool {
    0 <= i < records.len() && records[i].worker_id == worker_id
}

/// What is said of a worker that could not be made ready.
pub open spec fn failed_text(why: Seq<char>) -> Seq<char> {
    "reconciliation failed: "@ + why
}

/// What comes of making a worker ready.
#[derive(Clone, Copy, Debug, PartialEq, Eq, Structural)]
pub enum ReconcileStep {
    /// It cannot take requests as it is.
    Incomplete,
    /// Its events are to be listened to first.
    Listen,
    /// It takes requests.
    Schedulable,
}

/// Why a worker's settings keep it out of its group, if they do.
pub open spec fn group_conflict(entries: Seq<EntryView>, record: WorkerCatalogRecord, i: int) -> Option<
    Seq<char>,
> {
    entry_conflict(
        entries,
        record.spec_key(),
        record.block_size->0,
        says_eagle(record.is_eagle),
        i,
    )
}

/// Whether groups are others with that of a worker, a new one where it was not there.
pub open spec fn joined(
    before: Seq<EntryView>,
    after: Seq<EntryView>,
    record: WorkerCatalogRecord,
    queueing: bool,
    profile: Result<PolicyProfile, String>,
) -> bool {
    if has_entry(before, record.spec_key()) {
        after == before
    } else {
        profile is Ok && after == before.push(
            new_group(
                record.spec_key(),
                record.block_size->0,
                says_eagle(record.is_eagle),
                queueing,
                profile->Ok_0,
            ),
        )
    }
}

impl SelectionCore {
    /// Adds a worker, or replaces what was known of it. Tells whether it took
    /// requests before; it takes none until it is made ready.
    pub fn upsert_worker(&mut self, req: WorkerRequest) -> (r: Result<bool, SelectionError>)
        requires
            old(self).wf(),
        ensures
            final(self).wf(),
            final(self).groups() == old(self).groups(),
            final(self).is_running() == old(self).is_running(),
            final(self).settings() == old(self).settings(),
            r is Ok <==> old(self).is_running(),
            r matches Err(e) ==> final(self).records() == old(self).records() && (
            e matches SelectionError::NotReady(text) && text@ == SHUTTING_DOWN@),
            r matches Ok(was) ==> exists|i: int| #[trigger]
                worker_in(final(self).records(), req.worker_id, i) && final(self).records()[i].lifecycle
                    == WorkerLifecycle::Incomplete && call_ensures(
                    WorkerCatalogRecord::new,
                    (req,),
                    final(self).records()[i],
                ) && if knows_worker(old(self).records(), req.worker_id) {
                    final(self).records() == old(self).records().update(
                        i,
                        final(self).records()[i],
                    ) && was == (old(self).records()[i].lifecycle == WorkerLifecycle::Schedulable)
                } else {
                    final(self).records() == old(self).records().push(final(self).records()[i])
                        && !was
                },
    {
        match self.ensure_running() {
            Ok(()) => {},
            Err(e) => {
                return Err(e);
            },
        }
        let (place, was) = self.catalog.upsert(req);
        proof {
            assert(self.groups() == old(self).groups());
            assert(self.entries@ == old(self).entries@);
            assert(worker_in(self.records(), req.worker_id, place as int));
        }
        Ok(was)
    }

    /// Takes a change of a worker over. Tells whether it took requests before.
    pub fn patch_worker(&mut self, worker_id: WorkerId, patch: WorkerPatchRequest) -> (r: Result<
        bool,
        SelectionError,
    >)
        requires
            old(self).wf(),
        ensures
            final(self).wf(),
            final(self).groups() == old(self).groups(),
            final(self).is_running() == old(self).is_running(),
            final(self).settings() == old(self).settings(),
            r is Ok <==> old(self).is_running() && knows_worker(old(self).records(), worker_id),
            r matches Err(e) ==> final(self).records() == old(self).records() && if !old(
                self,
            ).is_running() {
                e matches SelectionError::NotReady(text) && text@ == SHUTTING_DOWN@
            } else {
                e matches SelectionError::NotFound(text) && text@ == unknown_worker_text(worker_id)
            },
            r matches Ok(was) ==> exists|i: int| #[trigger]
                worker_in(old(self).records(), worker_id, i) && final(self).records() == old(
                    self,
                ).records().update(i, patched(old(self).records()[i], patch)) && was == (old(
                    self,
                ).records()[i].lifecycle == WorkerLifecycle::Schedulable),
    {
        match self.ensure_running() {
            Ok(()) => {},
            Err(e) => {
                return Err(e);
            },
        }
        match self.catalog.patch(worker_id, patch) {
            Ok((place, was)) => {
                proof {
                    assert(self.groups() == old(self).groups());
                    assert(self.entries@ == old(self).entries@);
                    assert(worker_in(old(self).records(), worker_id, place as int));
                }
                Ok(was)
            },
            Err(e) => {
                assert(self.groups() == old(self).groups());
                Err(e)
            },
        }
    }

    fn settle(
        &mut self,
        worker_id: WorkerId,
        lifecycle: WorkerLifecycle,
        reasons: Vec<String>,
    ) -> (r: Result<(), SelectionError>)
        requires
            old(self).wf(),
        ensures
            final(self).wf(),
            final(self).groups() == old(self).groups(),
            final(self).is_running() == old(self).is_running(),
            final(self).settings() == old(self).settings(),
            r is Ok <==> knows_worker(old(self).records(), worker_id),
            r is Ok ==> settled(
                old(self).records(),
                final(self).records(),
                worker_id,
                lifecycle,
                texts_view(reasons@),
            ),
            r matches Err(e) ==> final(self).records() == old(self).records() && (
            e matches SelectionError::NotFound(text) && text@ == unknown_worker_text(worker_id)),
    {
        let ghost before = self.records();
        let place = self.catalog.set_lifecycle(worker_id, lifecycle, reasons);
        assert(self.groups() == old(self).groups());
        match place {
            Some(place) => {
                proof {
                    assert(before[place as int].worker_id == worker_id);
                    assert(texts_view(reasons@) == texts_view(reasons@));
                }
                Ok(())
            },
            None => Err(unknown_worker(worker_id)),
        }
    }

    /// Keeps new requests from a worker.
    pub fn drain_worker(&mut self, worker_id: WorkerId) -> (r: Result<(), SelectionError>)
        requires
            old(self).wf(),
        ensures
            final(self).wf(),
            final(self).groups() == old(self).groups(),
            final(self).is_running() == old(self).is_running(),
            final(self).settings() == old(self).settings(),
            r is Ok <==> knows_worker(old(self).records(), worker_id),
            r is Ok ==> settled(
                old(self).records(),
                final(self).records(),
                worker_id,
                WorkerLifecycle::Draining,
                Seq::empty(),
            ),
            r matches Err(e) ==> final(self).records() == old(self).records() && (
            e matches SelectionError::NotFound(text) && text@ == unknown_worker_text(worker_id)),
    {
        let none: Vec<String> = Vec::new();
        assert(texts_view(none@) =~= Seq::<Seq<char>>::empty());
        self.settle(worker_id, WorkerLifecycle::Draining, none)
    }

    /// Takes a worker out of service. It stays known.
    pub fn delete_worker(&mut self, worker_id: WorkerId) -> (r: Result<(), SelectionError>)
        requires
            old(self).wf(),
        ensures
            final(self).wf(),
            final(self).groups() == old(self).groups(),
            final(self).is_running() == old(self).is_running(),
            final(self).settings() == old(self).settings(),
            r is Ok <==> knows_worker(old(self).records(), worker_id),
            r is Ok ==> settled(
                old(self).records(),
                final(self).records(),
                worker_id,
                WorkerLifecycle::Unschedulable,
                Seq::empty(),
            ),
            r matches Err(e) ==> final(self).records() == old(self).records() && (
            e matches SelectionError::NotFound(text) && text@ == unknown_worker_text(worker_id)),
    {
        let none: Vec<String> = Vec::new();
        assert(texts_view(none@) =~= Seq::<Seq<char>>::empty());
        self.settle(worker_id, WorkerLifecycle::Unschedulable, none)
    }

    /// Ends the making ready of a worker whose events are listened to: it takes
    /// requests, unless the listening failed.
    pub fn finish_reconcile(&mut self, worker_id: WorkerId, listening: Result<(), SelectionError>) -> (r:
        Result<ReconcileStep, SelectionError>)
        requires
            old(self).wf(),
        ensures
            final(self).wf(),
            final(self).groups() == old(self).groups(),
            final(self).is_running() == old(self).is_running(),
            final(self).settings() == old(self).settings(),
            r is Ok <==> knows_worker(old(self).records(), worker_id),
            r matches Ok(step) ==> match listening {
                Ok(()) => step == ReconcileStep::Schedulable && settled(
                    old(self).records(),
                    final(self).records(),
                    worker_id,
                    WorkerLifecycle::Schedulable,
                    Seq::empty(),
                ),
                Err(e) => step == ReconcileStep::Incomplete && settled(
                    old(self).records(),
                    final(self).records(),
                    worker_id,
                    WorkerLifecycle::Incomplete,
                    seq![failed_text(e.spec_message())],
                ),
            },
            r matches Err(e) ==> final(self).records() == old(self).records() && (
            e matches SelectionError::NotFound(text) && text@ == unknown_worker_text(worker_id)),
    {
        match listening {
            Ok(()) => {
                let none: Vec<String> = Vec::new();
                assert(texts_view(none@) =~= Seq::<Seq<char>>::empty());
                match self.settle(worker_id, WorkerLifecycle::Schedulable, none) {
                    Ok(()) => Ok(ReconcileStep::Schedulable),
                    Err(e) => Err(e),
                }
            },
            Err(error) => {
                let mut text = "reconciliation failed: ".to_owned();
                text.append(error.message().as_str());
                let ghost words = text@;
                let mut reasons: Vec<String> = Vec::new();
                reasons.push(text);
                assert(texts_view(reasons@) =~= seq![words]);
                match self.settle(worker_id, WorkerLifecycle::Incomplete, reasons) {
                    Ok(()) => Ok(ReconcileStep::Incomplete),
                    Err(e) => Err(e),
                }
            },
        }
    }

    /// Makes a worker ready: it must say enough of itself and fit its group, and there
    /// must be a policy profile for a new group. Where its events are to be listened to,
    /// that comes before it takes requests.
    pub fn begin_reconcile(
        &mut self,
        worker_id: WorkerId,
        profile: Result<PolicyProfile, String>,
    ) -> (r: Result<ReconcileStep, SelectionError>)
        requires
            old(self).wf(),
            profile matches Ok(p) ==> p.valid() && p.classes@.len() > 0,
        ensures
            final(self).wf(),
            final(self).is_running() == old(self).is_running(),
            final(self).settings() == old(self).settings(),
            r is Ok <==> knows_worker(old(self).records(), worker_id),
            r matches Err(e) ==> final(self).records() == old(self).records() && final(self).groups()
                == old(self).groups() && (e matches SelectionError::NotFound(text) && text@
                == unknown_worker_text(worker_id)),
            r matches Ok(step) ==> exists|i: int| #[trigger]
                worker_in(old(self).records(), worker_id, i) && ({
                    let record = old(self).records()[i];
                    let missing = record.spec_missing(
                        old(self).settings().0,
                        old(self).settings().1,
                    );
                    if missing.len() > 0 {
                        &&& step == ReconcileStep::Incomplete
                        &&& final(self).groups() == old(self).groups()
                        &&& settled(
                            old(self).records(),
                            final(self).records(),
                            worker_id,
                            WorkerLifecycle::Incomplete,
                            missing,
                        )
                    } else if exists|g: int| #[trigger]
                        group_conflict(old(self).groups(), record, g) is Some {
                        &&& step == ReconcileStep::Incomplete
                        &&& final(self).groups() == old(self).groups()
                        &&& exists|g: int| #[trigger]
                            group_conflict(old(self).groups(), record, g) is Some && settled(
                                old(self).records(),
                                final(self).records(),
                                worker_id,
                                WorkerLifecycle::Incomplete,
                                seq![failed_text(group_conflict(old(self).groups(), record, g)->0)],
                            )
                    } else if profile is Err && !has_entry(old(self).groups(), record.spec_key()) {
                        &&& step == ReconcileStep::Incomplete
                        &&& final(self).groups() == old(self).groups()
                        &&& settled(
                            old(self).records(),
                            final(self).records(),
                            worker_id,
                            WorkerLifecycle::Incomplete,
                            seq![failed_text(profile->Err_0@)],
                        )
                    } else {
                        &&& joined(
                            old(self).groups(),
                            final(self).groups(),
                            record,
                            old(self).settings().0,
                            profile,
                        )
                        &&& if old(self).settings().1 {
                            step == ReconcileStep::Listen && final(self).records() == old(
                                self,
                            ).records()
                        } else {
                            step == ReconcileStep::Schedulable && settled(
                                old(self).records(),
                                final(self).records(),
                                worker_id,
                                WorkerLifecycle::Schedulable,
                                Seq::empty(),
                            )
                        }
                    }
                }),
    {
        let place = match self.catalog.find(worker_id) {
            Some(place) => place,
            None => {
                return Err(unknown_worker(worker_id));
            },
        };
        let record = self.catalog.at(place);
        let ghost was = *record;
        assert(worker_in(old(self).records(), worker_id, place as int));
        let reasons = record.missing_schedulable_metadata(
            self.queueing_enabled,
            self.use_kv_events,
        );
        let key = record.key();
        let block_size = record.block_size;
        let is_eagle = record.is_eagle;
        if reasons.len() > 0 {
            let ghost missing = texts_view(reasons@);
            assert(missing.len() == reasons@.len());
            return match self.settle(worker_id, WorkerLifecycle::Incomplete, reasons) {
                Ok(()) => Ok(ReconcileStep::Incomplete),
                Err(e) => Err(e),
            };
        }
        assert(was.spec_missing(old(self).settings().0, old(self).settings().1).len() == 0) by {
            assert(texts_view(reasons@).len() == 0);
        }
        assert(was.block_size is Some) by {
            lemma_complete_has_block_size(was, old(self).settings().0, old(self).settings().1);
        }
        match self.ensure_entry(&key, block_size, is_eagle, profile) {
            Err(error) => {
                proof {
                    if !has_entry(old(self).groups(), key@) {
                        assert(error.spec_message() == profile->Err_0@);
                        assert forall|g: int| #[trigger]
                            group_conflict(old(self).groups(), was, g) is None by {}
                    }
                    let g = choose|g: int|
                        entry_at(old(self).groups(), key@, g) && error is Conflict && Some(
                            error->Conflict_0@,
                        ) == #[trigger] entry_conflict(
                            old(self).groups(),
                            key@,
                            block_size->0,
                            says_eagle(is_eagle),
                            g,
                        );
                    if has_entry(old(self).groups(), key@) {
                        assert(group_conflict(old(self).groups(), was, g) == Some(
                            error->Conflict_0@,
                        ));
                        assert(error.spec_message() == error->Conflict_0@);
                    }
                }
                self.finish_reconcile(worker_id, Err(error))
            },
            Ok(entry) => {
                proof {
                    assert(joined(
                        old(self).groups(),
                        self.groups(),
                        was,
                        old(self).settings().0,
                        profile,
                    ));
                    assert forall|g: int| #[trigger]
                        group_conflict(old(self).groups(), was, g) is None by {
                        if entry_at(old(self).groups(), was.spec_key(), g) {
                            assert(has_entry(old(self).groups(), key@));
                            if g < entry {
                                assert(self.groups()[g].key != self.groups()[entry as int].key);
                            } else if g > entry {
                                assert(self.groups()[entry as int].key != self.groups()[g].key);
                            }
                        }
                    }
                }
                if self.use_kv_events {
                    return Ok(ReconcileStep::Listen);
                }
                self.finish_reconcile(worker_id, Ok(()))
            },
        }
    }
}

/// A worker of which nothing is missing says how large its blocks are.
proof fn lemma_complete_has_block_size(
    record: WorkerCatalogRecord,
    queueing_enabled: bool,
    kv_events_enabled: bool,
)
    requires
        record.spec_missing(queueing_enabled, kv_events_enabled).len() == 0,
    ensures
        record.block_size is Some,
{
}

/// Freeing a reservation undoes making it.
pub proof fn freeing_undoes_reserving(groups: Seq<EntryView>, i: int, made: ActiveView)
    requires
        0 <= i < groups.len(),
        forall|j: int| !#[trigger] reserved_in(groups, made.id, j),
    ensures
        ({
            let sequences = groups[i].sequences;
            let reserved = entry_with(
                groups,
                i,
                SequencesView {
                    ranges: sequences.ranges,
                    requests: sequences.requests.push(made),
                },
            );
            &&& first_reserved_in(reserved, made.id, i)
            &&& entry_with(
                reserved,
                i,
                SequencesView {
                    ranges: reserved[i].sequences.ranges,
                    requests: without_request(reserved[i].sequences.requests, made.id),
                },
            ) == groups
        }),
{
    let sequences = groups[i].sequences;
    let requests = sequences.requests.push(made);
    let reserved = entry_with(groups, i, SequencesView { ranges: sequences.ranges, requests });
    assert(!reserved_in(groups, made.id, i));
    free_undoes_add(sequences.requests, made);
    assert(requests[sequences.requests.len() as int] == made);
    assert(reserved_in(reserved, made.id, i));
    assert forall|j: int| 0 <= j < i implies !#[trigger] reserved_in(reserved, made.id, j) by {
        assert(!reserved_in(groups, made.id, j));
    }
    assert(entry_with(
        reserved,
        i,
        SequencesView {
            ranges: reserved[i].sequences.ranges,
            requests: without_request(reserved[i].sequences.requests, made.id),
        },
    ) =~= groups);
}

/// A worker that was settled as anything but schedulable serves no group.
pub proof fn settled_worker_serves_only_if_schedulable(
    before: Seq<WorkerCatalogRecord>,
    after: Seq<WorkerCatalogRecord>,
    worker_id: u64,
    lifecycle: WorkerLifecycle,
    reasons: Seq<Seq<char>>,
    key: (Seq<char>, Seq<char>),
    endpoint: Seq<char>,
)
    requires
        forall|i: int, j: int|
            0 <= i < j < before.len() ==> (#[trigger] before[i]).worker_id != (
            #[trigger] before[j]).worker_id,
        settled(before, after, worker_id, lifecycle, reasons),
        lifecycle != WorkerLifecycle::Schedulable,
    ensures
        !serves_at(after, worker_id, key, endpoint),
{
    let (i, texts) = choose|i: int, texts: Vec<String>|
        #![trigger before[i], texts_view(texts@)]
        0 <= i < before.len() && before[i].worker_id == worker_id && texts_view(texts@) == reasons
            && after == before.update(i, in_state(before[i], lifecycle, texts));
    assert forall|j: int|
        0 <= j < after.len() && serves(#[trigger] after[j], key) implies after[j].worker_id
        != worker_id by {
        if j < i {
            assert(before[j].worker_id != before[i].worker_id);
        } else if i < j {
            assert(before[i].worker_id != before[j].worker_id);
        }
    }
}

/// What happens to a group's requests leaves the rest of the group and all other groups
/// as they were.
pub proof fn groups_do_not_touch_each_other(
    groups: Seq<EntryView>,
    i: int,
    sequences: SequencesView,
    j: int,
)
    requires
        0 <= i < groups.len(),
        0 <= j < groups.len(),
    ensures
        ({
            let after = entry_with(groups, i, sequences);
            &&& after.len() == groups.len()
            &&& i != j ==> after[j] == groups[j]
            &&& after[i].sequences == sequences
            &&& after[i].key == groups[i].key
            &&& after[i].block_size == groups[i].block_size
            &&& after[i].is_eagle == groups[i].is_eagle
            &&& after[i].queueing == groups[i].queueing
            &&& after[i].rules == groups[i].rules
            &&& after[i].waiting == groups[i].waiting
        }),
{
}

/// A worker is at odds with a group of its model and tenant exactly if their block sizes
/// differ or one hashes for drafting and the other does not.
pub proof fn groups_agree_on_blocks(
    groups: Seq<EntryView>,
    key: (Seq<char>, Seq<char>),
    block_size: u32,
    is_eagle: Option<bool>,
    i: int,
)
    requires
        0 <= i < groups.len(),
    ensures
        entry_conflict(groups, key, block_size, says_eagle(is_eagle), i) is Some <==> groups[i].key
            == key && (groups[i].block_size != block_size || groups[i].is_eagle != (is_eagle
            == Some(true))),
{
}

/// A new group has no ranks, no requests and nobody who waits, in as many classes as its
/// profile has.
pub proof fn new_groups_start_empty(
    key: (Seq<char>, Seq<char>),
    block_size: u32,
    is_eagle: bool,
    queueing: bool,
    profile: PolicyProfile,
    c: int,
)
    ensures
        ({
            let group = new_group(key, block_size, is_eagle, queueing, profile);
            &&& group.key == key
            &&& group.block_size == block_size
            &&& group.is_eagle == is_eagle
            &&& group.queueing == queueing
            &&& group.rules == profile.rules
            &&& group.sequences.ranges.len() == 0
            &&& group.sequences.requests.len() == 0
            &&& group.waiting.classes.len() == profile.classes@.len()
            &&& 0 <= c < profile.classes@.len() ==> {
                &&& group.waiting.classes[c].config == profile.classes@[c]
                &&& group.waiting.classes[c].pending.len() == 0
                &&& group.waiting.classes[c].deficit == 0
                &&& group.waiting.classes[c].stats.requests == 0
                &&& group.waiting.classes[c].stats.raw_isl_tokens == 0
                &&& group.waiting.classes[c].stats.cached_tokens == 0
            }
        }),
{
}

/// A reservation loads the rank that it names, the first where it names none, with the
/// tokens that it says have to be prefilled, and with none where it says nothing; no
/// other rank bears anything of it.
pub proof fn reservations_load_the_rank_they_name(
    req: ReservationRequest,
    group: EntryView,
    now_millis: u64,
    rank: (u64, u32),
)
    ensures
        ({
            let made = reserved_view(req, group, now_millis);
            let requests = group.sequences.requests;
            let named = (
                req.worker_id,
                if req.dp_rank is Some {
                    req.dp_rank->0
                } else {
                    0
                },
            );
            let tokens = if req.effective_prefill_tokens is Some {
                req.effective_prefill_tokens->0
            } else {
                0
            };
            &&& made.id == req.reservation_id@
            &&& made.since_millis == now_millis
            &&& made.output_blocks == 0
            &&& rank == named ==> active_prefill(requests.push(made), rank) == active_prefill(
                requests,
                rank,
            ) + tokens
            &&& rank == named ==> active_count(requests.push(made), rank) == active_count(
                requests,
                rank,
            ) + 1
            &&& rank != named ==> active_prefill(requests.push(made), rank) == active_prefill(
                requests,
                rank,
            )
            &&& rank != named ==> active_count(requests.push(made), rank) == active_count(
                requests,
                rank,
            )
        }),
{
    request_loads_its_own_rank(
        group.sequences.requests,
        reserved_view(req, group, now_millis),
        rank,
    );
}

/// Of the workers that take requests for a group, each has its ranks there and no others.
pub proof fn serving_workers_have_their_ranks(
    records: Seq<WorkerCatalogRecord>,
    key: (Seq<char>, Seq<char>),
    s: SequencesView,
    i: int,
    rank: u32,
)
    requires
        0 <= i < records.len(),
        forall|a: int, b: int|
            0 <= a < b < records.len() ==> (#[trigger] records[a]).worker_id != (
            #[trigger] records[b]).worker_id,
        records[i].lifecycle == WorkerLifecycle::Schedulable,
        (records[i].model_name@, records[i].tenant_id@) == key,
        records[i].spec_dp_size() > 0,
        records[i].spec_dp_start() + records[i].spec_dp_size() <= u32::MAX,
    ensures
        has_rank(published(records, key, s).ranges, (records[i].worker_id, rank))
            <==> records[i].spec_dp_start() <= rank < records[i].spec_dp_start()
            + records[i].spec_dp_size(),
    decreases records.len(),
{
    let init = records.drop_last();
    let before = published(init, key, s);
    let last = records.last();
    let anyone = ActiveView {
        id: Seq::empty(),
        worker: (0, 0),
        hashes: Seq::empty(),
        output_blocks: 0,
        prefill_tokens: 0,
        since_millis: 0,
    };
    new_ranks_replace_old_ones(before, ranks_of(last), anyone, (records[i].worker_id, rank));
    if i < records.len() - 1 {
        assert(init[i] == records[i]);
        assert forall|a: int, b: int| 0 <= a < b < init.len() implies (
        #[trigger] init[a]).worker_id != (#[trigger] init[b]).worker_id by {
            assert(init[a] == records[a] && init[b] == records[b]);
        }
        serving_workers_have_their_ranks(init, key, s, i, rank);
        assert(records[i].worker_id != records[records.len() - 1].worker_id);
    } else {
        assert(last == records[i]);
    }
}

/// A worker that takes no requests for a group keeps the ranks and the requests that it
/// has there.
pub proof fn other_workers_keep_what_they_have(
    records: Seq<WorkerCatalogRecord>,
    key: (Seq<char>, Seq<char>),
    s: SequencesView,
    worker: (u64, u32),
    request: ActiveView,
)
    requires
        forall|i: int|
            0 <= i < records.len() && (#[trigger] records[i]).worker_id == worker.0
                ==> records[i].lifecycle != WorkerLifecycle::Schedulable || (
                records[i].model_name@,
                records[i].tenant_id@,
            ) != key,
        request.worker == worker,
    ensures
        has_rank(published(records, key, s).ranges, worker) <==> has_rank(s.ranges, worker),
        published(records, key, s).requests.contains(request) <==> s.requests.contains(request),
    decreases records.len(),
{
    if records.len() > 0 {
        let init = records.drop_last();
        let last = records.last();
        assert(last == records[records.len() - 1]);
        assert forall|i: int|
            0 <= i < init.len() && (#[trigger] init[i]).worker_id == worker.0 implies init[i].lifecycle
            != WorkerLifecycle::Schedulable || (init[i].model_name@, init[i].tenant_id@) != key by {
            assert(init[i] == records[i]);
        }
        other_workers_keep_what_they_have(init, key, s, worker, request);
        new_ranks_replace_old_ones(published(init, key, s), ranks_of(last), request, worker);
    }
}

/// A worker that is settled is in its new state for its reasons and is otherwise as it
/// was, and so are all others.
pub proof fn settling_changes_one_worker(
    before: Seq<WorkerCatalogRecord>,
    after: Seq<WorkerCatalogRecord>,
    worker_id: u64,
    lifecycle: WorkerLifecycle,
    reasons: Seq<Seq<char>>,
    i: int,
)
    requires
        settled(before, after, worker_id, lifecycle, reasons),
        0 <= i < before.len(),
        forall|a: int, b: int|
            0 <= a < b < before.len() ==> (#[trigger] before[a]).worker_id != (
            #[trigger] before[b]).worker_id,
    ensures
        after.len() == before.len(),
        before[i].worker_id != worker_id ==> after[i] == before[i],
        before[i].worker_id == worker_id ==> after[i].lifecycle == lifecycle
            && after[i].not_schedulable_reasons@.map_values(|t: String| t@) == reasons,
        after[i].worker_id == before[i].worker_id,
        after[i].model_name == before[i].model_name,
        after[i].tenant_id == before[i].tenant_id,
        after[i].endpoint == before[i].endpoint,
        after[i].block_size == before[i].block_size,
        after[i].data_parallel_start_rank == before[i].data_parallel_start_rank,
        after[i].data_parallel_size == before[i].data_parallel_size,
{
    let (k, texts) = choose|k: int, texts: Vec<String>|
        #![trigger before[k], texts_view(texts@)]
        0 <= k < before.len() && before[k].worker_id == worker_id && texts_view(texts@) == reasons
            && after == before.update(k, in_state(before[k], lifecycle, texts));
    if before[i].worker_id == worker_id {
        if i < k {
            assert(before[i].worker_id != before[k].worker_id);
        } else if k < i {
            assert(before[k].worker_id != before[i].worker_id);
        }
        assert(texts@.map_values(|t: String| t@) =~= texts_view(texts@));
    }
}

} // verus!
