//! What the selection service is asked, and how an answer is begun.

use vstd::prelude::*;

use crate::protocols::{RoutingConstraints, WorkerId, WorkerWithDpRank};
use crate::scheduling::config::{F64Bits, RouterConfigOverride};
use crate::sequences::{with_output, SequencesView};
use crate::services::selection::catalog::{group_serves, serving_count};
use crate::services::selection::error::SelectionError;
use crate::services::selection::prompt::{
    from_tokens, hash_complaint, routing_tokens, NormalizedPrompt, PromptRequest,
};
use crate::services::selection::service::answers::{
    is_random_uuid, reservation_id_or_new, scheduler_request_id, validate_decay_fraction,
    BAD_DECAY_FRACTION, NO_RESERVATION_ID,
};
use crate::services::selection::service::{
    entry_at, entry_with, first_reserved_in, has_entry, lemma_entry_changed, no_reservation,
    no_reservation_text, no_workers_for, reserved_in, EntryView, SelectionCore, NO_WORKERS,
    SHUTTING_DOWN,
};
use crate::services::selection::types::SelectionKey;

verus! {

/// Asks for a worker.
pub struct SelectRequest {
    pub model_name: String,
    pub tenant_id: String,
    pub selection_id: Option<String>,
    pub prompt: PromptRequest,
    pub router_config_override: Option<RouterConfigOverride>,
    pub expected_output_tokens: Option<u32>,
    pub priority_jump: Option<F64Bits>,
    pub strict_priority: Option<u32>,
    pub pinned_worker: Option<WorkerWithDpRank>,
    pub allowed_worker_ids: Option<Vec<WorkerId>>,
    pub routing_constraints: RoutingConstraints,
}

/// Asks for a worker and books it.
pub struct SelectAndReserveRequest {
    pub reservation_id: Option<String>,
    pub select: SelectRequest,
}

/// A selection that is to be made.
pub struct SelectionOperation {
    pub key: SelectionKey,
    pub selection_id: Option<String>,
    pub reservation_id: Option<String>,
    pub prompt: PromptRequest,
    pub router_config_override: Option<RouterConfigOverride>,
    pub expected_output_tokens: Option<u32>,
    pub priority_jump: F64Bits,
    pub strict_priority: u32,
    pub policy_class: Option<String>,
    pub pinned_worker: Option<WorkerWithDpRank>,
    pub allowed_worker_ids: Option<Vec<WorkerId>>,
    pub routing_constraints: RoutingConstraints,
}

/// Whether an operation is what a request asks for. What it leaves out is zero.
pub open spec fn does_what_is_asked(
    operation: SelectionOperation,
    req: SelectRequest,
    policy_class: Option<String>,
) -> bool {
    &&& operation.key@ == (req.model_name@, req.tenant_id@)
    &&& operation.selection_id == req.selection_id
    &&& operation.prompt == req.prompt
    &&& operation.router_config_override == req.router_config_override
    &&& operation.expected_output_tokens == req.expected_output_tokens
    &&& operation.priority_jump == match req.priority_jump {
        Some(jump) => jump,
        None => F64Bits(0),
    }
    &&& operation.strict_priority == match req.strict_priority {
        Some(priority) => priority,
        None => 0,
    }
    &&& operation.policy_class == policy_class
    &&& operation.pinned_worker == req.pinned_worker
    &&& operation.allowed_worker_ids == req.allowed_worker_ids
    &&& operation.routing_constraints == req.routing_constraints
}

impl SelectRequest {
    fn operation_for(self, reservation_id: Option<String>, policy_class: Option<String>) -> (operation:
        SelectionOperation)
        ensures
            operation.reservation_id == reservation_id,
            does_what_is_asked(operation, self, policy_class),
    {
        SelectionOperation {
            key: SelectionKey::new(self.model_name, self.tenant_id),
            selection_id: self.selection_id,
            reservation_id,
            prompt: self.prompt,
            router_config_override: self.router_config_override,
            expected_output_tokens: self.expected_output_tokens,
            priority_jump: match self.priority_jump {
                Some(jump) => jump,
                None => F64Bits(0),
            },
            strict_priority: match self.strict_priority {
                Some(priority) => priority,
                None => 0,
            },
            policy_class,
            pinned_worker: self.pinned_worker,
            allowed_worker_ids: self.allowed_worker_ids,
            routing_constraints: self.routing_constraints,
        }
    }

    /// The selection that is asked for. It books nothing.
    pub fn operation(self, policy_class: Option<String>) -> (operation: SelectionOperation)
        ensures
            operation.reservation_id is None,
            does_what_is_asked(operation, self, policy_class),
    {
        self.operation_for(None, policy_class)
    }
}

impl SelectAndReserveRequest {
    /// The selection that is asked for, with the identifier under which it is
    /// booked: a new one where none is named.
    pub fn operation(self, policy_class: Option<String>) -> (operation: SelectionOperation)
        ensures
            operation.reservation_id is Some,
            self.reservation_id is Some ==> operation.reservation_id == self.reservation_id,
            self.reservation_id is None ==> is_random_uuid(operation.reservation_id->0@),
            does_what_is_asked(operation, self.select, policy_class),
    {
        let reservation_id = reservation_id_or_new(self.reservation_id);
        self.select.operation_for(Some(reservation_id), policy_class)
    }
}

/// What is known of a selection before its blocks are looked up.
pub struct PreparedSelection {
    /// The group's place.
    pub place: usize,
    pub block_size: u32,
    pub prompt: NormalizedPrompt,
    pub scheduler_request_id: Option<String>,
}

/// Whether hashes are those of a prompt for a selection in a group.
pub open spec fn selects_by(prompt: PromptRequest, entry: EntryView, normalized: NormalizedPrompt) -> bool {
    if routing_tokens(prompt) is Some {
        from_tokens(prompt, entry.block_size, entry.is_eagle, normalized)
    } else {
        &&& hash_complaint(prompt) is None
        &&& normalized.block_hashes@ == prompt.block_hashes->0@
        &&& normalized.sequence_hashes@ == prompt.sequence_hashes->0@
        &&& normalized.isl_tokens == prompt.isl_tokens->0
    }
}

/// Whether a prompt can be selected for.
pub open spec fn selectable(prompt: PromptRequest) -> bool {
    routing_tokens(prompt) is Some || hash_complaint(prompt) is None
}

/// Why a selection is turned away: the first of what stands in its way.
pub open spec fn selection_refused(
    core: SelectionCore,
    operation: SelectionOperation,
    error: SelectionError,
) -> bool {
    let key = operation.key@;
    if !core.is_running() {
        error matches SelectionError::NotReady(text) && text@ == SHUTTING_DOWN@
    } else if !has_entry(core.groups(), key) || !group_serves(core.records(), key) {
        error matches SelectionError::NotReady(text) && text@ == if serving_count(core.records())
            == 0 {
            NO_WORKERS@
        } else {
            no_workers_for(key)
        }
    } else if !selectable(operation.prompt) {
        error matches SelectionError::BadRequest(text) && Some(text@) == hash_complaint(
            operation.prompt,
        )
    } else {
        error matches SelectionError::Internal(text) && text@ == NO_RESERVATION_ID@
    }
}

impl SelectionCore {
    /// Begins a selection: the service must run, a worker of the group must take
    /// requests, and the prompt must make sense.
    pub fn begin_selection(&self, operation: &SelectionOperation, book: bool) -> (r: Result<
        PreparedSelection,
        SelectionError,
    >)
        requires
            self.wf(),
        ensures
            r is Ok <==> self.is_running() && has_entry(self.groups(), operation.key@)
                && group_serves(self.records(), operation.key@) && selectable(operation.prompt) && (
            book ==> operation.reservation_id is Some),
            r matches Ok(prepared) ==> {
                &&& entry_at(self.groups(), operation.key@, prepared.place as int)
                &&& prepared.block_size == self.groups()[prepared.place as int].block_size
                &&& selects_by(
                    operation.prompt,
                    self.groups()[prepared.place as int],
                    prepared.prompt,
                )
                &&& if book {
                    prepared.scheduler_request_id is Some && prepared.scheduler_request_id->0@
                        == operation.reservation_id->0@
                } else {
                    prepared.scheduler_request_id is None
                }
            },
            r matches Err(e) ==> selection_refused(*self, *operation, e),
    {
        match self.ensure_running() {
            Ok(()) => {},
            Err(e) => {
                return Err(e);
            },
        }
        let place = match self.ready_entry(&operation.key) {
            Ok(place) => place,
            Err(e) => {
                return Err(e);
            },
        };
        assert(self.groups()[place as int] == self.entries@[place as int].model());
        let block_size = self.entries[place].block_size;
        let is_eagle = self.entries[place].is_eagle;
        let prompt = match operation.prompt.normalize_for_selection(block_size, is_eagle) {
            Ok(prompt) => prompt,
            Err(e) => {
                return Err(e);
            },
        };
        match scheduler_request_id(book, &operation.reservation_id) {
            Ok(scheduler_request_id) => Ok(
                PreparedSelection { place, block_size, prompt, scheduler_request_id },
            ),
            Err(e) => Err(e),
        }
    }
}

/// Whether a fraction is none.
pub open spec fn bad_fraction(fraction: Option<F64Bits>) -> bool {
    fraction matches Some(f) && !(f.spec_is_number() && !f.spec_is_negative()
        && !f.spec_exceeds_one())
}

impl SelectionCore {
    /// Counts one more block of output of a reservation. Where a fraction is given it
    /// is checked and left for what weighs the blocks.
    pub fn add_output_block(&mut self, reservation_id: &str, decay_fraction: Option<F64Bits>) -> (r:
        Result<(), SelectionError>)
        requires
            old(self).wf(),
        ensures
            final(self).wf(),
            final(self).records() == old(self).records(),
            final(self).is_running() == old(self).is_running(),
            final(self).settings() == old(self).settings(),
            r is Ok ==> !bad_fraction(decay_fraction) && exists|i: int| #[trigger]
                first_reserved_in(old(self).groups(), reservation_id@, i) && final(self).groups()
                    == entry_with(
                    old(self).groups(),
                    i,
                    SequencesView {
                        ranges: old(self).groups()[i].sequences.ranges,
                        requests: with_output(
                            old(self).groups()[i].sequences.requests,
                            reservation_id@,
                        ),
                    },
                ),
            r matches Err(e) ==> final(self).groups() == old(self).groups() && if bad_fraction(
                decay_fraction,
            ) {
                e matches SelectionError::BadRequest(text) && text@ == BAD_DECAY_FRACTION@
            } else {
                &&& forall|i: int| !#[trigger] reserved_in(old(self).groups(), reservation_id@, i)
                &&& (e matches SelectionError::NotFound(text) && text@ == no_reservation_text(
                    reservation_id@,
                ))
            },
    {
        match validate_decay_fraction(decay_fraction) {
            Ok(()) => {},
            Err(e) => {
                return Err(e);
            },
        }
        let place = match self.find_reservation(reservation_id) {
            Some(place) => place,
            None => {
                return Err(no_reservation(reservation_id));
            },
        };
        let ghost before = self.entries@;
        assert(self.entries@[place as int].wf());
        let outcome = self.entries[place].slots.add_output_block(reservation_id);
        proof {
            assert(outcome is Ok);
            lemma_entry_changed(before, self.entries@, place as int);
        }
        Ok(())
    }
}

/// A request that says nothing of its priority has none; what it says is taken as it is.
pub proof fn priorities_are_as_asked(
    operation: SelectionOperation,
    req: SelectRequest,
    policy_class: Option<String>,
)
    requires
        does_what_is_asked(operation, req, policy_class),
    ensures
        req.strict_priority is None ==> operation.strict_priority == 0,
        req.strict_priority matches Some(priority) ==> operation.strict_priority == priority,
        req.priority_jump is None ==> operation.priority_jump == F64Bits(0),
        req.priority_jump matches Some(jump) ==> operation.priority_jump == jump,
        operation.pinned_worker == req.pinned_worker,
        operation.allowed_worker_ids == req.allowed_worker_ids,
        operation.routing_constraints == req.routing_constraints,
        operation.prompt == req.prompt,
        operation.policy_class == policy_class,
        operation.key@ == (req.model_name@, req.tenant_id@),
{
}

} // verus!
