//! Why the selection service turned something away.

use vstd::prelude::*;

use crate::scheduling::policy_queue::QueueRejection;
use crate::scheduling::types::KvSchedulerError;
use crate::sequences::SequenceError;

verus! {

/// Why the selection service turned something away.
#[derive(Debug, PartialEq, Eq)]
pub enum SelectionError {
    BadRequest(String),
    NotReady(String),
    NotFound(String),
    Conflict(String),
    Internal(String),
    Scheduler(KvSchedulerError),
    Sequence(SequenceError),
}

/// The status that an HTTP answer has for an error of the scheduler.
pub open spec fn scheduler_status(error: KvSchedulerError) -> u16 {
    match error {
        KvSchedulerError::NoEndpoints
        | KvSchedulerError::SubscriberShutdown
        | KvSchedulerError::InitFailed(_)
        | KvSchedulerError::Backpressure { .. }
        | KvSchedulerError::QueueRejected(_) => 503,
        KvSchedulerError::AllEligibleWorkersOverloaded
        | KvSchedulerError::PinnedWorkerOverloaded { .. } => 429,
        KvSchedulerError::PinnedWorkerNotAllowed { .. } => 400,
        KvSchedulerError::BookingFailed(_) => 409,
    }
}

/// The status that an HTTP answer has for an error of the scheduler.
pub fn scheduler_error_status(error: &KvSchedulerError) -> (status: u16)
    ensures
        status == scheduler_status(*error),
{
    match error {
        KvSchedulerError::NoEndpoints
        | KvSchedulerError::SubscriberShutdown
        | KvSchedulerError::InitFailed(_)
        | KvSchedulerError::Backpressure { .. }
        | KvSchedulerError::QueueRejected(_) => 503,
        KvSchedulerError::AllEligibleWorkersOverloaded
        | KvSchedulerError::PinnedWorkerOverloaded { .. } => 429,
        KvSchedulerError::PinnedWorkerNotAllowed { .. } => 400,
        KvSchedulerError::BookingFailed(_) => 409,
    }
}

/// The status that an HTTP answer has for an error of the active requests.
pub open spec fn sequence_status(error: SequenceError) -> u16 {
    match error {
        SequenceError::WorkerNotFound { .. } | SequenceError::RequestNotFound { .. } => 404,
        SequenceError::DuplicateRequest { .. } => 409,
        SequenceError::ReplicaSyncPublishFailed(_) => 500,
    }
}

/// The status that an HTTP answer has for an error of the active requests.
pub fn sequence_error_status(error: &SequenceError) -> (status: u16)
    ensures
        status == sequence_status(*error),
{
    match error {
        SequenceError::WorkerNotFound { .. } | SequenceError::RequestNotFound { .. } => 404,
        SequenceError::DuplicateRequest { .. } => 409,
        SequenceError::ReplicaSyncPublishFailed(_) => 500,
    }
}

impl SelectionError {
    /// The status that an HTTP answer has for the error.
    pub open spec fn spec_status(&self) -> u16 {
        match *self {
            SelectionError::BadRequest(_) => 400,
            SelectionError::NotReady(_) => 503,
            SelectionError::NotFound(_) => 404,
            SelectionError::Conflict(_) => 409,
            SelectionError::Internal(_) => 500,
            SelectionError::Scheduler(error) => scheduler_status(error),
            SelectionError::Sequence(error) => sequence_status(error),
        }
    }

    /// The status that an HTTP answer has for the error.
    pub fn status_code(&self) -> (status: u16)
        ensures
            status == self.spec_status(),
    {
        match self {
            SelectionError::BadRequest(_) => 400,
            SelectionError::NotReady(_) => 503,
            SelectionError::NotFound(_) => 404,
            SelectionError::Conflict(_) => 409,
            SelectionError::Internal(_) => 500,
            SelectionError::Scheduler(error) => scheduler_error_status(error),
            SelectionError::Sequence(error) => sequence_error_status(error),
        }
    }

    /// The stable name of the kind of error.
    pub open spec fn spec_kind(&self) -> Seq<char> {
        match *self {
            SelectionError::BadRequest(_) => "bad_request"@,
            SelectionError::NotReady(_) => "not_ready"@,
            SelectionError::NotFound(_) => "not_found"@,
            SelectionError::Conflict(_) => "conflict"@,
            SelectionError::Internal(_) => "internal"@,
            SelectionError::Scheduler(_) => "scheduler"@,
            SelectionError::Sequence(_) => "sequence"@,
        }
    }

    /// The stable name of the kind of error.
    pub fn kind(&self) -> (kind: &'static str)
        ensures
            kind@ == self.spec_kind(),
    {
        match self {
            SelectionError::BadRequest(_) => "bad_request",
            SelectionError::NotReady(_) => "not_ready",
            SelectionError::NotFound(_) => "not_found",
            SelectionError::Conflict(_) => "conflict",
            SelectionError::Internal(_) => "internal",
            SelectionError::Scheduler(_) => "scheduler",
            SelectionError::Sequence(_) => "sequence",
        }
    }

    /// What an answer tells besides the words: how a full queue stood.
    pub fn details(&self) -> (details: Option<&QueueRejection>)
        ensures
            details == match *self {
                SelectionError::Scheduler(KvSchedulerError::QueueRejected(rejection)) => Some(
                    &rejection,
                ),
                _ => None,
            },
    {
        match self {
            SelectionError::Scheduler(KvSchedulerError::QueueRejected(rejection)) => Some(rejection),
            _ => None,
        }
    }

    /// The error in words.
    pub open spec fn spec_message(&self) -> Seq<char> {
        match *self {
            SelectionError::BadRequest(text)
            | SelectionError::NotReady(text)
            | SelectionError::NotFound(text)
            | SelectionError::Conflict(text)
            | SelectionError::Internal(text) => text@,
            SelectionError::Scheduler(error) => error.spec_message(),
            SelectionError::Sequence(error) => error.spec_message(),
        }
    }

    /// The error in words.
    pub fn message(&self) -> (text: String)
        ensures
            text@ == self.spec_message(),
    {
        match self {
            SelectionError::BadRequest(text)
            | SelectionError::NotReady(text)
            | SelectionError::NotFound(text)
            | SelectionError::Conflict(text)
            | SelectionError::Internal(text) => text.as_str().to_owned(),
            SelectionError::Scheduler(error) => error.message(),
            SelectionError::Sequence(error) => error.message(),
        }
    }
}

/// Who asks wrongly is told so with a status of its own kind; who comes too early, or where
/// nothing can take a request, is asked to come again; and who meets only workers that are
/// overloaded is told that there is too much.
pub proof fn errors_have_their_status(error: SelectionError)
    ensures
        error is BadRequest ==> error.spec_status() == 400,
        error is NotFound ==> error.spec_status() == 404,
        error is Conflict ==> error.spec_status() == 409,
        error is NotReady ==> error.spec_status() == 503,
        error is Internal ==> error.spec_status() == 500,
        error matches SelectionError::Scheduler(e) ==> {
            &&& e is PinnedWorkerNotAllowed ==> error.spec_status() == 400
            &&& e is BookingFailed ==> error.spec_status() == 409
            &&& e is AllEligibleWorkersOverloaded || e is PinnedWorkerOverloaded
                ==> error.spec_status() == 429
            &&& e is NoEndpoints || e is SubscriberShutdown || e is InitFailed || e is Backpressure
                || e is QueueRejected ==> error.spec_status() == 503
        },
        error matches SelectionError::Sequence(e) ==> {
            &&& e is WorkerNotFound || e is RequestNotFound ==> error.spec_status() == 404
            &&& e is DuplicateRequest ==> error.spec_status() == 409
            &&& e is ReplicaSyncPublishFailed ==> error.spec_status() == 500
        },
{
}

} // verus!
