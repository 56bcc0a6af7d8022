//! The slot tracker: workers are registered, requests are reported, and the load
//! of each worker can be read.

use vstd::prelude::*;
use vstd::string::StringExecFns;

use crate::protocols::WorkerId;
use crate::sequences::{SequenceError, WorkerTopologyError};
use crate::text::{append_decimal, decimal};

pub mod registry;


verus! {

/// How the slot tracker is started.
pub struct SlotTrackerConfig {
    pub port: u16,
    pub replica_sync_port: Option<u16>,
    pub replica_sync_peers: Vec<String>,
}

/// The tenant of those that name none.
pub fn default_tenant() -> (tenant: String)
    ensures
        tenant@ == "default"@,
{
    "default".to_owned()
}

/// What a tracker is found by.
#[derive(Debug, PartialEq, Eq)]
pub struct TrackerKey {
    pub model_name: String,
    pub tenant_id: String,
}

impl View for TrackerKey {
    type V = (Seq<char>, Seq<char>);

    open spec fn view(&self) -> (Seq<char>, Seq<char>) {
        (self.model_name@, self.tenant_id@)
    }
}

impl TrackerKey {
    /// The key of a model and a tenant, the default tenant where none is named.
    pub fn new(model_name: String, tenant_id: Option<String>) -> (key: Self)
        ensures
            key@ == (model_name@, match tenant_id {
                Some(tenant) => tenant@,
                None => "default"@,
            }),
    {
        TrackerKey {
            model_name,
            tenant_id: match tenant_id {
                Some(tenant_id) => tenant_id,
                None => default_tenant(),
            },
        }
    }
}

impl Clone for TrackerKey {
    fn clone(&self) -> (key: Self)
        ensures
            key@ == self@,
    {
        TrackerKey {
            model_name: self.model_name.as_str().to_owned(),
            tenant_id: self.tenant_id.as_str().to_owned(),
        }
    }
}

/// Why the registry turned a change away.
#[derive(Debug, PartialEq, Eq)]
pub enum RegistryError {
    InvalidBlockSize,
    InvalidDpSize,
    InvalidDpRange { dp_start: u32, dp_size: u32 },
    BlockSizeMismatch { model_name: String, tenant_id: String, existing: u32, requested: u32 },
    DuplicateWorker { worker_id: WorkerId, model_name: String, tenant_id: String },
    WorkerNotFound { worker_id: WorkerId, model_name: String, tenant_id: String },
    TrackerNotFound { model_name: String, tenant_id: String },
}

/// Model of a registry error.
pub enum RegistryErrorView {
    InvalidBlockSize,
    InvalidDpSize,
    InvalidDpRange { dp_start: u32, dp_size: u32 },
    BlockSizeMismatch { key: (Seq<char>, Seq<char>), existing: u32, requested: u32 },
    DuplicateWorker { worker_id: u64, key: (Seq<char>, Seq<char>) },
    WorkerNotFound { worker_id: u64, key: (Seq<char>, Seq<char>) },
    TrackerNotFound { key: (Seq<char>, Seq<char>) },
}

impl View for RegistryError {
    type V = RegistryErrorView;

    open spec fn view(&self) -> RegistryErrorView {
        match *self {
            RegistryError::InvalidBlockSize => RegistryErrorView::InvalidBlockSize,
            RegistryError::InvalidDpSize => RegistryErrorView::InvalidDpSize,
            RegistryError::InvalidDpRange { dp_start, dp_size } => {
                RegistryErrorView::InvalidDpRange { dp_start, dp_size }
            },
            RegistryError::BlockSizeMismatch { model_name, tenant_id, existing, requested } => {
                RegistryErrorView::BlockSizeMismatch {
                    key: (model_name@, tenant_id@),
                    existing,
                    requested,
                }
            },
            RegistryError::DuplicateWorker { worker_id, model_name, tenant_id } => {
                RegistryErrorView::DuplicateWorker { worker_id, key: (model_name@, tenant_id@) }
            },
            RegistryError::WorkerNotFound { worker_id, model_name, tenant_id } => {
                RegistryErrorView::WorkerNotFound { worker_id, key: (model_name@, tenant_id@) }
            },
            RegistryError::TrackerNotFound { model_name, tenant_id } => {
                RegistryErrorView::TrackerNotFound { key: (model_name@, tenant_id@) }
            },
        }
    }
}

/// A model and a tenant in words.
pub open spec fn key_text(key: (Seq<char>, Seq<char>)) -> Seq<char> {
    "model="@ + key.0 + " tenant="@ + key.1
}

fn append_key(text: &mut String, model_name: &String, tenant_id: &String)
    ensures
        final(text)@ == old(text)@ + key_text((model_name@, tenant_id@)),
{
    text.append("model=");
    text.append(model_name.as_str());
    text.append(" tenant=");
    text.append(tenant_id.as_str());
    assert(text@ =~= old(text)@ + key_text((model_name@, tenant_id@)));
}

impl RegistryError {
    /// The error in words.
    pub open spec fn spec_message(&self) -> Seq<char> {
        match self@ {
            RegistryErrorView::InvalidBlockSize => "block_size must be greater than 0"@,
            RegistryErrorView::InvalidDpSize => "dp_size must be greater than 0"@,
            RegistryErrorView::InvalidDpRange { dp_start, dp_size } => {
                "dp range overflows u32: start="@ + decimal(dp_start as nat) + " size="@ + decimal(
                    dp_size as nat,
                )
            },
            RegistryErrorView::BlockSizeMismatch { key, existing, requested } => {
                "block_size mismatch for "@ + key_text(key) + ": existing="@ + decimal(
                    existing as nat,
                ) + ", requested="@ + decimal(requested as nat)
            },
            RegistryErrorView::DuplicateWorker { worker_id, key } => {
                "worker "@ + decimal(worker_id as nat) + " already registered for "@ + key_text(key)
            },
            RegistryErrorView::WorkerNotFound { worker_id, key } => {
                "worker "@ + decimal(worker_id as nat) + " not found for "@ + key_text(key)
            },
            RegistryErrorView::TrackerNotFound { key } => "no slot tracker for "@ + key_text(key),
        }
    }

    /// The error in words.
    pub fn message(&self) -> (text: String)
        ensures
            text@ == self.spec_message(),
    {
        match self {
            RegistryError::InvalidBlockSize => "block_size must be greater than 0".to_owned(),
            RegistryError::InvalidDpSize => "dp_size must be greater than 0".to_owned(),
            RegistryError::InvalidDpRange { dp_start, dp_size } => {
                let mut text = "dp range overflows u32: start=".to_owned();
                append_decimal(&mut text, *dp_start as u64);
                text.append(" size=");
                append_decimal(&mut text, *dp_size as u64);
                text
            },
            RegistryError::BlockSizeMismatch { model_name, tenant_id, existing, requested } => {
                let mut text = "block_size mismatch for ".to_owned();
                append_key(&mut text, model_name, tenant_id);
                text.append(": existing=");
                append_decimal(&mut text, *existing as u64);
                text.append(", requested=");
                append_decimal(&mut text, *requested as u64);
                text
            },
            RegistryError::DuplicateWorker { worker_id, model_name, tenant_id } => {
                let mut text = "worker ".to_owned();
                append_decimal(&mut text, *worker_id);
                text.append(" already registered for ");
                append_key(&mut text, model_name, tenant_id);
                text
            },
            RegistryError::WorkerNotFound { worker_id, model_name, tenant_id } => {
                let mut text = "worker ".to_owned();
                append_decimal(&mut text, *worker_id);
                text.append(" not found for ");
                append_key(&mut text, model_name, tenant_id);
                text
            },
            RegistryError::TrackerNotFound { model_name, tenant_id } => {
                let mut text = "no slot tracker for ".to_owned();
                append_key(&mut text, model_name, tenant_id);
                text
            },
        }
    }

    /// The status that an HTTP answer has for the error.
    pub open spec fn spec_status(&self) -> u16 {
        match self@ {
            RegistryErrorView::InvalidBlockSize
            | RegistryErrorView::InvalidDpSize
            | RegistryErrorView::InvalidDpRange { .. } => 400,
            RegistryErrorView::BlockSizeMismatch { .. }
            | RegistryErrorView::DuplicateWorker { .. } => 409,
            RegistryErrorView::WorkerNotFound { .. }
            | RegistryErrorView::TrackerNotFound { .. } => 404,
        }
    }

    /// The status that an HTTP answer has for the error.
    pub fn status_code(&self) -> (status: u16)
        ensures
            status == self.spec_status(),
    {
        match self {
            RegistryError::InvalidBlockSize
            | RegistryError::InvalidDpSize
            | RegistryError::InvalidDpRange { .. } => 400,
            RegistryError::BlockSizeMismatch { .. } | RegistryError::DuplicateWorker { .. } => 409,
            RegistryError::WorkerNotFound { .. } | RegistryError::TrackerNotFound { .. } => 404,
        }
    }
}

/// Why the service turned a request away.
#[derive(Debug, PartialEq, Eq)]
pub enum ServiceError {
    Registry(RegistryError),
    Sequence(SequenceError),
}

impl ServiceError {
    /// The status that an HTTP answer has for the error.
    pub fn status_code(&self) -> (status: u16)
        ensures
            status == match *self {
                ServiceError::Registry(error) => error.spec_status(),
                ServiceError::Sequence(SequenceError::DuplicateRequest { .. }) => 409,
                ServiceError::Sequence(SequenceError::ReplicaSyncPublishFailed(_)) => 500,
                ServiceError::Sequence(_) => 404,
            },
    {
        match self {
            ServiceError::Registry(error) => error.status_code(),
            ServiceError::Sequence(SequenceError::WorkerNotFound { .. })
            | ServiceError::Sequence(SequenceError::RequestNotFound { .. }) => 404,
            ServiceError::Sequence(SequenceError::DuplicateRequest { .. }) => 409,
            ServiceError::Sequence(SequenceError::ReplicaSyncPublishFailed(_)) => 500,
        }
    }
}

/// Checks a block size.
pub fn validate_block_size(block_size: u32) -> (r: Result<(), RegistryError>)
    ensures
        r is Ok <==> block_size > 0,
        r matches Err(e) ==> e@ == RegistryErrorView::InvalidBlockSize,
{
    if block_size == 0 {
        return Err(RegistryError::InvalidBlockSize);
    }
    Ok(())
}

/// What the registry says of a change of workers that was turned away.
pub open spec fn topology_error_of(
    key: (Seq<char>, Seq<char>),
    error: WorkerTopologyError,
) -> RegistryErrorView {
    match error {
        WorkerTopologyError::InvalidDpSize { .. } => RegistryErrorView::InvalidDpSize,
        WorkerTopologyError::InvalidDpRange { dp_start, dp_size, .. } => {
            RegistryErrorView::InvalidDpRange { dp_start, dp_size }
        },
        WorkerTopologyError::DuplicateWorker { worker_id } => {
            RegistryErrorView::DuplicateWorker { worker_id, key }
        },
        WorkerTopologyError::WorkerNotFound { worker_id } => {
            RegistryErrorView::WorkerNotFound { worker_id, key }
        },
    }
}

/// What the registry says of a change of workers that was turned away.
pub fn topology_error(key: &TrackerKey, error: WorkerTopologyError) -> (e: RegistryError)
    ensures
        e@ == topology_error_of(key@, error),
{
    match error {
        WorkerTopologyError::InvalidDpSize { .. } => RegistryError::InvalidDpSize,
        WorkerTopologyError::InvalidDpRange { dp_start, dp_size, .. } => {
            RegistryError::InvalidDpRange { dp_start, dp_size }
        },
        WorkerTopologyError::DuplicateWorker { worker_id } => RegistryError::DuplicateWorker {
            worker_id,
            model_name: key.model_name.as_str().to_owned(),
            tenant_id: key.tenant_id.as_str().to_owned(),
        },
        WorkerTopologyError::WorkerNotFound { worker_id } => RegistryError::WorkerNotFound {
            worker_id,
            model_name: key.model_name.as_str().to_owned(),
            tenant_id: key.tenant_id.as_str().to_owned(),
        },
    }
}

/// What makes no sense is a bad request, what is at odds with what is known a conflict, and
/// what is not known is not found.
pub proof fn registry_errors_have_their_status(error: RegistryError)
    ensures
        error is InvalidBlockSize || error is InvalidDpSize || error is InvalidDpRange
            ==> error.spec_status() == 400,
        error is BlockSizeMismatch || error is DuplicateWorker ==> error.spec_status() == 409,
        error is WorkerNotFound || error is TrackerNotFound ==> error.spec_status() == 404,
{
}

} // verus!
