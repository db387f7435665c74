use vstd::prelude::*;
use crate::ansible::PlaybookFunction;

verus! {

/// Failure taxonomy of the provisioning pipeline.  Every fatal error aborts
/// the job it arose in and nothing else; `DuplicateAddress` alone is
/// recoverable (the orchestrator re-runs allocation once).
#[derive(Clone, Copy, PartialEq, Eq, Structural, Debug)]
pub enum ServiceError {
    /// A registry entry is not an IPv4 address; only IPv4 is supported.
    UnsupportedAddressFamily,
    /// A registry entry could not be read as an address at all.
    InvalidAddress,
    /// No address below the subnet ceiling is free.
    PoolExhausted,
    /// The address chosen by allocation is already registered.
    DuplicateAddress,
    /// The storage backing the registry failed or is unreachable.
    PersistenceError,
    /// The catalog holds no playbook for the requested function.
    MissingPlaybook(PlaybookFunction),
    /// The external automation unit could not be launched.
    ProcessSpawnError,
    /// The external automation unit exited with a non-zero status.
    PlaybookFailed,
    /// The failure report could not be delivered; logged only.
    NotificationDeliveryError,
}

/// Error surface of the inspection endpoint.
#[derive(Clone, Copy, PartialEq, Eq, Structural, Debug)]
pub enum HttpError {
    Mysql,
    Unauthorized,
}

impl HttpError {
    /// The HTTP status code each error maps to.
    pub fn status_code(&self) -> (code: u16)
        ensures
            code == match self {
                HttpError::Mysql => 500u16,
                HttpError::Unauthorized => 401u16,
            },
    {
        match self {
            HttpError::Mysql => 500,
            HttpError::Unauthorized => 401,
        }
    }
}

} // verus!
