use vstd::prelude::*;

verus! {

/// Failures surfaced by the storage layer.
#[derive(Debug, Copy, Clone, PartialEq, Eq)]
pub enum EcsError {
    /// The operation was rejected because the requested storage is already
    /// locked in an incompatible mode. The text names the lock that was held.
    StorageLocked(&'static str),
    /// The resource or component column that the operation needs is absent.
    NotFound,
}

pub type EcsResult<T> = Result<T, EcsError>;

} // verus!
