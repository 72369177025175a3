use vstd::prelude::*;

verus! {

/// Failures reported by the pool registry and by a map operation.
#[derive(Clone, Debug, PartialEq, Eq)]
pub enum PoolError {
    /// An operation that needs a pool ran before the pool was initialized.
    NotInitialized,
    /// The pool was initialized a second time.
    AlreadyInitialized,
    /// A value could not be encoded or decoded at the worker boundary.
    Serialization { cause: String },
    /// The task of one chunk failed; the whole map operation fails with it.
    WorkerExecution { chunk_index: usize, cause: String },
    /// A map operation was started while another one was still in flight.
    ConcurrentInvocation,
}

} // verus!
