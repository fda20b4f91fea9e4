//! Error taxonomy of the worker pool.

use vstd::prelude::*;

verus! {

/// Why a task attempt ended without a result, or why the store could not
/// serve a request. Variants carry the value they concern: the deadline
/// that expired, the path, the user or task key, or a detail message.
#[derive(Debug, Clone, PartialEq, Eq)]
pub enum WorkerError {
    /// The task ran past its quota-derived deadline of this many seconds.
    Timeout(u64),
    /// The computation crashed; the payload describes the crash.
    TaskPanic(String),
    /// The input file was missing at execution time.
    FileNotFound(String),
    /// An internal inconsistency, such as a referenced user or task that
    /// is not in the store; the payload names the missing key.
    Processing(String),
    /// A wrapped file-transport error.
    Io(String),
    /// A wrapped store-transport error.
    Store(String),
    /// A k-mer could not be rendered.
    InvalidKmer(String),
    /// The named user had no remaining quota at dispatch.
    QuotaExceeded(String),
}

} // verus!
