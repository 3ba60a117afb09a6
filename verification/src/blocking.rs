//! Options of the blocking facade.

use vstd::prelude::*;

verus! {

/// Why a number of worker threads is rejected.
#[derive(Debug, Clone, Copy, PartialEq, Eq, Structural)]
pub enum WorkerThreadsError {
    /// A runtime cannot have no worker threads.
    Zero,
}

impl WorkerThreadsError {
    /// The error in words.
    pub fn message(&self) -> (r: String)
        ensures
            r@
                == "TrellisOptions::worker_threads must be at least 1 when set; leave it as None for tokio's own per-core default"@,
    {
        "TrellisOptions::worker_threads must be at least 1 when set; leave it as None for tokio's own per-core default".to_owned()
    }
}

/// How many worker threads a runtime is capped at: what was asked for, which
/// has to be at least one, or nothing, for the runtime's own default.
pub fn worker_thread_cap(worker_threads: Option<usize>) -> (r: Result<Option<usize>, WorkerThreadsError>)
    ensures
        r is Err <==> worker_threads == Some(0usize),
        r matches Ok(cap) ==> cap == worker_threads,
{
    match worker_threads {
        Some(n) => if n == 0 {
            Err(WorkerThreadsError::Zero)
        } else {
            Ok(Some(n))
        },
        None => Ok(None),
    }
}

} // verus!
