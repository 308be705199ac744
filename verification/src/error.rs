//! Error kinds surfaced by the core.

use vstd::prelude::*;

verus! {

/// Everything the scheduler, block manager and engine can report.
///
/// `PromptTooLong`, `ResourceExhausted`, `Aborted` and `ModelError` are
/// recovered locally: the affected request is finalized and the engine
/// keeps serving. `PoolInvariantViolation` signals corrupted bookkeeping
/// and is propagated so the process can abort.
#[derive(Clone, Copy, PartialEq, Eq, Structural, Debug)]
pub enum EngineError {
    /// The prompt exceeds `max_model_len`; the request never runs.
    PromptTooLong,
    /// The block pool has no free block for a required allocation.
    OutOfMemory,
    /// Neither the gpu nor the cpu pool can hold a preemption victim.
    ResourceExhausted,
    /// The request was aborted by the client.
    Aborted,
    /// The model forward pass or the sampler failed.
    ModelError,
    /// Internal bookkeeping would be corrupted (for example a reference
    /// count that can no longer be represented).
    PoolInvariantViolation,
}

impl EngineError {
    /// Human-readable name of the error kind.
    pub fn as_str(&self) -> (s: &'static str)
    {
        match self {
            EngineError::PromptTooLong => "prompt too long",
            EngineError::OutOfMemory => "out of memory",
            EngineError::ResourceExhausted => "resource exhausted",
            EngineError::Aborted => "aborted",
            EngineError::ModelError => "model error",
            EngineError::PoolInvariantViolation => "pool invariant violation",
        }
    }
}

} // verus!
