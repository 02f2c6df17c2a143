//! Error taxonomy of the fuzzer core. Initialization failures abort the run;
//! per-execution failures are local and never poison coverage state.
use vstd::prelude::*;

verus! {

/// Errors surfaced by the library. I/O and JSON problems are detected by the
/// caller and carried here as messages; the library itself raises
/// `Configuration` for a rejected setup and `InvalidCoverage` for a trace
/// that contradicts the control-flow index.
#[derive(Debug, Clone, PartialEq, Eq)]
pub enum FuzzerError {
    Io(String),
    TargetExecution(String),
    InvalidCoverage(String),
    Configuration(String),
    Json(String),
}

} // verus!
