//! Core of a coverage-guided greybox fuzzer: coverage metrics over block-id
//! traces, a per-function path reducer with bounded loop unrolling, feedback
//! ordering, and the decision logic of the priority-driven fuzzing loop.
use vstd::prelude::*;

pub mod block_cov;
pub mod cfg;
pub mod digest;
pub mod edge_cov;
pub mod engine;
pub mod error;
pub mod feedback;
pub mod metrics;
pub mod mutate;
pub mod numtext;
pub mod per_function;
pub mod randsrc;
pub mod raw_path_cov;
pub mod reduce;
pub mod reduce_laws;
pub mod store;
pub mod trace;

verus! {

/// True exactly for the signals treated as crashes: SIGSEGV (11),
/// SIGABRT (6) and SIGBUS (7).
pub fn is_crash_signal(signal: i32) -> (r: bool)
    ensures
        r == (signal == 11i32 || signal == 6i32 || signal == 7i32),
{
    signal == 11 || signal == 6 || signal == 7
}

} // verus!
