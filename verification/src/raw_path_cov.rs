//! Raw path coverage: the set of digests of whole traces. A trace yields
//! `NewPath` exactly when its digest was not in the set; the uniqueness of
//! this metric is always zero.
use vstd::prelude::*;

use crate::digest::{compute_trace_digest, trace_digest};
use crate::feedback::CoverageFeedback;
use crate::store::DigestSet;

verus! {

/// The feedback raw-path coverage returns for trace `t` against digest set
/// `s`; an empty trace never counts as a path.
pub open spec fn rawpath_feedback(s: Set<u128>, t: Seq<u32>) -> CoverageFeedback {
    if t.len() > 0 && !s.contains(trace_digest(t)) {
        CoverageFeedback::NewPath { uniqueness: 0 }
    } else {
        CoverageFeedback::NoCoverage(0)
    }
}

/// The digest set after observing `t`: unchanged for an empty trace.
pub open spec fn rawpath_obs(s: Set<u128>, t: Seq<u32>) -> Set<u128> {
    if t.len() == 0 {
        s
    } else {
        s.insert(trace_digest(t))
    }
}

/// Observing the same trace twice yields no new coverage the second time.
pub proof fn lemma_rawpath_reobserve(s: Set<u128>, t: Seq<u32>)
    ensures
        rawpath_feedback(rawpath_obs(s, t), t) is NoCoverage,
{
}

/// The raw-path metric state.
pub struct RawPathCoverage {
    paths: DigestSet,
}

impl View for RawPathCoverage {
    type V = Set<u128>;

    closed spec fn view(&self) -> Set<u128> {
        self.paths@
    }
}

impl RawPathCoverage {
    pub closed spec fn wf(&self) -> bool {
        self.paths.wf()
    }

    pub fn new() -> (r: RawPathCoverage)
        ensures
            r.wf(),
            r@ == Set::<u128>::empty(),
    {
        RawPathCoverage { paths: DigestSet::new() }
    }

    /// Observes one trace: inserts its digest and returns `NewPath` exactly
    /// when the digest was absent.
    pub fn update_from_path(&mut self, path: &Vec<u32>) -> (r: CoverageFeedback)
        requires
            old(self).wf(),
        ensures
            final(self).wf(),
            final(self)@ == rawpath_obs(old(self)@, path@),
            r == rawpath_feedback(old(self)@, path@),
    {
        if path.len() == 0 {
            return CoverageFeedback::NoCoverage(0);
        }
        let d = compute_trace_digest(path);
        let fresh = self.paths.insert(d);
        if fresh {
            CoverageFeedback::NewPath { uniqueness: 0 }
        } else {
            CoverageFeedback::NoCoverage(0)
        }
    }

    /// Number of distinct trace digests observed so far.
    pub fn cov_info(&self) -> (r: usize)
        requires
            self.wf(),
        ensures
            r == self@.len(),
    {
        self.paths.len()
    }

    /// Name of the metric.
    pub fn name(&self) -> (r: &'static str)
        ensures
            r@ == "rawpath"@,
    {
        "rawpath"
    }

    /// Static priority seed of the metric.
    pub fn priority(&self) -> (r: usize)
        ensures
            r == 10,
    {
        10
    }
}

} // verus!
