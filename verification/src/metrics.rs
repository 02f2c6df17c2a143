//! The pluggable coverage metrics as one tagged variant per metric, the
//! aggregator that fans a trace out to them, and the projection of their
//! feedback onto the configured subset that drives the queue.
use vstd::prelude::*;

use crate::block_cov::{block_dump_ok, block_feedback, block_obs, BlockCoverage};
use crate::cfg::CfgIndex;
use crate::edge_cov::{edge_dump_ok, edge_feedback, edge_obs, EdgeCoverage};
use crate::error::FuzzerError;
use crate::feedback::CoverageFeedback;
use crate::numtext::str_eq;
use crate::per_function::{apply_recs, pfp_feedback, PerFunctionPathCoverage};
use crate::raw_path_cov::{rawpath_feedback, rawpath_obs, RawPathCoverage};
use crate::reduce::{init_state, run};

verus! {

/// The complete current coverage of one metric, where the metric has a
/// full representation: block and edge hit-count tables.
pub enum CoverageDump {
    Blocks(Vec<(u32, usize)>),
    Edges(Vec<(u32, u32, usize)>),
}

/// One coverage metric.
pub enum CoverageMetric {
    Block(BlockCoverage),
    Edge(EdgeCoverage),
    RawPath(RawPathCoverage),
    PerFunctionPath(PerFunctionPathCoverage),
}

impl CoverageMetric {
    pub open spec fn wf(self) -> bool {
        match self {
            CoverageMetric::Block(m) => m.wf(),
            CoverageMetric::Edge(m) => m.wf(),
            CoverageMetric::RawPath(m) => m.wf(),
            CoverageMetric::PerFunctionPath(m) => m.wf(),
        }
    }

    /// Whether the metric can absorb a trace of the given length without
    /// its counters overflowing.
    pub open spec fn can_observe(self, len: nat) -> bool {
        match self {
            CoverageMetric::Block(m) => m.total_spec() + len <= usize::MAX,
            CoverageMetric::Edge(m) => m.total_spec() + len <= usize::MAX,
            CoverageMetric::RawPath(m) => true,
            CoverageMetric::PerFunctionPath(m) => m.block_total() + len <= usize::MAX
                && m.edge_total() + len <= usize::MAX && m.path_total() + len <= usize::MAX,
        }
    }

    /// The name the metric reports.
    pub open spec fn name_spec(self) -> Seq<char> {
        match self {
            CoverageMetric::Block(_) => "block"@,
            CoverageMetric::Edge(_) => "edge"@,
            CoverageMetric::RawPath(_) => "rawpath"@,
            CoverageMetric::PerFunctionPath(_) => "path"@,
        }
    }

    /// Executable check of `can_observe`.
    pub fn ready_for(&self, len: usize) -> (r: bool)
        ensures
            r == self.can_observe(len as nat),
    {
        match self {
            CoverageMetric::Block(m) => m.total() <= usize::MAX - len,
            CoverageMetric::Edge(m) => m.total() <= usize::MAX - len,
            CoverageMetric::RawPath(_) => true,
            CoverageMetric::PerFunctionPath(m) => {
                let (bt, et, pt) = m.totals();
                bt <= usize::MAX - len && et <= usize::MAX - len && pt <= usize::MAX - len
            },
        }
    }

    /// What one observation does: the metric's state advances by its
    /// transition function on the trace, and the returned feedback is the
    /// metric's feedback function of the old state; the per-function metric
    /// alone can fail, on a trace that leaves its control-flow index.
    pub open spec fn observe_ensures(
        pre: CoverageMetric,
        post: CoverageMetric,
        t: Seq<u32>,
        r: Result<CoverageFeedback, FuzzerError>,
    ) -> bool {
        match (pre, post) {
            (CoverageMetric::Block(m0), CoverageMetric::Block(m1)) => {
                &&& m1@ == block_obs(m0@, t).m
                &&& m1.observed() == m0.observed().push(t)
                &&& r == Ok::<CoverageFeedback, FuzzerError>(block_feedback(m0@, t))
            },
            (CoverageMetric::Edge(m0), CoverageMetric::Edge(m1)) => {
                &&& m1@ == edge_obs(m0@, t).m
                &&& r == Ok::<CoverageFeedback, FuzzerError>(edge_feedback(m0@, t))
            },
            (CoverageMetric::RawPath(m0), CoverageMetric::RawPath(m1)) => {
                &&& m1@ == rawpath_obs(m0@, t)
                &&& r == Ok::<CoverageFeedback, FuzzerError>(rawpath_feedback(m0@, t))
            },
            (CoverageMetric::PerFunctionPath(m0), CoverageMetric::PerFunctionPath(m1)) => {
                let fs = run(m0.cfg_state(), t, 2, init_state());
                &&& m1.block_state() == block_obs(m0.block_state(), t).m
                &&& m1.edge_state() == edge_obs(m0.edge_state(), t).m
                &&& m1.cov_state() == apply_recs(m0.cov_state(), fs.recs).m
                &&& m1.cfg_state() == m0.cfg_state()
                &&& (r is Ok <==> fs.ok)
                &&& (r matches Ok(fb) ==> fb == pfp_feedback(
                    m0.block_state(),
                    m0.edge_state(),
                    m0.cov_state(),
                    m0.cfg_state(),
                    t,
                ))
                &&& (r is Err ==> r matches Err(FuzzerError::InvalidCoverage(_)))
            },
            _ => false,
        }
    }

    /// Observes one trace, updating the metric's state and returning its
    /// feedback.
    pub fn update_from_path(&mut self, path: &Vec<u32>) -> (r: Result<CoverageFeedback, FuzzerError>)
        requires
            old(self).wf(),
            old(self).can_observe(path@.len()),
        ensures
            final(self).wf(),
            CoverageMetric::observe_ensures(*old(self), *final(self), path@, r),
    {
        match self {
            CoverageMetric::Block(m) => Ok(m.update_from_path(path)),
            CoverageMetric::Edge(m) => Ok(m.update_from_path(path)),
            CoverageMetric::RawPath(m) => Ok(m.update_from_path(path)),
            CoverageMetric::PerFunctionPath(m) => m.update_from_path(path),
        }
    }

    /// The scalar the metric reports for stats: its count of covered keys,
    /// digests or reduced paths.
    pub fn cov_info(&self) -> (r: usize)
        requires
            self.wf(),
        ensures
            r as int == cov_count_spec(*self),
    {
        match self {
            CoverageMetric::Block(m) => m.cov_info(),
            CoverageMetric::Edge(m) => m.cov_info(),
            CoverageMetric::RawPath(m) => m.cov_info(),
            CoverageMetric::PerFunctionPath(m) => m.cov_info(),
        }
    }

    /// The complete current coverage, for the metrics that report one.
    pub fn full_cov(&self) -> (r: Option<CoverageDump>)
        requires
            self.wf(),
        ensures
            match self {
                CoverageMetric::Block(m) => r matches Some(CoverageDump::Blocks(v))
                    && block_dump_ok(m@, v@),
                CoverageMetric::Edge(m) => r matches Some(CoverageDump::Edges(v)) && edge_dump_ok(
                    m@,
                    v@,
                ),
                _ => r is None,
            },
    {
        match self {
            CoverageMetric::Block(m) => Some(CoverageDump::Blocks(m.full_cov())),
            CoverageMetric::Edge(m) => Some(CoverageDump::Edges(m.full_cov())),
            CoverageMetric::RawPath(_) => None,
            CoverageMetric::PerFunctionPath(_) => None,
        }
    }

    /// Name of the metric.
    pub fn name(&self) -> (r: &'static str)
        ensures
            r@ == self.name_spec(),
    {
        match self {
            CoverageMetric::Block(m) => m.name(),
            CoverageMetric::Edge(m) => m.name(),
            CoverageMetric::RawPath(m) => m.name(),
            CoverageMetric::PerFunctionPath(m) => m.name(),
        }
    }

    /// Static priority seed of the metric.
    pub fn priority(&self) -> (r: usize)
        ensures
            r == metric_priority_spec(self.name_spec()),
    {
        proof {
            lemma_metric_names_distinct();
        }
        match self {
            CoverageMetric::Block(m) => m.priority(),
            CoverageMetric::Edge(m) => m.priority(),
            CoverageMetric::RawPath(m) => m.priority(),
            CoverageMetric::PerFunctionPath(m) => m.priority(),
        }
    }
}

/// The five metric names are pairwise distinct.
proof fn lemma_metric_names_distinct()
    ensures
        "block"@ != "edge"@,
        "block"@ != "rawpath"@,
        "block"@ != "pfp"@,
        "block"@ != "path"@,
        "edge"@ != "rawpath"@,
        "edge"@ != "pfp"@,
        "edge"@ != "path"@,
        "rawpath"@ != "pfp"@,
        "rawpath"@ != "path"@,
        "pfp"@ != "path"@,
{
    reveal_strlit("block");
    reveal_strlit("edge");
    reveal_strlit("rawpath");
    reveal_strlit("pfp");
    reveal_strlit("path");
    assert("block"@.len() == 5);
    assert("edge"@.len() == 4);
    assert("rawpath"@.len() == 7);
    assert("pfp"@.len() == 3);
    assert("path"@.len() == 4);
    assert("edge"@[0] == 'e');
    assert("path"@[0] == 'p');
}

/// The static priority seed of each metric name; zero for an unknown name.
pub open spec fn metric_priority_spec(name: Seq<char>) -> usize {
    if name == "block"@ {
        100usize
    } else if name == "edge"@ {
        90usize
    } else if name == "pfp"@ || name == "path"@ {
        20usize
    } else if name == "rawpath"@ {
        10usize
    } else {
        0usize
    }
}

/// The metric a configuration name selects: `path` names the per-function
/// path metric, which consumes the control-flow index.
pub fn get_coverage_metric_by_name(name: &str, cfg: CfgIndex) -> (r: Option<CoverageMetric>)
    requires
        cfg.wf(),
    ensures
        ({
            match r {
                Some(m) => {
                    &&& m.wf()
                    &&& (name@ == "block"@ ==> (m matches CoverageMetric::Block(b) && b@
                        == Map::<u64, nat>::empty() && b.observed() == Seq::<Seq<u32>>::empty()))
                    &&& (name@ == "edge"@ ==> (m matches CoverageMetric::Edge(e) && e@ == Map::<
                        u64,
                        nat,
                    >::empty()))
                    &&& (name@ == "rawpath"@ ==> (m matches CoverageMetric::RawPath(p) && p@
                        == Set::<u128>::empty()))
                    &&& ((name@ == "path"@ || name@ == "pfp"@) ==> (m
                        matches CoverageMetric::PerFunctionPath(p) && p.block_state() == Map::<
                        u64,
                        nat,
                    >::empty() && p.edge_state() == Map::<u64, nat>::empty() && p.cov_state()
                        == Map::<u32, Set<u128>>::empty() && p.cfg_state() == cfg@))
                },
                None => name@ != "block"@ && name@ != "edge"@ && name@ != "rawpath"@ && name@
                    != "path"@ && name@ != "pfp"@,
            }
        }),
{
    proof {
        lemma_metric_names_distinct();
    }
    if str_eq(name, "block") {
        Some(CoverageMetric::Block(BlockCoverage::new()))
    } else if str_eq(name, "edge") {
        Some(CoverageMetric::Edge(EdgeCoverage::new()))
    } else if str_eq(name, "rawpath") {
        Some(CoverageMetric::RawPath(RawPathCoverage::new()))
    } else if str_eq(name, "path") || str_eq(name, "pfp") {
        Some(CoverageMetric::PerFunctionPath(PerFunctionPathCoverage::new(cfg)))
    } else {
        None
    }
}

/// The static priority seed of the metric a name selects, zero for an
/// unknown name.
pub fn get_metric_priority(name: &str) -> (r: usize)
    ensures
        r == metric_priority_spec(name@),
{
    proof {
        lemma_metric_names_distinct();
    }
    if str_eq(name, "block") {
        100
    } else if str_eq(name, "edge") {
        90
    } else if str_eq(name, "pfp") || str_eq(name, "path") {
        20
    } else if str_eq(name, "rawpath") {
        10
    } else {
        0
    }
}

/// Accepts a coverage-type name from the configuration surface.
pub fn validate_coverage_type(s: &str) -> (r: Result<String, String>)
    ensures
        (s@ == "block"@ || s@ == "edge"@ || s@ == "path"@) <==> r is Ok,
        r matches Ok(v) ==> v@ == s@,
        r matches Err(e) ==> e@ == "Invalid coverage type: "@ + s@,
{
    if str_eq(s, "block") || str_eq(s, "edge") || str_eq(s, "path") {
        Ok(String::from_str(s))
    } else {
        let mut msg = String::from_str("Invalid coverage type: ");
        msg.append(s);
        Err(msg)
    }
}

/// Tracks several metrics at once, observing each in order.
pub struct CoverageMetricAggregator {
    metrics: Vec<CoverageMetric>,
}

impl CoverageMetricAggregator {
    pub closed spec fn metrics_seq(&self) -> Seq<CoverageMetric> {
        self.metrics@
    }

    pub open spec fn wf(&self) -> bool {
        forall|i: int| 0 <= i < self.metrics_seq().len() ==> (#[trigger] self.metrics_seq()[i]).wf()
    }

    pub open spec fn can_observe(&self, len: nat) -> bool {
        forall|i: int|
            0 <= i < self.metrics_seq().len() ==> (#[trigger] self.metrics_seq()[i]).can_observe(len)
    }

    pub fn new(metrics: Vec<CoverageMetric>) -> (r: CoverageMetricAggregator)
        ensures
            r.metrics_seq() == metrics@,
    {
        CoverageMetricAggregator { metrics }
    }

    /// Executable check that every metric can absorb a trace of this length.
    pub fn ready_for(&self, len: usize) -> (r: bool)
        ensures
            r == self.can_observe(len as nat),
    {
        let n = self.metrics.len();
        let mut i: usize = 0;
        while i < n
            invariant
                n == self.metrics@.len(),
                i <= n,
                forall|j: int| 0 <= j < i ==> (#[trigger] self.metrics@[j]).can_observe(len as nat),
            decreases n - i,
        {
            if !vstd::std_specs::vec::vec_index(&self.metrics, i).ready_for(len) {
                proof {
                    assert(!(#[trigger] self.metrics_seq()[i as int]).can_observe(len as nat));
                }
                return false;
            }
            i = i + 1;
        }
        proof {
            assert forall|j: int| 0 <= j < self.metrics_seq().len() implies (
            #[trigger] self.metrics_seq()[j]).can_observe(len as nat) by {
                assert(self.metrics@[j].can_observe(len as nat));
            }
        }
        true
    }

    /// Observes one trace with every metric in order and returns, per
    /// metric, its name and its feedback. Stops at the first failing
    /// metric; the metrics before it have observed the trace.
    pub fn update_from_path(&mut self, path: &Vec<u32>) -> (r: Result<
        Vec<(&'static str, CoverageFeedback)>,
        FuzzerError,
    >)
        requires
            old(self).wf(),
            old(self).can_observe(path@.len()),
        ensures
            final(self).wf(),
            final(self).metrics_seq().len() == old(self).metrics_seq().len(),
            ({
                match r {
                    Ok(fbs) => {
                        &&& fbs@.len() == old(self).metrics_seq().len()
                        &&& forall|i: int|
                            0 <= i < fbs@.len() ==> CoverageMetric::observe_ensures(
                                old(self).metrics_seq()[i],
                                #[trigger] final(self).metrics_seq()[i],
                                path@,
                                Ok(fbs@[i].1),
                            ) && fbs@[i].0@ == old(self).metrics_seq()[i].name_spec()
                    },
                    Err(e) => e matches FuzzerError::InvalidCoverage(_),
                }
            }),
    {
        let n = self.metrics.len();
        let mut results: Vec<(&'static str, CoverageFeedback)> = Vec::new();
        let mut i: usize = 0;
        while i < n
            invariant
                n == self.metrics@.len(),
                n == old(self).metrics_seq().len(),
                i <= n,
                old(self).wf(),
                old(self).can_observe(path@.len()),
                self.wf(),
                results@.len() == i,
                forall|j: int| i <= j < n ==> self.metrics@[j] == old(self).metrics_seq()[j],
                forall|j: int|
                    0 <= j < i ==> CoverageMetric::observe_ensures(
                        old(self).metrics_seq()[j],
                        #[trigger] self.metrics@[j],
                        path@,
                        Ok(results@[j].1),
                    ) && results@[j].0@ == old(self).metrics_seq()[j].name_spec(),
            decreases n - i,
        {
            proof {
                assert((#[trigger] self.metrics_seq()[i as int]).wf());
                assert(self.metrics@[i as int] == old(self).metrics_seq()[i as int]);
                assert(old(self).metrics_seq()[i as int].can_observe(path@.len()));
            }
            let name = vstd::std_specs::vec::vec_index(&self.metrics, i).name();
            let ghost mseq0 = self.metrics@;
            let m = vstd::std_specs::vec::vec_index_mut(&mut self.metrics, i);
            let res = m.update_from_path(path);
            proof {
                assert(self.metrics@ == mseq0.update(i as int, self.metrics@[i as int]));
                assert forall|j: int| 0 <= j < self.metrics@.len() implies (
                #[trigger] self.metrics@[j]).wf() by {
                    if j != i {
                        assert(self.metrics@[j] == mseq0[j]);
                    }
                }
            }
            let fb = match res {
                Ok(fb) => fb,
                Err(e) => {
                    return Err(e);
                },
            };
            results.push((name, fb));
            i = i + 1;
        }
        Ok(results)
    }

    /// The complete coverage of every metric that reports one, with the
    /// metric's name: every pair reports one of the metrics, and every
    /// metric with a full representation appears.
    pub fn full_cov(&self) -> (r: Vec<(&'static str, CoverageDump)>)
        requires
            self.wf(),
        ensures
            dump_pairs_ok(self.metrics_seq(), r@),
            forall|j: int|
                0 <= j < self.metrics_seq().len() && has_dump(#[trigger] self.metrics_seq()[j])
                    ==> exists|p: int|
                    0 <= p < r@.len() && dump_pair_matches(self.metrics_seq()[j], r@[p]),
    {
        let n = self.metrics.len();
        let mut r: Vec<(&'static str, CoverageDump)> = Vec::new();
        let mut i: usize = 0;
        while i < n
            invariant
                self.wf(),
                n == self.metrics@.len(),
                i <= n,
                dump_pairs_ok(self.metrics_seq(), r@),
                forall|j: int|
                    0 <= j < i && has_dump(#[trigger] self.metrics_seq()[j]) ==> exists|p: int|
                        0 <= p < r@.len() && dump_pair_matches(self.metrics_seq()[j], r@[p]),
            decreases n - i,
        {
            proof {
                assert((#[trigger] self.metrics_seq()[i as int]).wf());
            }
            let m = vstd::std_specs::vec::vec_index(&self.metrics, i);
            match m.full_cov() {
                Some(dump) => {
                    let ghost r0 = r@;
                    r.push((m.name(), dump));
                    proof {
                        assert forall|p: int| 0 <= p < r@.len() implies exists|j: int|
                            0 <= j < self.metrics_seq().len() && dump_pair_matches(
                                self.metrics_seq()[j],
                                #[trigger] r@[p],
                            ) by {
                            if p < r@.len() - 1 {
                                assert(r@[p] == r0[p]);
                                let j = choose|j: int|
                                    0 <= j < self.metrics_seq().len() && dump_pair_matches(
                                        self.metrics_seq()[j],
                                        r0[p],
                                    );
                                assert(dump_pair_matches(self.metrics_seq()[j], r@[p]));
                            } else {
                                assert(dump_pair_matches(self.metrics_seq()[i as int], r@[p]));
                            }
                        }
                        assert forall|j: int|
                            0 <= j < i + 1 && has_dump(#[trigger] self.metrics_seq()[j]) implies exists|
                            p: int,
                        |
                            0 <= p < r@.len() && dump_pair_matches(self.metrics_seq()[j], r@[p]) by {
                            if j < i {
                                let p = choose|p: int|
                                    0 <= p < r0.len() && dump_pair_matches(
                                        self.metrics_seq()[j],
                                        r0[p],
                                    );
                                assert(r@[p] == r0[p]);
                                assert(dump_pair_matches(self.metrics_seq()[j], r@[p]));
                            } else {
                                assert(dump_pair_matches(self.metrics_seq()[j], r@[r@.len() - 1]));
                            }
                        }
                    }
                },
                None => {},
            }
            i = i + 1;
        }
        r
    }

    /// The per-metric coverage counts, for stats reporting: one pair per
    /// metric, in order, carrying the metric's name and its count.
    pub fn cov_info(&self) -> (r: Vec<(&'static str, usize)>)
        requires
            self.wf(),
        ensures
            r@.len() == self.metrics_seq().len(),
            forall|i: int|
                0 <= i < r@.len() ==> (#[trigger] r@[i]).0@ == self.metrics_seq()[i].name_spec()
                    && r@[i].1 as int == cov_count_spec(self.metrics_seq()[i]),
    {
        let n = self.metrics.len();
        let mut r: Vec<(&'static str, usize)> = Vec::new();
        let mut i: usize = 0;
        while i < n
            invariant
                self.wf(),
                n == self.metrics@.len(),
                i <= n,
                r@.len() == i,
                forall|p: int|
                    0 <= p < i ==> (#[trigger] r@[p]).0@ == self.metrics_seq()[p].name_spec()
                        && r@[p].1 as int == cov_count_spec(self.metrics_seq()[p]),
            decreases n - i,
        {
            proof {
                assert((#[trigger] self.metrics_seq()[i as int]).wf());
            }
            let m = vstd::std_specs::vec::vec_index(&self.metrics, i);
            r.push((m.name(), m.cov_info()));
            i = i + 1;
        }
        r
    }
}

/// The count a metric reports for stats: covered blocks, covered edges,
/// distinct trace digests, or recorded reduced paths.
pub open spec fn cov_count_spec(m: CoverageMetric) -> int {
    match m {
        CoverageMetric::Block(b) => b@.dom().len() as int,
        CoverageMetric::Edge(e) => e@.dom().len() as int,
        CoverageMetric::RawPath(p) => p@.len() as int,
        CoverageMetric::PerFunctionPath(p) => p.path_total(),
    }
}

/// Whether a metric has a complete representation to dump.
pub open spec fn has_dump(m: CoverageMetric) -> bool {
    m is Block || m is Edge
}

/// One dump pair reports the given metric: the name matches and the dump
/// is a faithful dump of the metric's table.
pub open spec fn dump_pair_matches(m: CoverageMetric, pair: (&'static str, CoverageDump)) -> bool {
    &&& pair.0@ == m.name_spec()
    &&& match m {
        CoverageMetric::Block(b) => pair.1 matches CoverageDump::Blocks(v) && block_dump_ok(b@, v@),
        CoverageMetric::Edge(e) => pair.1 matches CoverageDump::Edges(v) && edge_dump_ok(e@, v@),
        _ => false,
    }
}

/// Every dump pair reports one of the metrics.
pub open spec fn dump_pairs_ok(
    ms: Seq<CoverageMetric>,
    r: Seq<(&'static str, CoverageDump)>,
) -> bool {
    forall|p: int|
        0 <= p < r.len() ==> exists|j: int| 0 <= j < ms.len() && dump_pair_matches(ms[j], #[trigger] r[p])
}

/// Whether a metric name is in the configured subset.
pub open spec fn name_in_use(name: Seq<char>, use_cov: Seq<String>) -> bool {
    exists|j: int| 0 <= j < use_cov.len() && (#[trigger] use_cov[j])@ == name
}

/// Whether any configured metric reported new coverage.
pub open spec fn triggers_new_spec(fbs: Seq<(&'static str, CoverageFeedback)>, use_cov: Seq<String>) -> bool {
    exists|i: int|
        0 <= i < fbs.len() && name_in_use((#[trigger] fbs[i]).0@, use_cov) && fbs[i].1.is_new_cov()
}

/// The queue priority: the highest feedback rank among configured metrics.
pub open spec fn priority_spec(fbs: Seq<(&'static str, CoverageFeedback)>, use_cov: Seq<String>) -> int
    decreases fbs.len(),
{
    if fbs.len() == 0 {
        0
    } else {
        let rest = priority_spec(fbs.drop_last(), use_cov);
        if name_in_use(fbs.last().0@, use_cov) && fbs.last().1.rank() > rest {
            fbs.last().1.rank()
        } else {
            rest
        }
    }
}

/// Executable membership test of a name in the configured subset.
fn name_in_use_exec(name: &str, use_cov: &Vec<String>) -> (r: bool)
    ensures
        r == name_in_use(name@, use_cov@),
{
    let n = use_cov.len();
    let mut j: usize = 0;
    while j < n
        invariant
            n == use_cov@.len(),
            j <= n,
            forall|p: int| 0 <= p < j ==> (#[trigger] use_cov@[p])@ != name@,
        decreases n - j,
    {
        if str_eq(vstd::std_specs::vec::vec_index(use_cov, j).as_str(), name) {
            return true;
        }
        j = j + 1;
    }
    false
}

/// Projects aggregated feedback onto the configured metric subset: whether
/// any configured metric found new coverage, and the queue priority as the
/// highest feedback rank among them.
pub fn summarize_coverage(
    fbs: &Vec<(&'static str, CoverageFeedback)>,
    use_cov: &Vec<String>,
) -> (r: (bool, usize))
    ensures
        r.0 == triggers_new_spec(fbs@, use_cov@),
        r.1 as int == priority_spec(fbs@, use_cov@),
{
    let n = fbs.len();
    let mut any_cov = false;
    let mut priority: usize = 0;
    let mut i: usize = 0;
    while i < n
        invariant
            n == fbs@.len(),
            i <= n,
            any_cov == triggers_new_spec(fbs@.take(i as int), use_cov@),
            priority as int == priority_spec(fbs@.take(i as int), use_cov@),
            priority <= 5,
        decreases n - i,
    {
        let pair = vstd::std_specs::vec::vec_index(fbs, i);
        let in_use = name_in_use_exec(pair.0, use_cov);
        let ghost pre = fbs@.take(i as int);
        proof {
            assert(fbs@.take(i as int + 1).drop_last() =~= pre);
            assert(fbs@.take(i as int + 1).last() == fbs@[i as int]);
        }
        if in_use {
            if pair.1.new_cov() {
                any_cov = true;
            }
            let rank = pair.1.priority();
            if rank > priority {
                priority = rank;
            }
        }
        proof {
            assert(triggers_new_spec(fbs@.take(i as int + 1), use_cov@) == (triggers_new_spec(
                pre,
                use_cov@,
            ) || (name_in_use(fbs@[i as int].0@, use_cov@) && fbs@[i as int].1.is_new_cov()))) by {
                let post = fbs@.take(i as int + 1);
                if triggers_new_spec(post, use_cov@) {
                    let q = choose|q: int|
                        0 <= q < post.len() && name_in_use((#[trigger] post[q]).0@, use_cov@)
                            && post[q].1.is_new_cov();
                    if q < i {
                        assert(pre[q] == post[q]);
                        assert(triggers_new_spec(pre, use_cov@));
                    }
                } else {
                    if triggers_new_spec(pre, use_cov@) {
                        let q = choose|q: int|
                            0 <= q < pre.len() && name_in_use((#[trigger] pre[q]).0@, use_cov@)
                                && pre[q].1.is_new_cov();
                        assert(post[q] == pre[q]);
                    }
                    if name_in_use(fbs@[i as int].0@, use_cov@) && fbs@[i as int].1.is_new_cov() {
                        assert(post[i as int] == fbs@[i as int]);
                    }
                }
            }
        }
        i = i + 1;
    }
    proof {
        assert(fbs@.take(n as int) =~= fbs@);
    }
    (any_cov, priority)
}

} // verus!
