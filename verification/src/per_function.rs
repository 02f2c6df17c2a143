//! Per-function path coverage: block and edge coverage composed with the
//! path reducer. Each reduced per-function buffer is hashed and stored in a
//! digest set keyed by the function's entry block.
use vstd::prelude::*;

use crate::block_cov::{block_feedback, block_obs, BlockCoverage};
use crate::cfg::CfgIndex;
use crate::digest::{compute_trace_digest, trace_digest};
use crate::edge_cov::{edge_feedback, edge_obs, EdgeCoverage};
use crate::error::FuzzerError;
use crate::feedback::CoverageFeedback;
use crate::reduce::{init_state, lemma_run_preserves_wf, recs_abs, reduce_trace, run};
use crate::store::{distinct_keys, lemma_assoc_at, lemma_assoc_contains, lemma_assoc_update, assoc_map, DigestSet};

verus! {

/// The digest set a coverage map assigns to a function entry, empty when
/// the function has not produced a path yet.
pub open spec fn cov_set(m: Map<u32, Set<u128>>, e: u32) -> Set<u128> {
    if m.contains_key(e) {
        m[e]
    } else {
        Set::empty()
    }
}

/// Result of folding reduced-path records into a coverage map.
pub ghost struct ApplyOut {
    pub m: Map<u32, Set<u128>>,
    pub added: nat,
    pub fresh: bool,
}

/// Folds records `recs[j..]` into the map: each record's buffer is hashed
/// and added to the digest set of its entry; `added` counts the digests
/// that were new, `fresh` records whether any was.
pub open spec fn apply_recs_from(
    m: Map<u32, Set<u128>>,
    recs: Seq<(u32, Seq<u32>)>,
    j: int,
    added: nat,
    fresh: bool,
) -> ApplyOut
    decreases recs.len() - j,
{
    if j < 0 || j >= recs.len() {
        ApplyOut { m, added, fresh }
    } else {
        let e = recs[j].0;
        let d = trace_digest(recs[j].1);
        let isnew = !cov_set(m, e).contains(d);
        apply_recs_from(
            m.insert(e, cov_set(m, e).insert(d)),
            recs,
            j + 1,
            added + (if isnew {
                1nat
            } else {
                0nat
            }),
            fresh || isnew,
        )
    }
}

pub open spec fn apply_recs(m: Map<u32, Set<u128>>, recs: Seq<(u32, Seq<u32>)>) -> ApplyOut {
    apply_recs_from(m, recs, 0, 0, false)
}

/// The feedback per-function path coverage returns: the block metric wins
/// if it saw a new block, then the edge metric, then a new reduced path
/// (carrying the edge uniqueness); otherwise no coverage with the edge
/// uniqueness.
pub open spec fn pfp_feedback(
    bm: Map<u64, nat>,
    em: Map<u64, nat>,
    cov: Map<u32, Set<u128>>,
    cfgm: Map<u32, Set<u32>>,
    t: Seq<u32>,
) -> CoverageFeedback {
    let bf = block_feedback(bm, t);
    let ef = edge_feedback(em, t);
    let eu = edge_obs(em, t).uniq as usize;
    let any_new = apply_recs(cov, run(cfgm, t, 2, init_state()).recs).fresh;
    if bf is NewBlock {
        bf
    } else if ef is NewEdge {
        ef
    } else if any_new {
        CoverageFeedback::NewPath { uniqueness: eu }
    } else {
        CoverageFeedback::NoCoverage(eu)
    }
}

/// Digest sets keyed by function entry block, with a running total count.
pub struct FnCovMap {
    entries: Vec<(u64, DigestSet)>,
    count: usize,
}

/// Sum of the digest-set sizes of an association list.
pub open spec fn sum_sizes(s: Seq<(u64, DigestSet)>) -> nat
    decreases s.len(),
{
    if s.len() == 0 {
        0
    } else {
        sum_sizes(s.drop_last()) + s.last().1@.len()
    }
}

proof fn lemma_sum_update(s: Seq<(u64, DigestSet)>, i: int, v: (u64, DigestSet))
    requires
        0 <= i < s.len(),
    ensures
        sum_sizes(s.update(i, v)) + s[i].1@.len() == sum_sizes(s) + v.1@.len(),
    decreases s.len(),
{
    let t = s.update(i, v);
    if i == s.len() - 1 {
        assert(t.drop_last() =~= s.drop_last());
        assert(t.last() == v);
    } else {
        assert(t.drop_last() =~= s.drop_last().update(i, v));
        assert(t.last() == s.last());
        lemma_sum_update(s.drop_last(), i, v);
        assert(s.drop_last()[i] == s[i]);
    }
}

impl View for FnCovMap {
    type V = Map<u32, Set<u128>>;

    closed spec fn view(&self) -> Map<u32, Set<u128>> {
        Map::new(
            |e: u32| assoc_map(self.entries@).contains_key(e as u64),
            |e: u32| assoc_map(self.entries@)[e as u64]@,
        )
    }
}

impl FnCovMap {
    pub closed spec fn wf(&self) -> bool {
        &&& distinct_keys(self.entries@)
        &&& forall|i: int| 0 <= i < self.entries@.len() ==> (#[trigger] self.entries@[i]).0 <= u32::MAX
        &&& forall|i: int| 0 <= i < self.entries@.len() ==> (#[trigger] self.entries@[i]).1.wf()
        &&& self.count as nat == sum_sizes(self.entries@)
    }

    pub closed spec fn count_spec(&self) -> int {
        self.count as int
    }

    pub fn new() -> (r: FnCovMap)
        ensures
            r.wf(),
            r@ == Map::<u32, Set<u128>>::empty(),
            r.count_spec() == 0,
    {
        let r = FnCovMap { entries: Vec::new(), count: 0 };
        proof {
            assert(r@ =~= Map::<u32, Set<u128>>::empty());
        }
        r
    }

    /// Total number of distinct reduced paths recorded, over all functions.
    pub fn count(&self) -> (r: usize)
        ensures
            r == self.count_spec(),
    {
        self.count
    }

    /// Adds one digest under one entry; reports whether it was new there.
    pub fn insert_digest(&mut self, e: u32, d: u128) -> (fresh: bool)
        requires
            old(self).wf(),
            old(self).count_spec() < usize::MAX,
        ensures
            final(self).wf(),
            final(self)@ == old(self)@.insert(e, cov_set(old(self)@, e).insert(d)),
            fresh == !cov_set(old(self)@, e).contains(d),
            final(self).count_spec() == old(self).count_spec() + (if fresh {
                1int
            } else {
                0int
            }),
    {
        let n = self.entries.len();
        let ghost s0 = self.entries@;
        let mut i: usize = 0;
        while i < n
            invariant
                *self == *old(self),
                old(self).wf(),
                old(self).count_spec() < usize::MAX,
                s0 == self.entries@,
                n == self.entries@.len(),
                i <= n,
                forall|j: int| 0 <= j < i ==> (#[trigger] self.entries@[j]).0 != e as u64,
            decreases n - i,
        {
            let found = vstd::std_specs::vec::vec_index(&self.entries, i).0 == e as u64;
            if found {
                proof {
                    lemma_assoc_at(s0, i as int);
                    assert(old(self)@.contains_key(e));
                    assert(cov_set(old(self)@, e) == s0[i as int].1@);
                }
                let slot = vstd::std_specs::vec::vec_index_mut(&mut self.entries, i);
                let fresh = slot.1.insert(d);
                proof {
                    assert(self.entries@ =~= s0.update(i as int, (e as u64, self.entries@[i as int].1)));
                    lemma_assoc_update(s0, i as int, self.entries@[i as int].1);
                    assert(self@ =~= old(self)@.insert(e, cov_set(old(self)@, e).insert(d)));
                    lemma_sum_update(s0, i as int, self.entries@[i as int]);
                }
                if fresh {
                    self.count = self.count + 1;
                }
                return fresh;
            }
            i = i + 1;
        }
        proof {
            lemma_assoc_contains(s0, e as u64);
            assert(!old(self)@.contains_key(e));
            assert(cov_set(old(self)@, e) =~= Set::<u128>::empty());
        }
        let mut ds = DigestSet::new();
        let fresh = ds.insert(d);
        self.entries.push((e as u64, ds));
        self.count = self.count + 1;
        proof {
            assert(self.entries@.drop_last() =~= s0);
            assert(distinct_keys(self.entries@)) by {
                assert forall|p: int, q: int| 0 <= p < q < self.entries@.len() implies (
                #[trigger] self.entries@[p]).0 != (#[trigger] self.entries@[q]).0 by {
                    if q == self.entries@.len() - 1 {
                        assert(self.entries@[p] == s0[p]);
                    } else {
                        assert(self.entries@[p] == s0[p] && self.entries@[q] == s0[q]);
                    }
                }
            }
            assert(self@ =~= old(self)@.insert(e, cov_set(old(self)@, e).insert(d)));
        }
        fresh
    }
}

/// Per-function path coverage: embedded block and edge metrics, a control
/// flow index, and one digest set per function.
pub struct PerFunctionPathCoverage {
    block_cov: BlockCoverage,
    edge_cov: EdgeCoverage,
    coverage: FnCovMap,
    first_to_lasts: CfgIndex,
}

impl PerFunctionPathCoverage {
    /// The embedded block hit-count table.
    pub closed spec fn block_state(&self) -> Map<u64, nat> {
        self.block_cov@
    }

    /// The embedded edge hit-count table.
    pub closed spec fn edge_state(&self) -> Map<u64, nat> {
        self.edge_cov@
    }

    /// The per-function digest sets.
    pub closed spec fn cov_state(&self) -> Map<u32, Set<u128>> {
        self.coverage@
    }

    /// The control-flow index: entry block to exit set.
    pub closed spec fn cfg_state(&self) -> Map<u32, Set<u32>> {
        self.first_to_lasts@
    }

    pub closed spec fn block_total(&self) -> int {
        self.block_cov.total_spec()
    }

    pub closed spec fn edge_total(&self) -> int {
        self.edge_cov.total_spec()
    }

    pub closed spec fn path_total(&self) -> int {
        self.coverage.count_spec()
    }

    pub closed spec fn wf(&self) -> bool {
        &&& self.block_cov.wf()
        &&& self.edge_cov.wf()
        &&& self.coverage.wf()
        &&& self.first_to_lasts.wf()
    }

    /// A metric over the given control-flow index, with empty state.
    pub fn new(cfg: CfgIndex) -> (r: PerFunctionPathCoverage)
        requires
            cfg.wf(),
        ensures
            r.wf(),
            r.block_state() == Map::<u64, nat>::empty(),
            r.edge_state() == Map::<u64, nat>::empty(),
            r.cov_state() == Map::<u32, Set<u128>>::empty(),
            r.cfg_state() == cfg@,
            r.block_total() == 0,
            r.edge_total() == 0,
            r.path_total() == 0,
    {
        PerFunctionPathCoverage {
            block_cov: BlockCoverage::new(),
            edge_cov: EdgeCoverage::new(),
            coverage: FnCovMap::new(),
            first_to_lasts: cfg,
        }
    }

    /// A metric with an empty control-flow index.
    pub fn empty() -> (r: PerFunctionPathCoverage)
        ensures
            r.wf(),
            r.block_state() == Map::<u64, nat>::empty(),
            r.edge_state() == Map::<u64, nat>::empty(),
            r.cov_state() == Map::<u32, Set<u128>>::empty(),
            r.cfg_state() == Map::<u32, Set<u32>>::empty(),
            r.block_total() == 0,
            r.edge_total() == 0,
            r.path_total() == 0,
    {
        Self::new(CfgIndex::new())
    }

    /// Registers one function by entry block and exit blocks.
    pub fn insert_function(&mut self, entry: u32, exits: Vec<u32>)
        requires
            old(self).wf(),
        ensures
            final(self).wf(),
            final(self).cfg_state() == old(self).cfg_state().insert(entry, exits@.to_set()),
            final(self).block_state() == old(self).block_state(),
            final(self).edge_state() == old(self).edge_state(),
            final(self).cov_state() == old(self).cov_state(),
            final(self).block_total() == old(self).block_total(),
            final(self).edge_total() == old(self).edge_total(),
            final(self).path_total() == old(self).path_total(),
    {
        self.first_to_lasts.insert_function(entry, exits);
    }

    /// The three totals that bound this metric's state: summed trace length
    /// seen by the block metric, by the edge metric, and the number of
    /// recorded reduced paths.
    pub fn totals(&self) -> (r: (usize, usize, usize))
        ensures
            r.0 == self.block_total(),
            r.1 == self.edge_total(),
            r.2 == self.path_total(),
    {
        (self.block_cov.total(), self.edge_cov.total(), self.coverage.count())
    }

    /// Reduces all function instances of `path` with the default unroll
    /// bound and records their digests; reports whether any reduced path
    /// was new. Fails when a function start is not a known entry block.
    pub fn reduce_fun(&mut self, path: &Vec<u32>) -> (r: Result<bool, FuzzerError>)
        requires
            old(self).wf(),
            old(self).path_total() + path@.len() <= usize::MAX,
        ensures
            final(self).wf(),
            final(self).block_state() == old(self).block_state(),
            final(self).edge_state() == old(self).edge_state(),
            final(self).cfg_state() == old(self).cfg_state(),
            final(self).block_total() == old(self).block_total(),
            final(self).edge_total() == old(self).edge_total(),
            ({
                let fs = run(old(self).cfg_state(), path@, 2, init_state());
                let ao = apply_recs(old(self).cov_state(), fs.recs);
                &&& final(self).cov_state() == ao.m
                &&& final(self).path_total() == old(self).path_total() + ao.added
                &&& (r is Ok <==> fs.ok)
                &&& (r matches Ok(fresh) ==> fresh == ao.fresh)
                &&& (r is Err ==> r matches Err(FuzzerError::InvalidCoverage(_)))
            }),
    {
        self.reduce_fun1(path, 2)
    }

    /// Reduces all function instances of `path` with unroll bound `k`.
    pub fn reduce_fun1(&mut self, path: &Vec<u32>, k: usize) -> (r: Result<bool, FuzzerError>)
        requires
            old(self).wf(),
            old(self).path_total() + path@.len() <= usize::MAX,
        ensures
            final(self).wf(),
            final(self).block_state() == old(self).block_state(),
            final(self).edge_state() == old(self).edge_state(),
            final(self).cfg_state() == old(self).cfg_state(),
            final(self).block_total() == old(self).block_total(),
            final(self).edge_total() == old(self).edge_total(),
            ({
                let fs = run(old(self).cfg_state(), path@, k as nat, init_state());
                let ao = apply_recs(old(self).cov_state(), fs.recs);
                &&& final(self).cov_state() == ao.m
                &&& final(self).path_total() == old(self).path_total() + ao.added
                &&& (r is Ok <==> fs.ok)
                &&& (r matches Ok(fresh) ==> fresh == ao.fresh)
                &&& (r is Err ==> r matches Err(FuzzerError::InvalidCoverage(_)))
            }),
    {
        let (recs, ok) = reduce_trace(&self.first_to_lasts, path, k);
        let ghost fs = run(self.first_to_lasts@, path@, k as nat, init_state());
        proof {
            lemma_run_preserves_wf(self.first_to_lasts@, path@, k as nat, init_state());
            assert(fs.recs.len() <= path@.len());
        }
        let n = recs.len();
        let ghost cov0 = self.coverage@;
        let ghost count0 = self.coverage.count_spec();
        let mut any_new = false;
        let mut j: usize = 0;
        while j < n
            invariant
                old(self).wf(),
                self.block_cov == old(self).block_cov,
                self.edge_cov == old(self).edge_cov,
                self.first_to_lasts == old(self).first_to_lasts,
                self.coverage.wf(),
                n == recs@.len(),
                n == fs.recs.len(),
                recs_abs(recs@) == fs.recs,
                fs.recs.len() <= path@.len(),
                j <= n,
                cov0 == old(self).coverage@,
                count0 == old(self).coverage.count_spec(),
                count0 + path@.len() <= usize::MAX,
                count0 <= self.coverage.count_spec() <= count0 + j,
                apply_recs_from(
                    self.coverage@,
                    fs.recs,
                    j as int,
                    (self.coverage.count_spec() - count0) as nat,
                    any_new,
                ) == apply_recs(cov0, fs.recs),
            decreases n - j,
        {
            let rec = vstd::std_specs::vec::vec_index(&recs, j);
            let d = compute_trace_digest(&rec.1);
            let ghost mj = self.coverage@;
            let ghost aj = (self.coverage.count_spec() - count0) as nat;
            let ghost fj = any_new;
            proof {
                assert(fs.recs[j as int] == (recs@[j as int].0, recs@[j as int].1@));
            }
            let fresh = self.coverage.insert_digest(rec.0, d);
            if fresh {
                any_new = true;
            }
            proof {
                let e = fs.recs[j as int].0;
                let dd = trace_digest(fs.recs[j as int].1);
                assert(dd == d);
                let isnew = !cov_set(mj, e).contains(dd);
                assert(isnew == fresh);
                assert(self.coverage@ == mj.insert(e, cov_set(mj, e).insert(dd)));
                assert((self.coverage.count_spec() - count0) as nat == aj + (if isnew {
                    1nat
                } else {
                    0nat
                }));
                assert(any_new == (fj || isnew));
                assert(apply_recs_from(mj, fs.recs, j as int, aj, fj) == apply_recs_from(
                    self.coverage@,
                    fs.recs,
                    j as int + 1,
                    (self.coverage.count_spec() - count0) as nat,
                    any_new,
                ));
            }
            j = j + 1;
        }
        if !ok {
            return Err(
                FuzzerError::InvalidCoverage(
                    String::from_str("trace position does not begin at a known function entry"),
                ),
            );
        }
        Ok(any_new)
    }

    /// Observes one trace: updates block and edge coverage on the raw
    /// trace, reduces it per function, and returns the highest-ranking
    /// feedback among new-block, new-edge and new-path.
    pub fn update_from_path(&mut self, path: &Vec<u32>) -> (r: Result<CoverageFeedback, FuzzerError>)
        requires
            old(self).wf(),
            old(self).block_total() + path@.len() <= usize::MAX,
            old(self).edge_total() + path@.len() <= usize::MAX,
            old(self).path_total() + path@.len() <= usize::MAX,
        ensures
            final(self).wf(),
            final(self).cfg_state() == old(self).cfg_state(),
            final(self).block_state() == block_obs(old(self).block_state(), path@).m,
            final(self).edge_state() == edge_obs(old(self).edge_state(), path@).m,
            final(self).block_total() == old(self).block_total() + path@.len(),
            final(self).edge_total() == old(self).edge_total() + path@.len(),
            ({
                let fs = run(old(self).cfg_state(), path@, 2, init_state());
                let ao = apply_recs(old(self).cov_state(), fs.recs);
                &&& final(self).cov_state() == ao.m
                &&& final(self).path_total() == old(self).path_total() + ao.added
                &&& (r is Ok <==> fs.ok)
                &&& (r matches Ok(fb) ==> fb == pfp_feedback(
                    old(self).block_state(),
                    old(self).edge_state(),
                    old(self).cov_state(),
                    old(self).cfg_state(),
                    path@,
                ))
                &&& (r is Err ==> r matches Err(FuzzerError::InvalidCoverage(_)))
            }),
    {
        let block_fb = self.block_cov.update_from_path(path);
        let edge_fb = self.edge_cov.update_from_path(path);
        let reduced = self.reduce_fun(path);
        let any_new = match reduced {
            Ok(fresh) => fresh,
            Err(e) => {
                return Err(e);
            },
        };
        if block_fb.new_cov() {
            Ok(block_fb)
        } else if edge_fb.new_cov() {
            Ok(edge_fb)
        } else {
            let eu = edge_fb.get_edge_uniqueness();
            if any_new {
                Ok(CoverageFeedback::NewPath { uniqueness: eu })
            } else {
                Ok(CoverageFeedback::NoCoverage(eu))
            }
        }
    }

    /// Total number of distinct reduced per-function paths recorded.
    pub fn cov_info(&self) -> (r: usize)
        ensures
            r == self.path_total(),
    {
        self.coverage.count()
    }

    /// Name of the metric. This is the name the configuration surface
    /// accepts for `use_coverage`, so the queue projection can match the
    /// metric's feedback.
    pub fn name(&self) -> (r: &'static str)
        ensures
            r@ == "path"@,
    {
        "path"
    }

    /// Static priority seed of the metric.
    pub fn priority(&self) -> (r: usize)
        ensures
            r == 20,
    {
        20
    }
}

} // verus!
