//! Edge coverage: a hit count per (source, destination) pair of adjacent
//! blocks in a trace. A trace yields `NewEdge` exactly when it contains a
//! pair never seen before; uniqueness is the minimum post-update count over
//! the pairs it contains.
use vstd::prelude::*;

use crate::feedback::CoverageFeedback;
use crate::store::{cnt, CountMap};

verus! {

/// The table key of one edge: source in the high 32 bits, destination in
/// the low 32 bits.
pub open spec fn edge_key(src: u32, dst: u32) -> u64 {
    (src as int * 0x1_0000_0000 + dst as int) as u64
}

/// Edge keys are distinct for distinct edges.
pub proof fn lemma_edge_key_injective(a: u32, b: u32, c: u32, d: u32)
    ensures
        edge_key(a, b) == edge_key(c, d) ==> a == c && b == d,
{
}

/// Number of occurrences of the edge with key `k` among adjacent pairs of
/// `t` starting at or after position `j`.
pub open spec fn edge_occ_from(t: Seq<u32>, j: int, k: u64) -> nat
    decreases t.len() - j,
{
    if j < 0 || j + 1 >= t.len() {
        0
    } else {
        edge_occ_from(t, j + 1, k) + (if edge_key(t[j], t[j + 1]) == k {
            1nat
        } else {
            0nat
        })
    }
}

/// The edge keys of adjacent pairs of `t` at or after position `j`.
pub open spec fn edge_keys_from(t: Seq<u32>, j: int) -> Set<u64>
    decreases t.len() - j,
{
    if j < 0 || j + 1 >= t.len() {
        Set::empty()
    } else {
        edge_keys_from(t, j + 1).insert(edge_key(t[j], t[j + 1]))
    }
}

/// Result of folding one trace's edges into a hit-count table.
pub ghost struct EdgeObs {
    pub m: Map<u64, nat>,
    pub uniq: nat,
    pub fresh: bool,
}

/// Folds the adjacent pairs of `t[j..]` into the table in order.
pub open spec fn edge_obs_from(m: Map<u64, nat>, t: Seq<u32>, j: int, uniq: nat, fresh: bool) -> EdgeObs
    decreases t.len() - j,
{
    if j < 0 || j + 1 >= t.len() {
        EdgeObs { m, uniq, fresh }
    } else {
        let k = edge_key(t[j], t[j + 1]);
        let c = cnt(m, k) + 1;
        edge_obs_from(
            m.insert(k, c),
            t,
            j + 1,
            if c < uniq {
                c
            } else {
                uniq
            },
            fresh || !m.contains_key(k),
        )
    }
}

/// Observing one whole trace.
pub open spec fn edge_obs(m: Map<u64, nat>, t: Seq<u32>) -> EdgeObs {
    edge_obs_from(m, t, 0, usize::MAX as nat, false)
}

/// The feedback edge coverage returns for trace `t` against table `m`.
pub open spec fn edge_feedback(m: Map<u64, nat>, t: Seq<u32>) -> CoverageFeedback {
    let o = edge_obs(m, t);
    if o.fresh {
        CoverageFeedback::NewEdge { uniqueness: o.uniq as usize }
    } else {
        CoverageFeedback::NoCoverage(o.uniq as usize)
    }
}

/// Characterizes the fold, as for blocks: counts grow by the suffix's edge
/// occurrences, the key set grows by the suffix's edge keys, freshness means
/// some edge key was absent.
pub proof fn lemma_edge_obs_from(m: Map<u64, nat>, t: Seq<u32>, j: int, uniq: nat, fresh: bool)
    requires
        0 <= j,
    ensures
        ({
            let o = edge_obs_from(m, t, j, uniq, fresh);
            &&& o.m.dom() == m.dom().union(edge_keys_from(t, j))
            &&& forall|k: u64| cnt(#[trigger] o.m, k) == cnt(m, k) + edge_occ_from(t, j, k)
            &&& o.fresh == (fresh || exists|p: int|
                j <= p && p + 1 < t.len() && !m.contains_key(#[trigger] edge_key(t[p], t[p + 1])))
            &&& o.uniq <= uniq
        }),
    decreases t.len() - j,
{
    if j + 1 < t.len() {
        let k0 = edge_key(t[j], t[j + 1]);
        let c0 = cnt(m, k0) + 1;
        let m1 = m.insert(k0, c0);
        let u1: nat = if c0 < uniq {
            c0
        } else {
            uniq
        };
        let f1 = fresh || !m.contains_key(k0);
        lemma_edge_obs_from(m1, t, j + 1, u1, f1);
        let o = edge_obs_from(m, t, j, uniq, fresh);
        let orec = edge_obs_from(m1, t, j + 1, u1, f1);
        assert(o == orec);
        assert(o.m.dom() =~= m.dom().union(edge_keys_from(t, j)));
        assert forall|k: u64| cnt(#[trigger] o.m, k) == cnt(m, k) + edge_occ_from(t, j, k) by {
            assert(cnt(orec.m, k) == cnt(m1, k) + edge_occ_from(t, j + 1, k));
            if k == k0 {
                assert(cnt(m1, k) == cnt(m, k) + 1);
            } else {
                assert(cnt(m1, k) == cnt(m, k));
            }
        }
        assert(o.fresh == (fresh || exists|p: int|
            j <= p && p + 1 < t.len() && !m.contains_key(#[trigger] edge_key(t[p], t[p + 1])))) by {
            if o.fresh {
                if f1 {
                    if !fresh {
                        assert(!m.contains_key(edge_key(t[j], t[j + 1])));
                    }
                } else {
                    let p = choose|p: int|
                        j + 1 <= p && p + 1 < t.len() && !m1.contains_key(
                            #[trigger] edge_key(t[p], t[p + 1]),
                        );
                    assert(!m.contains_key(edge_key(t[p], t[p + 1])));
                }
            } else {
                if !fresh && exists|p: int|
                    j <= p && p + 1 < t.len() && !m.contains_key(
                        #[trigger] edge_key(t[p], t[p + 1]),
                    ) {
                    let p = choose|p: int|
                        j <= p && p + 1 < t.len() && !m.contains_key(
                            #[trigger] edge_key(t[p], t[p + 1]),
                        );
                    if edge_key(t[p], t[p + 1]) == k0 {
                        assert(f1);
                    } else {
                        assert(!m1.contains_key(edge_key(t[p], t[p + 1])));
                        assert(p >= j + 1);
                        assert(o.fresh);
                    }
                }
            }
        }
    }
}

pub proof fn lemma_edge_occ_from_le(t: Seq<u32>, j: int, k: u64)
    requires
        0 <= j,
    ensures
        edge_occ_from(t, j, k) <= (if t.len() - 1 - j >= 0 {
            t.len() - 1 - j
        } else {
            0
        }),
    decreases t.len() - j,
{
    if j + 1 < t.len() {
        lemma_edge_occ_from_le(t, j + 1, k);
    }
}

proof fn lemma_edge_keys_from_finite(t: Seq<u32>, j: int)
    requires
        0 <= j,
    ensures
        edge_keys_from(t, j).finite(),
        edge_keys_from(t, j).len() <= (if t.len() - 1 - j >= 0 {
            t.len() - 1 - j
        } else {
            0
        }),
    decreases t.len() - j,
{
    if j + 1 < t.len() {
        lemma_edge_keys_from_finite(t, j + 1);
    }
}

/// Observing a trace adds at most `len(t) - 1` keys to the edge table.
pub proof fn lemma_edge_growth_bound(m: Map<u64, nat>, t: Seq<u32>)
    requires
        m.dom().finite(),
    ensures
        m.dom().subset_of(edge_obs(m, t).m.dom()),
        edge_obs(m, t).m.dom().finite(),
        edge_obs(m, t).m.dom().len() <= m.dom().len() + (if t.len() > 0 {
            t.len() - 1
        } else {
            0
        }),
{
    lemma_edge_obs_from(m, t, 0, usize::MAX as nat, false);
    lemma_edge_keys_from_finite(t, 0);
    vstd::set_lib::lemma_len_union(m.dom(), edge_keys_from(t, 0));
}

/// Observing the same trace twice yields no new coverage the second time.
pub proof fn lemma_edge_reobserve(m: Map<u64, nat>, t: Seq<u32>)
    ensures
        edge_feedback(edge_obs(m, t).m, t) is NoCoverage,
{
    let o = edge_obs(m, t);
    lemma_edge_obs_from(m, t, 0, usize::MAX as nat, false);
    lemma_edge_obs_from(o.m, t, 0, usize::MAX as nat, false);
    let o2 = edge_obs(o.m, t);
    assert(!o2.fresh) by {
        if exists|p: int|
            0 <= p && p + 1 < t.len() && !o.m.contains_key(#[trigger] edge_key(t[p], t[p + 1])) {
            let p = choose|p: int|
                0 <= p && p + 1 < t.len() && !o.m.contains_key(#[trigger] edge_key(t[p], t[p + 1]));
            lemma_edge_keys_contains(t, 0, p);
            assert(o.m.dom().contains(edge_key(t[p], t[p + 1])));
        }
    }
}

proof fn lemma_edge_keys_contains(t: Seq<u32>, j: int, p: int)
    requires
        0 <= j <= p,
        p + 1 < t.len(),
    ensures
        edge_keys_from(t, j).contains(edge_key(t[p], t[p + 1])),
    decreases p - j,
{
    if j < p {
        lemma_edge_keys_contains(t, j + 1, p);
    }
}

/// A faithful dump of an edge hit-count table: every triple carries the
/// count of its edge, and every covered edge occurs.
pub open spec fn edge_dump_ok(m: Map<u64, nat>, v: Seq<(u32, u32, usize)>) -> bool {
    &&& forall|i: int|
        0 <= i < v.len() ==> cnt(m, edge_key((#[trigger] v[i]).0, v[i].1)) == v[i].2 as nat
    &&& forall|k: u64|
        #[trigger] m.contains_key(k) ==> exists|i: int|
            0 <= i < v.len() && edge_key((#[trigger] v[i]).0, v[i].1) == k
}

/// The edge-coverage metric state.
pub struct EdgeCoverage {
    edges: CountMap,
    total: usize,
}

impl View for EdgeCoverage {
    type V = Map<u64, nat>;

    closed spec fn view(&self) -> Map<u64, nat> {
        self.edges@
    }
}

impl EdgeCoverage {
    pub closed spec fn total_spec(&self) -> int {
        self.total as int
    }

    /// The state is consistent: every count is bounded by the total length
    /// of the traces observed so far.
    pub closed spec fn wf(&self) -> bool {
        &&& self.edges.wf()
        &&& forall|k: u64| cnt(#[trigger] self.edges@, k) <= self.total
    }

    pub fn new() -> (r: EdgeCoverage)
        ensures
            r.wf(),
            r@ == Map::<u64, nat>::empty(),
            r.total_spec() == 0,
    {
        EdgeCoverage { edges: CountMap::new(), total: 0 }
    }

    /// Summed length of all observed traces; bounds every hit count.
    pub fn total(&self) -> (r: usize)
        ensures
            r == self.total_spec(),
    {
        self.total
    }

    /// The covered key set of a well-formed metric is finite, so the
    /// growth laws apply to it.
    pub proof fn lemma_dom_finite(&self)
        requires
            self.wf(),
        ensures
            self@.dom().finite(),
    {
        self.edges.lemma_dom();
    }

    /// Observes one trace: increments the hit count of each adjacent pair
    /// and returns `NewEdge` exactly when some pair was fresh, with the
    /// minimum post-update count as uniqueness.
    pub fn update_from_path(&mut self, path: &Vec<u32>) -> (r: CoverageFeedback)
        requires
            old(self).wf(),
            old(self).total_spec() + path@.len() <= usize::MAX,
        ensures
            final(self).wf(),
            final(self)@ == edge_obs(old(self)@, path@).m,
            final(self).total_spec() == old(self).total_spec() + path@.len(),
            r == edge_feedback(old(self)@, path@),
    {
        let ghost m0 = self.edges@;
        let n = path.len();
        let mut uniq: usize = usize::MAX;
        let mut fresh: bool = false;
        let mut j: usize = 0;
        while n >= 1 && j < n - 1
            invariant
                old(self).wf(),
                n == path@.len(),
                n >= 1 ==> j <= n - 1,
                n == 0 ==> j == 0,
                m0 == old(self)@,
                old(self).total_spec() + path@.len() <= usize::MAX,
                self.edges.wf(),
                self.total == old(self).total,
                edge_obs_from(self.edges@, path@, j as int, uniq as nat, fresh) == edge_obs(
                    m0,
                    path@,
                ),
                forall|k: u64| cnt(#[trigger] self.edges@, k) <= cnt(m0, k) + j,
            decreases n - j,
        {
            let src = *vstd::std_specs::vec::vec_index(path, j);
            let dst = *vstd::std_specs::vec::vec_index(path, j + 1);
            let k: u64 = (src as u64) * 0x1_0000_0000u64 + (dst as u64);
            proof {
                assert(k == edge_key(path@[j as int], path@[j as int + 1]));
                assert(cnt(self.edges@, k) <= cnt(m0, k) + j);
                assert(cnt(m0, k) <= old(self).total as nat);
            }
            let ghost mcur = self.edges@;
            let (c, was_new) = self.edges.bump(k);
            if was_new {
                fresh = true;
            }
            if c < uniq {
                uniq = c;
            }
            proof {
                assert forall|kk: u64| cnt(#[trigger] self.edges@, kk) <= cnt(m0, kk) + j + 1 by {
                    if kk == k {
                        assert(cnt(self.edges@, kk) == cnt(mcur, kk) + 1);
                    } else {
                        assert(cnt(self.edges@, kk) == cnt(mcur, kk));
                    }
                }
            }
            j = j + 1;
        }
        self.total = self.total + n;
        let ghost o = edge_obs(m0, path@);
        proof {
            lemma_edge_obs_from(m0, path@, 0, usize::MAX as nat, false);
            assert(self.edges@ == o.m);
            assert(uniq as nat == o.uniq && fresh == o.fresh);
            assert forall|k: u64| cnt(#[trigger] self.edges@, k) <= self.total as nat by {
                assert(cnt(o.m, k) == cnt(m0, k) + edge_occ_from(path@, 0, k));
                lemma_edge_occ_from_le(path@, 0, k);
                assert(cnt(m0, k) <= old(self).total as nat);
            }
        }
        if fresh {
            CoverageFeedback::NewEdge { uniqueness: uniq }
        } else {
            CoverageFeedback::NoCoverage(uniq)
        }
    }

    /// Number of distinct edges covered so far.
    pub fn cov_info(&self) -> (r: usize)
        requires
            self.wf(),
        ensures
            r == self@.dom().len(),
    {
        self.edges.num_keys()
    }

    /// The full table as source/destination/count triples.
    pub fn full_cov(&self) -> (r: Vec<(u32, u32, usize)>)
        requires
            self.wf(),
        ensures
            edge_dump_ok(self@, r@),
    {
        let entries = self.edges.entries();
        let n = entries.len();
        let mut r: Vec<(u32, u32, usize)> = Vec::new();
        let mut i: usize = 0;
        while i < n
            invariant
                self.wf(),
                n == entries@.len(),
                i <= n,
                forall|j: int|
                    0 <= j < entries@.len() ==> self@.contains_key((#[trigger] entries@[j]).0)
                        && self@[entries@[j].0] == entries@[j].1 as nat,
                r@.len() == i,
                forall|j: int| 0 <= j < i ==> edge_key((#[trigger] r@[j]).0, r@[j].1) == entries@[j].0
                    && r@[j].2 == entries@[j].1,
            decreases n - i,
        {
            let (k, c) = *vstd::std_specs::vec::vec_index(entries, i);
            let src: u32 = (k >> 32u64) as u32;
            let dst: u32 = (k & 0xffff_ffffu64) as u32;
            proof {
                assert((src as u64) * 0x1_0000_0000u64 + (dst as u64) == k) by (bit_vector)
                    requires
                        src == (k >> 32u64) as u32,
                        dst == (k & 0xffff_ffffu64) as u32,
                ;
            }
            r.push((src, dst, c));
            i = i + 1;
        }
        proof {
            assert forall|k: u64| #[trigger] self@.contains_key(k) implies exists|i: int|
                0 <= i < r@.len() && edge_key((#[trigger] r@[i]).0, r@[i].1) == k by {
                let j = choose|j: int| 0 <= j < entries@.len() && (#[trigger] entries@[j]).0 == k;
                assert(edge_key(r@[j].0, r@[j].1) == k);
            }
        }
        r
    }

    /// Name of the metric.
    pub fn name(&self) -> (r: &'static str)
        ensures
            r@ == "edge"@,
    {
        "edge"
    }

    /// Static priority seed of the metric.
    pub fn priority(&self) -> (r: usize)
        ensures
            r == 90,
    {
        90
    }
}

} // verus!
