//! Block coverage: a hit count per basic block. A trace yields `NewBlock`
//! exactly when it touches a block never seen before; its uniqueness is the
//! minimum post-update hit count over the blocks it touched.
use vstd::prelude::*;

use crate::feedback::CoverageFeedback;
use crate::store::{cnt, CountMap};

verus! {

/// Number of occurrences of `b` in `t` at or after index `i`.
pub open spec fn occ_from(t: Seq<u32>, i: int, b: u32) -> nat
    decreases t.len() - i,
{
    if i < 0 || i >= t.len() {
        0
    } else {
        occ_from(t, i + 1, b) + (if t[i] == b {
            1nat
        } else {
            0nat
        })
    }
}

/// Number of occurrences of `b` in `t`.
pub open spec fn occ(t: Seq<u32>, b: u32) -> nat {
    occ_from(t, 0, b)
}

/// Number of occurrences of `b` over a history of traces.
pub open spec fn occ_total(ts: Seq<Seq<u32>>, b: u32) -> nat
    decreases ts.len(),
{
    if ts.len() == 0 {
        0
    } else {
        occ_total(ts.drop_last(), b) + occ(ts.last(), b)
    }
}

/// Total length of a history of traces.
pub open spec fn total_len(ts: Seq<Seq<u32>>) -> nat
    decreases ts.len(),
{
    if ts.len() == 0 {
        0
    } else {
        total_len(ts.drop_last()) + ts.last().len()
    }
}

/// The table keys touched by `t` at or after index `i`.
pub open spec fn block_keys_from(t: Seq<u32>, i: int) -> Set<u64>
    decreases t.len() - i,
{
    if i < 0 || i >= t.len() {
        Set::empty()
    } else {
        block_keys_from(t, i + 1).insert(t[i] as u64)
    }
}

/// Result of folding one trace into a hit-count table.
pub ghost struct BlockObs {
    /// The updated table.
    pub m: Map<u64, nat>,
    /// Minimum post-update count over the trace, `usize::MAX` for an empty trace.
    pub uniq: nat,
    /// Whether some block was seen for the first time.
    pub fresh: bool,
}

/// Folds `t[i..]` into the table: each block's count is incremented in order,
/// `uniq` tracks the least count right after each increment, and `fresh`
/// records whether any block was absent when reached.
pub open spec fn block_obs_from(m: Map<u64, nat>, t: Seq<u32>, i: int, uniq: nat, fresh: bool) -> BlockObs
    decreases t.len() - i,
{
    if i < 0 || i >= t.len() {
        BlockObs { m, uniq, fresh }
    } else {
        let k = t[i] as u64;
        let c = cnt(m, k) + 1;
        block_obs_from(
            m.insert(k, c),
            t,
            i + 1,
            if c < uniq {
                c
            } else {
                uniq
            },
            fresh || !m.contains_key(k),
        )
    }
}

/// Observing one whole trace.
pub open spec fn block_obs(m: Map<u64, nat>, t: Seq<u32>) -> BlockObs {
    block_obs_from(m, t, 0, usize::MAX as nat, false)
}

/// The feedback block coverage returns for trace `t` against table `m`.
pub open spec fn block_feedback(m: Map<u64, nat>, t: Seq<u32>) -> CoverageFeedback {
    let o = block_obs(m, t);
    if o.fresh {
        CoverageFeedback::NewBlock { uniqueness: o.uniq as usize }
    } else {
        CoverageFeedback::NoCoverage(o.uniq as usize)
    }
}

/// Characterizes the fold: the new table is the old one with the suffix's
/// keys bumped by their occurrence counts, freshness means some key of the
/// suffix was absent, and the uniqueness only shrinks.
pub proof fn lemma_block_obs_from(m: Map<u64, nat>, t: Seq<u32>, i: int, uniq: nat, fresh: bool)
    requires
        0 <= i <= t.len(),
    ensures
        ({
            let o = block_obs_from(m, t, i, uniq, fresh);
            &&& o.m.dom() == m.dom().union(block_keys_from(t, i))
            &&& forall|b: u32| cnt(#[trigger] o.m, b as u64) == cnt(m, b as u64) + occ_from(t, i, b)
            &&& forall|k: u64| k > u32::MAX ==> cnt(#[trigger] o.m, k) == cnt(m, k)
            &&& o.fresh == (fresh || exists|j: int|
                i <= j < t.len() && !m.contains_key((#[trigger] t[j]) as u64))
            &&& o.uniq <= uniq
        }),
    decreases t.len() - i,
{
    if i < t.len() {
        let k0 = t[i] as u64;
        let c0 = cnt(m, k0) + 1;
        let m1 = m.insert(k0, c0);
        let u1: nat = if c0 < uniq {
            c0
        } else {
            uniq
        };
        let f1 = fresh || !m.contains_key(k0);
        lemma_block_obs_from(m1, t, i + 1, u1, f1);
        let o = block_obs_from(m, t, i, uniq, fresh);
        assert(o == block_obs_from(m1, t, i + 1, u1, f1));
        assert(o.m.dom() =~= m.dom().union(block_keys_from(t, i)));
        assert forall|k: u64| k > u32::MAX implies cnt(#[trigger] o.m, k) == cnt(m, k) by {
            let orec = block_obs_from(m1, t, i + 1, u1, f1);
            assert(cnt(orec.m, k) == cnt(m1, k));
            assert(k != k0);
        }
        assert forall|b: u32| cnt(#[trigger] o.m, b as u64) == cnt(m, b as u64) + occ_from(t, i, b) by {
            let orec = block_obs_from(m1, t, i + 1, u1, f1);
            assert(cnt(orec.m, b as u64) == cnt(m1, b as u64) + occ_from(t, i + 1, b));
            if b as u64 == k0 {
                assert(t[i] == b);
                assert(cnt(m1, b as u64) == cnt(m, b as u64) + 1);
            } else {
                assert(t[i] != b);
                assert(cnt(m1, b as u64) == cnt(m, b as u64));
            }
        }
        assert(o.fresh == (fresh || exists|j: int|
            i <= j < t.len() && !m.contains_key((#[trigger] t[j]) as u64))) by {
            if o.fresh {
                if f1 {
                    if !fresh {
                        assert(!m.contains_key(t[i] as u64));
                    }
                } else {
                    let j = choose|j: int|
                        i + 1 <= j < t.len() && !m1.contains_key((#[trigger] t[j]) as u64);
                    assert(!m.contains_key(t[j] as u64));
                }
            } else {
                if fresh {
                } else if exists|j: int| i <= j < t.len() && !m.contains_key((#[trigger] t[j]) as u64) {
                    let j = choose|j: int|
                        i <= j < t.len() && !m.contains_key((#[trigger] t[j]) as u64);
                    if t[j] as u64 == k0 {
                        assert(f1);
                    } else {
                        assert(!m1.contains_key(t[j] as u64));
                        assert(j >= i + 1);
                        assert(o.fresh);
                    }
                }
            }
        }
    }
}

/// A block occurs at most as often as the suffix is long.
pub proof fn lemma_occ_from_le(t: Seq<u32>, i: int, b: u32)
    requires
        0 <= i <= t.len(),
    ensures
        occ_from(t, i, b) <= t.len() - i,
    decreases t.len() - i,
{
    if i < t.len() {
        lemma_occ_from_le(t, i + 1, b);
    }
}

/// An occurrence total is bounded by the total length of the history.
pub proof fn lemma_occ_total_le(ts: Seq<Seq<u32>>, b: u32)
    ensures
        occ_total(ts, b) <= total_len(ts),
    decreases ts.len(),
{
    if ts.len() > 0 {
        lemma_occ_total_le(ts.drop_last(), b);
        lemma_occ_from_le(ts.last(), 0, b);
    }
}

proof fn lemma_block_keys_from_finite(t: Seq<u32>, i: int)
    requires
        0 <= i <= t.len(),
    ensures
        block_keys_from(t, i).finite(),
        block_keys_from(t, i).len() <= t.len() - i,
        forall|k: u64| block_keys_from(t, i).contains(k) ==> k <= u32::MAX,
    decreases t.len() - i,
{
    if i < t.len() {
        lemma_block_keys_from_finite(t, i + 1);
    }
}

/// Observing a trace never removes a key from the table: the key set grows
/// or stays equal.
pub proof fn lemma_block_keys_monotonic(m: Map<u64, nat>, t: Seq<u32>)
    requires
        m.dom().finite(),
    ensures
        m.dom().subset_of(block_obs(m, t).m.dom()),
        block_obs(m, t).m.dom().finite(),
        block_obs(m, t).m.dom().len() >= m.dom().len(),
{
    lemma_block_obs_from(m, t, 0, usize::MAX as nat, false);
    lemma_block_keys_from_finite(t, 0);
    vstd::set_lib::lemma_len_subset(m.dom(), block_obs(m, t).m.dom());
}

/// Observing the same trace twice yields no new coverage the second time.
pub proof fn lemma_block_reobserve(m: Map<u64, nat>, t: Seq<u32>)
    ensures
        block_feedback(block_obs(m, t).m, t) is NoCoverage,
{
    let o = block_obs(m, t);
    lemma_block_obs_from(m, t, 0, usize::MAX as nat, false);
    lemma_block_obs_from(o.m, t, 0, usize::MAX as nat, false);
    let o2 = block_obs(o.m, t);
    assert(!o2.fresh) by {
        if exists|j: int| 0 <= j < t.len() && !o.m.contains_key((#[trigger] t[j]) as u64) {
            let j = choose|j: int| 0 <= j < t.len() && !o.m.contains_key((#[trigger] t[j]) as u64);
            assert(block_keys_from(t, 0).contains(t[j] as u64)) by {
                lemma_block_keys_contains(t, 0, j);
            }
            assert(o.m.dom().contains(t[j] as u64));
        }
    }
}

proof fn lemma_block_keys_contains(t: Seq<u32>, i: int, j: int)
    requires
        0 <= i <= j < t.len(),
    ensures
        block_keys_from(t, i).contains(t[j] as u64),
    decreases j - i,
{
    if i < j {
        lemma_block_keys_contains(t, i + 1, j);
    }
}

/// A faithful dump of a block hit-count table: every pair is a binding of
/// the table, no block occurs twice, and every covered block occurs.
pub open spec fn block_dump_ok(m: Map<u64, nat>, v: Seq<(u32, usize)>) -> bool {
    &&& forall|i: int| 0 <= i < v.len() ==> cnt(m, (#[trigger] v[i]).0 as u64) == v[i].1 as nat
    &&& forall|i: int, j: int| 0 <= i < j < v.len() ==> (#[trigger] v[i]).0 != (#[trigger] v[j]).0
    &&& forall|b: u32|
        #[trigger] m.contains_key(b as u64) ==> exists|i: int| 0 <= i < v.len() && (#[trigger] v[i]).0 == b
}

/// The block-coverage metric state.
pub struct BlockCoverage {
    blocks: CountMap,
    total: usize,
    history: Ghost<Seq<Seq<u32>>>,
}

impl View for BlockCoverage {
    type V = Map<u64, nat>;

    closed spec fn view(&self) -> Map<u64, nat> {
        self.blocks@
    }
}

impl BlockCoverage {
    /// The traces observed so far, in order.
    pub closed spec fn observed(&self) -> Seq<Seq<u32>> {
        self.history@
    }

    pub closed spec fn total_spec(&self) -> int {
        self.total as int
    }

    /// Hit count of one block.
    pub open spec fn hits(&self, b: u32) -> nat {
        cnt(self@, b as u64)
    }

    /// The state is consistent: every block's hit count equals the number of
    /// its occurrences across all observed traces, and `total` is the summed
    /// length of the history.
    pub closed spec fn wf(&self) -> bool {
        &&& self.blocks.wf()
        &&& self.total as nat == total_len(self.history@)
        &&& forall|k: u64| self.blocks@.contains_key(k) ==> k <= u32::MAX
        &&& forall|b: u32| cnt(self.blocks@, b as u64) == #[trigger] occ_total(self.history@, b)
    }

    pub fn new() -> (r: BlockCoverage)
        ensures
            r.wf(),
            r@ == Map::<u64, nat>::empty(),
            r.observed() == Seq::<Seq<u32>>::empty(),
            r.total_spec() == 0,
    {
        BlockCoverage { blocks: CountMap::new(), total: 0, history: Ghost(Seq::empty()) }
    }

    /// Summed length of all observed traces; bounds every hit count.
    pub fn total(&self) -> (r: usize)
        ensures
            r == self.total_spec(),
    {
        self.total
    }

    /// The covered key set of a well-formed metric is finite, so the
    /// growth laws apply to it.
    pub proof fn lemma_dom_finite(&self)
        requires
            self.wf(),
        ensures
            self@.dom().finite(),
    {
        self.blocks.lemma_dom();
    }

    /// After any sequence of observations, each block's hit count equals the
    /// number of times the block appears across all observed traces.
    pub proof fn lemma_hit_counts(&self, b: u32)
        requires
            self.wf(),
        ensures
            self.hits(b) == occ_total(self.observed(), b),
    {
    }

    /// Observes one trace: increments each touched block's hit count and
    /// returns `NewBlock` exactly when some block was fresh, with the
    /// minimum post-update count as uniqueness.
    pub fn update_from_path(&mut self, path: &Vec<u32>) -> (r: CoverageFeedback)
        requires
            old(self).wf(),
            old(self).total_spec() + path@.len() <= usize::MAX,
        ensures
            final(self).wf(),
            final(self)@ == block_obs(old(self)@, path@).m,
            final(self).observed() == old(self).observed().push(path@),
            final(self).total_spec() == old(self).total_spec() + path@.len(),
            r == block_feedback(old(self)@, path@),
    {
        let ghost m0 = self.blocks@;
        let n = path.len();
        let mut uniq: usize = usize::MAX;
        let mut fresh: bool = false;
        let mut i: usize = 0;
        while i < n
            invariant
                old(self).wf(),
                n == path@.len(),
                i <= n,
                m0 == old(self)@,
                old(self).total_spec() + path@.len() <= usize::MAX,
                self.blocks.wf(),
                self.total == old(self).total,
                self.history == old(self).history,
                block_obs_from(self.blocks@, path@, i as int, uniq as nat, fresh) == block_obs(
                    m0,
                    path@,
                ),
                forall|k: u64| cnt(#[trigger] self.blocks@, k) <= cnt(m0, k) + i,
            decreases n - i,
        {
            let b = *vstd::std_specs::vec::vec_index(path, i);
            let ghost mcur = self.blocks@;
            proof {
                assert(cnt(mcur, b as u64) <= cnt(m0, b as u64) + i);
                assert(cnt(m0, b as u64) == occ_total(old(self).history@, b));
                lemma_occ_total_le(old(self).history@, b);
                assert(cnt(m0, b as u64) <= old(self).total as nat);
            }
            let (c, was_new) = self.blocks.bump(b as u64);
            if was_new {
                fresh = true;
            }
            if c < uniq {
                uniq = c;
            }
            proof {
                assert forall|k: u64| cnt(#[trigger] self.blocks@, k) <= cnt(m0, k) + i + 1 by {
                    if k == b as u64 {
                        assert(cnt(self.blocks@, k) == cnt(mcur, k) + 1);
                    } else {
                        assert(cnt(self.blocks@, k) == cnt(mcur, k));
                    }
                }
            }
            i = i + 1;
        }
        proof {
            self.history@ = self.history@.push(path@);
        }
        self.total = self.total + n;
        let ghost o = block_obs(m0, path@);
        proof {
            lemma_block_obs_from(m0, path@, 0, usize::MAX as nat, false);
            assert(self.blocks@ == o.m);
            assert(uniq as nat == o.uniq && fresh == o.fresh);
            assert(final(self).wf()) by {
                assert(self.history@.drop_last() =~= old(self).history@);
                assert(self.history@.last() == path@);
                assert forall|b: u32| cnt(self.blocks@, b as u64) == #[trigger] occ_total(
                    self.history@,
                    b,
                ) by {
                    assert(cnt(o.m, b as u64) == cnt(m0, b as u64) + occ_from(path@, 0, b));
                    assert(cnt(m0, b as u64) == occ_total(old(self).history@, b));
                    assert(occ_total(self.history@, b) == occ_total(old(self).history@, b) + occ(
                        path@,
                        b,
                    ));
                }
                assert forall|k: u64| self.blocks@.contains_key(k) implies k <= u32::MAX by {
                    lemma_block_keys_from_finite(path@, 0);
                    assert(o.m.dom() == m0.dom().union(block_keys_from(path@, 0)));
                }
            }
        }
        if fresh {
            CoverageFeedback::NewBlock { uniqueness: uniq }
        } else {
            CoverageFeedback::NoCoverage(uniq)
        }
    }

    /// Number of distinct blocks covered so far.
    pub fn cov_info(&self) -> (r: usize)
        requires
            self.wf(),
        ensures
            r == self@.dom().len(),
    {
        self.blocks.num_keys()
    }

    /// The full table as block/count pairs, one pair per covered block.
    pub fn full_cov(&self) -> (r: Vec<(u32, usize)>)
        requires
            self.wf(),
        ensures
            block_dump_ok(self@, r@),
    {
        let entries = self.blocks.entries();
        let n = entries.len();
        let mut r: Vec<(u32, usize)> = Vec::new();
        let mut i: usize = 0;
        while i < n
            invariant
                self.wf(),
                n == entries@.len(),
                i <= n,
                crate::store::distinct_keys(entries@),
                forall|j: int|
                    0 <= j < entries@.len() ==> self@.contains_key((#[trigger] entries@[j]).0)
                        && self@[entries@[j].0] == entries@[j].1 as nat,
                r@.len() == i,
                forall|j: int| 0 <= j < i ==> (#[trigger] r@[j]).0 as u64 == entries@[j].0
                    && r@[j].1 == entries@[j].1,
            decreases n - i,
        {
            let (k, c) = *vstd::std_specs::vec::vec_index(entries, i);
            proof {
                assert(self@.contains_key(entries@[i as int].0));
                assert(entries@[i as int].0 <= u32::MAX);
            }
            r.push(((k as u32), c));
            i = i + 1;
        }
        proof {
            assert forall|b: u32| #[trigger] self@.contains_key(b as u64) implies exists|i: int|
                0 <= i < r@.len() && (#[trigger] r@[i]).0 == b by {
                let j = choose|j: int| 0 <= j < entries@.len() && (#[trigger] entries@[j]).0 == b as u64;
                assert(r@[j].0 as u64 == b as u64);
                assert(r@[j].0 == b);
            }
        }
        r
    }

    /// Name of the metric.
    pub fn name(&self) -> (r: &'static str)
        ensures
            r@ == "block"@,
    {
        "block"
    }

    /// Static priority seed of the metric.
    pub fn priority(&self) -> (r: usize)
        ensures
            r == 100,
    {
        100
    }
}

} // verus!
