//! Backing stores for coverage state: a hit-count map over integer keys and
//! duplicate-free sets of identifiers and digests. All are association
//! vectors with distinct keys, viewed as mathematical maps and sets.
use vstd::prelude::*;

verus! {

/// The map denoted by an association list; a later binding of a key wins.
pub open spec fn assoc_map<V>(s: Seq<(u64, V)>) -> Map<u64, V>
    decreases s.len(),
{
    if s.len() == 0 {
        Map::empty()
    } else {
        assoc_map(s.drop_last()).insert(s.last().0, s.last().1)
    }
}

/// No key occurs twice.
pub open spec fn distinct_keys<V>(s: Seq<(u64, V)>) -> bool {
    forall|i: int, j: int| 0 <= i < j < s.len() ==> (#[trigger] s[i]).0 != (#[trigger] s[j]).0
}

pub proof fn lemma_assoc_contains<V>(s: Seq<(u64, V)>, k: u64)
    ensures
        assoc_map(s).contains_key(k) <==> exists|i: int| 0 <= i < s.len() && (#[trigger] s[i]).0 == k,
    decreases s.len(),
{
    if s.len() > 0 {
        lemma_assoc_contains(s.drop_last(), k);
        if s.last().0 == k {
            assert(s[s.len() - 1].0 == k);
        } else if assoc_map(s).contains_key(k) {
            let i = choose|i: int| 0 <= i < s.drop_last().len() && (#[trigger] s.drop_last()[i]).0 == k;
            assert(s[i].0 == k);
        } else {
            assert forall|i: int| 0 <= i < s.len() implies (#[trigger] s[i]).0 != k by {
                if i < s.len() - 1 {
                    assert(s.drop_last()[i] == s[i]);
                }
            }
        }
    }
}

pub proof fn lemma_assoc_at<V>(s: Seq<(u64, V)>, i: int)
    requires
        distinct_keys(s),
        0 <= i < s.len(),
    ensures
        assoc_map(s).contains_key(s[i].0),
        assoc_map(s)[s[i].0] == s[i].1,
    decreases s.len(),
{
    if i == s.len() - 1 {
        lemma_assoc_contains(s, s[i].0);
    } else {
        assert(s.drop_last()[i] == s[i]);
        lemma_assoc_at(s.drop_last(), i);
        assert(s.last().0 != s[i].0);
    }
}

pub proof fn lemma_assoc_dom_len<V>(s: Seq<(u64, V)>)
    requires
        distinct_keys(s),
    ensures
        assoc_map(s).dom().finite(),
        assoc_map(s).dom().len() == s.len(),
    decreases s.len(),
{
    if s.len() > 0 {
        let rest = s.drop_last();
        assert(distinct_keys(rest)) by {
            assert forall|i: int, j: int| 0 <= i < j < rest.len() implies (#[trigger] rest[i]).0 != (
            #[trigger] rest[j]).0 by {
                assert(rest[i] == s[i] && rest[j] == s[j]);
            }
        }
        lemma_assoc_dom_len(rest);
        lemma_assoc_contains(rest, s.last().0);
        assert(forall|i: int| 0 <= i < rest.len() ==> (#[trigger] rest[i]) == s[i]);
        assert(!assoc_map(rest).contains_key(s.last().0));
    }
}

pub proof fn lemma_assoc_update<V>(s: Seq<(u64, V)>, i: int, v: V)
    requires
        distinct_keys(s),
        0 <= i < s.len(),
    ensures
        assoc_map(s.update(i, (s[i].0, v))) =~= assoc_map(s).insert(s[i].0, v),
        distinct_keys(s.update(i, (s[i].0, v))),
    decreases s.len(),
{
    let k = s[i].0;
    let t = s.update(i, (k, v));
    assert(distinct_keys(t)) by {
        assert forall|p: int, q: int| 0 <= p < q < t.len() implies (#[trigger] t[p]).0 != (
        #[trigger] t[q]).0 by {
            assert(t[p].0 == s[p].0 && t[q].0 == s[q].0);
        }
    }
    if i == s.len() - 1 {
        assert(t.drop_last() =~= s.drop_last());
    } else {
        assert(t.drop_last() =~= s.drop_last().update(i, (k, v)));
        assert(distinct_keys(s.drop_last())) by {
            assert forall|p: int, q: int| 0 <= p < q < s.drop_last().len() implies (
            #[trigger] s.drop_last()[p]).0 != (#[trigger] s.drop_last()[q]).0 by {
                assert(s.drop_last()[p] == s[p] && s.drop_last()[q] == s[q]);
            }
        }
        assert(s.drop_last()[i] == s[i]);
        lemma_assoc_update(s.drop_last(), i, v);
        assert(s.last().0 != k);
        assert(t.last() == s.last());
    }
}

/// The count a map assigns to a key, zero when absent.
pub open spec fn cnt(m: Map<u64, nat>, k: u64) -> nat {
    if m.contains_key(k) {
        m[k]
    } else {
        0
    }
}

/// A hit-count table: how many times each key has been observed.
pub struct CountMap {
    entries: Vec<(u64, usize)>,
}

impl View for CountMap {
    type V = Map<u64, nat>;

    closed spec fn view(&self) -> Map<u64, nat> {
        Map::new(
            |k: u64| assoc_map(self.entries@).contains_key(k),
            |k: u64| assoc_map(self.entries@)[k] as nat,
        )
    }
}

impl CountMap {
    pub closed spec fn wf(&self) -> bool {
        distinct_keys(self.entries@)
    }

    pub fn new() -> (r: CountMap)
        ensures
            r.wf(),
            r@ == Map::<u64, nat>::empty(),
    {
        let r = CountMap { entries: Vec::new() };
        proof {
            assert(r@ =~= Map::<u64, nat>::empty());
        }
        r
    }

    /// The key set of a well-formed table is finite, with as many keys as
    /// the table reports.
    pub proof fn lemma_dom(&self)
        requires
            self.wf(),
        ensures
            self@.dom().finite(),
            self@.dom().len() == self.num_keys_spec(),
    {
        lemma_assoc_dom_len(self.entries@);
        assert(self@.dom() =~= assoc_map(self.entries@).dom());
    }

    /// Increments the count of `k` and reports the new count and whether the
    /// key was fresh.
    pub fn bump(&mut self, k: u64) -> (r: (usize, bool))
        requires
            old(self).wf(),
            cnt(old(self)@, k) < usize::MAX,
        ensures
            final(self).wf(),
            final(self)@ == old(self)@.insert(k, cnt(old(self)@, k) + 1),
            r.0 as nat == cnt(old(self)@, k) + 1,
            r.1 == !old(self)@.contains_key(k),
            final(self).num_keys_spec() == old(self).num_keys_spec() + (if r.1 {
                1int
            } else {
                0int
            }),
    {
        let n = self.entries.len();
        let ghost s0 = self.entries@;
        let mut i: usize = 0;
        while i < n
            invariant
                *self == *old(self),
                old(self).wf(),
                cnt(old(self)@, k) < usize::MAX,
                s0 == self.entries@,
                n == self.entries@.len(),
                i <= n,
                forall|j: int| 0 <= j < i ==> (#[trigger] self.entries@[j]).0 != k,
            decreases n - i,
        {
            let (key, c) = *vstd::std_specs::vec::vec_index(&self.entries, i);
            if key == k {
                proof {
                    lemma_assoc_at(s0, i as int);
                    assert(cnt(old(self)@, k) == c as nat);
                    lemma_assoc_update(s0, i as int, (c + 1) as usize);
                }
                let slot = vstd::std_specs::vec::vec_index_mut(&mut self.entries, i);
                *slot = (k, c + 1);
                proof {
                    assert(self.entries@ =~= s0.update(i as int, (k, (c + 1) as usize)));
                    assert(self@ =~= old(self)@.insert(k, cnt(old(self)@, k) + 1));
                }
                return (c + 1, false);
            }
            i = i + 1;
        }
        proof {
            lemma_assoc_contains(s0, k);
            assert(!old(self)@.contains_key(k));
        }
        self.entries.push((k, 1));
        proof {
            assert(self.entries@.drop_last() =~= s0);
            assert(self@ =~= old(self)@.insert(k, 1nat));
            assert(distinct_keys(self.entries@)) by {
                assert forall|p: int, q: int| 0 <= p < q < self.entries@.len() implies (
                #[trigger] self.entries@[p]).0 != (#[trigger] self.entries@[q]).0 by {
                    if q == self.entries@.len() - 1 {
                        assert(self.entries@[p] == s0[p]);
                    } else {
                        assert(self.entries@[p] == s0[p] && self.entries@[q] == s0[q]);
                    }
                }
            }
        }
        (1, true)
    }

    pub closed spec fn num_keys_spec(&self) -> int {
        self.entries@.len() as int
    }

    /// Number of distinct keys observed so far.
    pub fn num_keys(&self) -> (r: usize)
        requires
            self.wf(),
        ensures
            r == self.num_keys_spec(),
            r == self@.dom().len(),
    {
        proof {
            self.lemma_dom();
        }
        self.entries.len()
    }

    /// The table as key/count pairs: each pair is a binding of the map, and
    /// every key of the map occurs exactly once.
    pub fn entries(&self) -> (r: &Vec<(u64, usize)>)
        requires
            self.wf(),
        ensures
            distinct_keys(r@),
            forall|i: int|
                0 <= i < r@.len() ==> self@.contains_key((#[trigger] r@[i]).0) && self@[r@[i].0]
                    == r@[i].1 as nat,
            forall|k: u64| self@.contains_key(k) ==> exists|i: int| 0 <= i < r@.len() && (#[trigger] r@[i]).0 == k,
    {
        proof {
            assert forall|i: int| 0 <= i < self.entries@.len() implies self@.contains_key(
                (#[trigger] self.entries@[i]).0,
            ) && self@[self.entries@[i].0] == self.entries@[i].1 as nat by {
                lemma_assoc_at(self.entries@, i);
            }
            assert forall|k: u64| self@.contains_key(k) implies exists|i: int|
                0 <= i < self.entries@.len() && (#[trigger] self.entries@[i]).0 == k by {
                lemma_assoc_contains(self.entries@, k);
            }
        }
        &self.entries
    }
}

/// A duplicate-free set of 128-bit digests.
pub struct DigestSet {
    items: Vec<u128>,
}

impl View for DigestSet {
    type V = Set<u128>;

    closed spec fn view(&self) -> Set<u128> {
        self.items@.to_set()
    }
}

impl DigestSet {
    pub closed spec fn wf(&self) -> bool {
        self.items@.no_duplicates()
    }

    pub fn new() -> (r: DigestSet)
        ensures
            r.wf(),
            r@ == Set::<u128>::empty(),
    {
        let r = DigestSet { items: Vec::new() };
        proof {
            assert(r@ =~= Set::<u128>::empty());
        }
        r
    }

    proof fn lemma_card(&self)
        requires
            self.wf(),
        ensures
            self@.finite(),
            self@.len() == self.items@.len(),
    {
        self.items@.unique_seq_to_set();
    }

    /// Inserts a digest; reports whether it was absent.
    pub fn insert(&mut self, d: u128) -> (fresh: bool)
        requires
            old(self).wf(),
        ensures
            final(self).wf(),
            final(self)@ == old(self)@.insert(d),
            fresh == !old(self)@.contains(d),
            final(self)@.len() == old(self)@.len() + (if fresh {
                1int
            } else {
                0int
            }),
    {
        proof {
            self.lemma_card();
        }
        let n = self.items.len();
        let mut i: usize = 0;
        while i < n
            invariant
                *self == *old(self),
                old(self).wf(),
                n == self.items@.len(),
                i <= n,
                forall|j: int| 0 <= j < i ==> self.items@[j] != d,
            decreases n - i,
        {
            if *vstd::std_specs::vec::vec_index(&self.items, i) == d {
                proof {
                    assert(self.items@.contains(d));
                    assert(old(self)@.contains(d));
                    self.lemma_card();
                    assert(final(self)@ =~= old(self)@.insert(d));
                }
                return false;
            }
            i = i + 1;
        }
        proof {
            assert(!self.items@.contains(d));
            assert(!old(self)@.contains(d));
        }
        self.items.push(d);
        proof {
            assert(self.items@.drop_last() =~= old(self).items@);
            assert(self.items@.no_duplicates());
            assert(self@ =~= old(self)@.insert(d)) by {
                assert forall|x: u128| self@.contains(x) implies old(self)@.insert(d).contains(x) by {
                    let i = choose|i: int| 0 <= i < self.items@.len() && self.items@[i] == x;
                    if i < self.items@.len() - 1 {
                        assert(old(self).items@[i] == x);
                    }
                }
                assert forall|x: u128| old(self)@.insert(d).contains(x) implies self@.contains(x) by {
                    if x == d {
                        assert(self.items@[self.items@.len() - 1] == d);
                    } else {
                        let i = choose|i: int|
                            0 <= i < old(self).items@.len() && old(self).items@[i] == x;
                        assert(self.items@[i] == x);
                    }
                }
            }
            self.lemma_card();
        }
        true
    }

    /// Whether the set holds `d`.
    pub fn contains(&self, d: u128) -> (r: bool)
        ensures
            r == self@.contains(d),
    {
        let n = self.items.len();
        let mut i: usize = 0;
        while i < n
            invariant
                n == self.items@.len(),
                i <= n,
                forall|j: int| 0 <= j < i ==> self.items@[j] != d,
            decreases n - i,
        {
            if *vstd::std_specs::vec::vec_index(&self.items, i) == d {
                proof {
                    assert(self.items@.contains(d));
                }
                return true;
            }
            i = i + 1;
        }
        proof {
            assert(!self.items@.contains(d));
        }
        false
    }

    /// Number of digests in the set.
    pub fn len(&self) -> (r: usize)
        requires
            self.wf(),
        ensures
            r == self@.len(),
    {
        proof {
            self.lemma_card();
        }
        self.items.len()
    }
}

/// A duplicate-free set of block identifiers.
pub struct IdSet {
    items: Vec<u32>,
}

impl View for IdSet {
    type V = Set<u32>;

    closed spec fn view(&self) -> Set<u32> {
        self.items@.to_set()
    }
}

impl IdSet {
    pub closed spec fn wf(&self) -> bool {
        self.items@.no_duplicates()
    }

    pub fn new() -> (r: IdSet)
        ensures
            r.wf(),
            r@ == Set::<u32>::empty(),
    {
        let r = IdSet { items: Vec::new() };
        proof {
            assert(r@ =~= Set::<u32>::empty());
        }
        r
    }

    /// Inserts an identifier; reports whether it was absent.
    pub fn insert(&mut self, b: u32) -> (fresh: bool)
        requires
            old(self).wf(),
        ensures
            final(self).wf(),
            final(self)@ == old(self)@.insert(b),
            fresh == !old(self)@.contains(b),
    {
        let n = self.items.len();
        let mut i: usize = 0;
        while i < n
            invariant
                *self == *old(self),
                old(self).wf(),
                n == self.items@.len(),
                i <= n,
                forall|j: int| 0 <= j < i ==> self.items@[j] != b,
            decreases n - i,
        {
            if *vstd::std_specs::vec::vec_index(&self.items, i) == b {
                proof {
                    assert(self.items@.contains(b));
                    assert(final(self)@ =~= old(self)@.insert(b));
                }
                return false;
            }
            i = i + 1;
        }
        proof {
            assert(!self.items@.contains(b));
        }
        self.items.push(b);
        proof {
            assert(self.items@.drop_last() =~= old(self).items@);
            assert(self@ =~= old(self)@.insert(b)) by {
                assert forall|x: u32| self@.contains(x) implies old(self)@.insert(b).contains(x) by {
                    let i = choose|i: int| 0 <= i < self.items@.len() && self.items@[i] == x;
                    if i < self.items@.len() - 1 {
                        assert(old(self).items@[i] == x);
                    }
                }
                assert forall|x: u32| old(self)@.insert(b).contains(x) implies self@.contains(x) by {
                    if x == b {
                        assert(self.items@[self.items@.len() - 1] == b);
                    } else {
                        let i = choose|i: int|
                            0 <= i < old(self).items@.len() && old(self).items@[i] == x;
                        assert(self.items@[i] == x);
                    }
                }
            }
        }
        true
    }
}

} // verus!
