//! The control-flow index the path reducer consults: for each function,
//! keyed by its entry block id, the set of its exit block ids.
use vstd::prelude::*;

use crate::store::{distinct_keys, lemma_assoc_at, lemma_assoc_contains, lemma_assoc_update, assoc_map};

verus! {

/// Immutable map from function entry block to the function's exit blocks.
pub struct CfgIndex {
    funs: Vec<(u64, Vec<u32>)>,
}

impl View for CfgIndex {
    type V = Map<u32, Set<u32>>;

    closed spec fn view(&self) -> Map<u32, Set<u32>> {
        Map::new(
            |e: u32| assoc_map(self.funs@).contains_key(e as u64),
            |e: u32| assoc_map(self.funs@)[e as u64]@.to_set(),
        )
    }
}

impl CfgIndex {
    pub closed spec fn wf(&self) -> bool {
        &&& distinct_keys(self.funs@)
        &&& forall|i: int| 0 <= i < self.funs@.len() ==> (#[trigger] self.funs@[i]).0 <= u32::MAX
    }

    pub fn new() -> (r: CfgIndex)
        ensures
            r.wf(),
            r@ == Map::<u32, Set<u32>>::empty(),
    {
        let r = CfgIndex { funs: Vec::new() };
        proof {
            assert(r@ =~= Map::<u32, Set<u32>>::empty());
        }
        r
    }

    /// Registers one function by its entry block and exit blocks; a repeated
    /// entry replaces the earlier exit set.
    pub fn insert_function(&mut self, entry: u32, exits: Vec<u32>) -> (r: ())
        requires
            old(self).wf(),
        ensures
            final(self).wf(),
            final(self)@ == old(self)@.insert(entry, exits@.to_set()),
    {
        let n = self.funs.len();
        let ghost s0 = self.funs@;
        let mut i: usize = 0;
        while i < n
            invariant
                *self == *old(self),
                old(self).wf(),
                s0 == self.funs@,
                n == self.funs@.len(),
                i <= n,
                forall|j: int| 0 <= j < i ==> (#[trigger] self.funs@[j]).0 != entry as u64,
            decreases n - i,
        {
            let found = vstd::std_specs::vec::vec_index(&self.funs, i).0 == entry as u64;
            if found {
                proof {
                    lemma_assoc_update(s0, i as int, exits);
                }
                let slot = vstd::std_specs::vec::vec_index_mut(&mut self.funs, i);
                *slot = (entry as u64, exits);
                proof {
                    assert(self.funs@ =~= s0.update(i as int, (entry as u64, self.funs@[i as int].1)));
                    assert(self@ =~= old(self)@.insert(entry, self.funs@[i as int].1@.to_set()));
                }
                return ;
            }
            i = i + 1;
        }
        proof {
            lemma_assoc_contains(s0, entry as u64);
        }
        self.funs.push((entry as u64, exits));
        proof {
            assert(self.funs@.drop_last() =~= s0);
            assert(distinct_keys(self.funs@)) by {
                assert forall|p: int, q: int| 0 <= p < q < self.funs@.len() implies (
                #[trigger] self.funs@[p]).0 != (#[trigger] self.funs@[q]).0 by {
                    if q == self.funs@.len() - 1 {
                        assert(self.funs@[p] == s0[p]);
                    } else {
                        assert(self.funs@[p] == s0[p] && self.funs@[q] == s0[q]);
                    }
                }
            }
            assert(self@ =~= old(self)@.insert(entry, self.funs@.last().1@.to_set()));
        }
    }

    /// Whether `b` is the entry block of a known function.
    pub fn is_entry(&self, b: u32) -> (r: bool)
        requires
            self.wf(),
        ensures
            r == self@.contains_key(b),
    {
        let n = self.funs.len();
        let mut i: usize = 0;
        while i < n
            invariant
                self.wf(),
                n == self.funs@.len(),
                i <= n,
                forall|j: int| 0 <= j < i ==> (#[trigger] self.funs@[j]).0 != b as u64,
            decreases n - i,
        {
            if vstd::std_specs::vec::vec_index(&self.funs, i).0 == b as u64 {
                proof {
                    lemma_assoc_at(self.funs@, i as int);
                }
                return true;
            }
            i = i + 1;
        }
        proof {
            lemma_assoc_contains(self.funs@, b as u64);
        }
        false
    }

    /// Whether `b` is an exit block of the function entered at `entry`.
    pub fn is_exit_of(&self, entry: u32, b: u32) -> (r: bool)
        requires
            self.wf(),
            self@.contains_key(entry),
        ensures
            r == self@[entry].contains(b),
    {
        let n = self.funs.len();
        let mut i: usize = 0;
        proof {
            lemma_assoc_contains(self.funs@, entry as u64);
        }
        while i < n
            invariant
                self.wf(),
                self@.contains_key(entry),
                n == self.funs@.len(),
                i <= n,
                forall|j: int| 0 <= j < i ==> (#[trigger] self.funs@[j]).0 != entry as u64,
            decreases n - i,
        {
            if vstd::std_specs::vec::vec_index(&self.funs, i).0 == entry as u64 {
                proof {
                    lemma_assoc_at(self.funs@, i as int);
                }
                let exits = &vstd::std_specs::vec::vec_index(&self.funs, i).1;
                let m = exits.len();
                let mut j: usize = 0;
                while j < m
                    invariant
                        self.wf(),
                        self@.contains_key(entry),
                        0 <= i < self.funs@.len(),
                        self.funs@[i as int].0 == entry as u64,
                        exits == &self.funs@[i as int].1,
                        self@[entry] == exits@.to_set(),
                        m == exits@.len(),
                        j <= m,
                        forall|p: int| 0 <= p < j ==> exits@[p] != b,
                    decreases m - j,
                {
                    if *vstd::std_specs::vec::vec_index(exits, j) == b {
                        proof {
                            assert(exits@.contains(b));
                        }
                        return true;
                    }
                    j = j + 1;
                }
                proof {
                    assert(!exits@.contains(b));
                }
                return false;
            }
            i = i + 1;
        }
        proof {
            lemma_assoc_contains(self.funs@, entry as u64);
            assert(false);
        }
        false
    }
}

} // verus!
