//! Structured result of observing one trace under one coverage metric, and
//! the total order over those results that drives the fuzzing queue.
use vstd::prelude::*;

use crate::numtext::{
    dec_seq, dec_value_or_zero, find_char, find_char_from, lemma_find_char_from, parse_dec_or_zero,
    str_eq,
};

verus! {

/// Feedback from one metric for one observed trace.
///
/// `uniqueness` is the minimum post-update hit count across the blocks (or
/// edges) the trace touched: a rarity score, lower means rarer. `Old` wraps
/// the feedback of a queue item re-hydrated from disk.
#[derive(Debug, PartialEq, Eq)]
pub enum CoverageFeedback {
    NewBlock { uniqueness: usize },
    NewEdge { uniqueness: usize },
    NewPath { uniqueness: usize },
    NoCoverage(usize),
    Old(Box<CoverageFeedback>),
}

/// Three-way comparison of two integers.
pub open spec fn int_cmp(a: int, b: int) -> core::cmp::Ordering {
    if a < b {
        core::cmp::Ordering::Less
    } else if a == b {
        core::cmp::Ordering::Equal
    } else {
        core::cmp::Ordering::Greater
    }
}

impl CoverageFeedback {
    /// Rank of the variant: `NewBlock > NewEdge > NewPath > NoCoverage > Old`.
    pub open spec fn rank(self) -> int {
        match self {
            CoverageFeedback::NewBlock { .. } => 5,
            CoverageFeedback::NewEdge { .. } => 4,
            CoverageFeedback::NewPath { .. } => 3,
            CoverageFeedback::NoCoverage(_) => 2,
            CoverageFeedback::Old(_) => 1,
        }
    }

    /// The uniqueness score carried by a non-`Old` variant.
    pub open spec fn uniq(self) -> int {
        match self {
            CoverageFeedback::NewBlock { uniqueness } => uniqueness as int,
            CoverageFeedback::NewEdge { uniqueness } => uniqueness as int,
            CoverageFeedback::NewPath { uniqueness } => uniqueness as int,
            CoverageFeedback::NoCoverage(u) => u as int,
            CoverageFeedback::Old(_) => 0,
        }
    }

    /// The total order on feedback: bucket by variant rank; within a bucket
    /// a lower uniqueness is the greater feedback (rarer wins); `Old`
    /// compares by its inner feedback under the same rules.
    pub open spec fn cmp_spec(self, other: Self) -> core::cmp::Ordering
        decreases self,
    {
        match (self, other) {
            (CoverageFeedback::Old(a), CoverageFeedback::Old(b)) => (*a).cmp_spec(*b),
            _ => {
                if self.rank() != other.rank() {
                    int_cmp(self.rank(), other.rank())
                } else {
                    int_cmp(other.uniq(), self.uniq())
                }
            },
        }
    }

    /// `self` is less than or equal to `other` in the feedback order.
    pub open spec fn le_spec(self, other: Self) -> bool {
        self.cmp_spec(other) != core::cmp::Ordering::Greater
    }

    /// Three-way comparison in the feedback order.
    pub fn cmp(&self, other: &CoverageFeedback) -> (r: core::cmp::Ordering)
        ensures
            r == self.cmp_spec(*other),
        decreases *self,
    {
        match (self, other) {
            (CoverageFeedback::Old(a), CoverageFeedback::Old(b)) => a.cmp(b),
            _ => {
                let ra = self.priority();
                let rb = other.priority();
                if ra < rb {
                    core::cmp::Ordering::Less
                } else if ra > rb {
                    core::cmp::Ordering::Greater
                } else {
                    let ua = self.uniq_value();
                    let ub = other.uniq_value();
                    if ub < ua {
                        core::cmp::Ordering::Less
                    } else if ub == ua {
                        core::cmp::Ordering::Equal
                    } else {
                        core::cmp::Ordering::Greater
                    }
                }
            },
        }
    }

    /// The rank of the variant, used as the queue priority at enqueue time.
    pub fn priority(&self) -> (r: usize)
        ensures
            r as int == self.rank(),
    {
        match self {
            CoverageFeedback::NewBlock { .. } => 5,
            CoverageFeedback::NewEdge { .. } => 4,
            CoverageFeedback::NewPath { .. } => 3,
            CoverageFeedback::NoCoverage(_) => 2,
            CoverageFeedback::Old(_) => 1,
        }
    }

    /// The uniqueness field of a non-`Old` variant, 0 for `Old`.
    fn uniq_value(&self) -> (r: usize)
        ensures
            r as int == self.uniq(),
    {
        match self {
            CoverageFeedback::NewBlock { uniqueness } => *uniqueness,
            CoverageFeedback::NewEdge { uniqueness } => *uniqueness,
            CoverageFeedback::NewPath { uniqueness } => *uniqueness,
            CoverageFeedback::NoCoverage(u) => *u,
            CoverageFeedback::Old(_) => 0,
        }
    }

    /// Whether this feedback reports any new coverage.
    pub fn new_cov(&self) -> (r: bool)
        ensures
            r == self.is_new_cov(),
    {
        match self {
            CoverageFeedback::NewBlock { .. } => true,
            CoverageFeedback::NewEdge { .. } => true,
            CoverageFeedback::NewPath { .. } => true,
            _ => false,
        }
    }

    pub open spec fn is_new_cov(self) -> bool {
        self is NewBlock || self is NewEdge || self is NewPath
    }

    /// The block-metric uniqueness of this feedback; defined only for
    /// `NewBlock` and `NoCoverage`.
    pub fn get_block_uniqueness(&self) -> (r: usize)
        requires
            self is NewBlock || self is NoCoverage,
        ensures
            r as int == self.uniq(),
    {
        match self {
            CoverageFeedback::NewBlock { uniqueness } => *uniqueness,
            CoverageFeedback::NoCoverage(u) => *u,
            _ => 0,
        }
    }

    /// The edge-metric uniqueness of this feedback; defined only for
    /// `NewEdge` and `NoCoverage`.
    pub fn get_edge_uniqueness(&self) -> (r: usize)
        requires
            self is NewEdge || self is NoCoverage,
        ensures
            r as int == self.uniq(),
    {
        match self {
            CoverageFeedback::NewEdge { uniqueness } => *uniqueness,
            CoverageFeedback::NoCoverage(u) => *u,
            _ => 0,
        }
    }
}

/// Index of the first `'_'` in a queue file name.
pub open spec fn name_sep1(s: Seq<char>) -> int {
    find_char_from(s, '_', 0)
}

/// Index of the second `'_'`.
pub open spec fn name_sep2(s: Seq<char>) -> int {
    find_char_from(s, '_', name_sep1(s) + 1)
}

/// Index of the third `'_'`, or the end of the name.
pub open spec fn name_sep3(s: Seq<char>) -> int {
    find_char_from(s, '_', name_sep2(s) + 1)
}

/// The metric field of a queue file name: between the first and second `'_'`.
pub open spec fn name_kind(s: Seq<char>) -> Seq<char> {
    s.subrange(name_sep1(s) + 1, name_sep2(s))
}

/// The uniqueness field: between the second and third `'_'` (or the end).
pub open spec fn name_uniq(s: Seq<char>) -> Seq<char> {
    s.subrange(name_sep2(s) + 1, name_sep3(s))
}

/// A queue file name that can be re-hydrated: it has at least three
/// `'_'`-separated fields and its metric field names a known metric.
pub open spec fn valid_seed_name(s: Seq<char>) -> bool {
    &&& name_sep2(s) < s.len()
    &&& (name_kind(s) == "block"@ || name_kind(s) == "edge"@ || name_kind(s) == "path"@
        || name_kind(s) == "nocov"@)
}

/// The feedback encoded by a queue file name, before wrapping in `Old`.
pub open spec fn feedback_of_seed_name(s: Seq<char>) -> CoverageFeedback {
    let u = dec_value_or_zero(name_uniq(s)) as usize;
    if name_kind(s) == "block"@ {
        CoverageFeedback::NewBlock { uniqueness: u }
    } else if name_kind(s) == "edge"@ {
        CoverageFeedback::NewEdge { uniqueness: u }
    } else if name_kind(s) == "path"@ {
        CoverageFeedback::NewPath { uniqueness: u }
    } else {
        CoverageFeedback::NoCoverage(u)
    }
}

impl CoverageFeedback {
    /// The file-name suffix that encodes this feedback for later
    /// re-hydration: the metric keyword and the uniqueness, `'_'`-separated.
    pub open spec fn seed_post_fix_spec(self) -> Seq<char> {
        match self {
            CoverageFeedback::NewBlock { uniqueness } => "block_"@ + dec_seq(uniqueness as nat),
            CoverageFeedback::NewEdge { uniqueness } => "edge_"@ + dec_seq(uniqueness as nat),
            CoverageFeedback::NewPath { uniqueness } => "path_"@ + dec_seq(uniqueness as nat),
            CoverageFeedback::NoCoverage(u) => "nocov_"@ + dec_seq(u as nat),
            CoverageFeedback::Old(_) => Seq::empty(),
        }
    }

    /// Renders the file-name suffix for this feedback; `Old` feedback is
    /// never saved and has no suffix.
    pub fn seed_post_fix(&self) -> (r: String)
        requires
            !(self is Old),
        ensures
            r@ == self.seed_post_fix_spec(),
    {
        let (prefix, u): (&'static str, usize) = match self {
            CoverageFeedback::NewBlock { uniqueness } => ("block_", *uniqueness),
            CoverageFeedback::NewEdge { uniqueness } => ("edge_", *uniqueness),
            CoverageFeedback::NewPath { uniqueness } => ("path_", *uniqueness),
            CoverageFeedback::NoCoverage(c) => ("nocov_", *c),
            CoverageFeedback::Old(_) => ("", 0),
        };
        let mut s = String::from_str(prefix);
        let digits = crate::numtext::dec_string(u);
        s.append(digits.as_str());
        s
    }

    /// Re-hydrates the feedback encoded in a queue file name, wrapped in
    /// `Old`. The uniqueness field falls back to zero when it does not parse
    /// as a decimal number.
    pub fn from_file_name(seed_file_name: &str) -> (r: CoverageFeedback)
        requires
            valid_seed_name(seed_file_name@),
        ensures
            r matches CoverageFeedback::Old(b) && *b == feedback_of_seed_name(seed_file_name@),
    {
        let n = seed_file_name.unicode_len();
        proof {
            lemma_find_char_from(seed_file_name@, '_', 0);
        }
        let i1 = find_char(seed_file_name, '_', 0);
        proof {
            lemma_find_char_from(seed_file_name@, '_', i1 as int + 1);
        }
        let i2 = find_char(seed_file_name, '_', i1 + 1);
        proof {
            lemma_find_char_from(seed_file_name@, '_', i2 as int + 1);
        }
        let i3 = find_char(seed_file_name, '_', i2 + 1);
        let kind = seed_file_name.substring_char(i1 + 1, i2);
        let uniq_str = seed_file_name.substring_char(i2 + 1, i3);
        let u = parse_dec_or_zero(uniq_str);
        let inner = if str_eq(kind, "block") {
            CoverageFeedback::NewBlock { uniqueness: u }
        } else if str_eq(kind, "edge") {
            CoverageFeedback::NewEdge { uniqueness: u }
        } else if str_eq(kind, "path") {
            CoverageFeedback::NewPath { uniqueness: u }
        } else {
            CoverageFeedback::NoCoverage(u)
        };
        CoverageFeedback::Old(Box::new(inner))
    }
}

/// The feedback order is total: reflexive, antisymmetric, transitive, and
/// any two feedback values are comparable.
pub proof fn lemma_feedback_total_order(a: CoverageFeedback, b: CoverageFeedback, c: CoverageFeedback)
    ensures
        a.le_spec(a),
        a.le_spec(b) && b.le_spec(a) ==> a == b,
        a.le_spec(b) && b.le_spec(c) ==> a.le_spec(c),
        a.le_spec(b) || b.le_spec(a),
    decreases a,
{
    match (a, b, c) {
        (CoverageFeedback::Old(ia), CoverageFeedback::Old(ib), CoverageFeedback::Old(ic)) => {
            lemma_feedback_total_order(*ia, *ib, *ic);
        },
        (CoverageFeedback::Old(ia), CoverageFeedback::Old(ib), _) => {
            lemma_feedback_total_order(*ia, *ib, *ia);
        },
        (CoverageFeedback::Old(ia), _, _) => {
            lemma_feedback_total_order(*ia, *ia, *ia);
        },
        _ => {},
    }
}

} // verus!
