//! Decision state of the fuzzing loop: the priority queue of test cases,
//! queue and crash file names, crash deduplication, session statistics,
//! and validation of the target command line.
use vstd::prelude::*;

use crate::error::FuzzerError;
use crate::numtext::{dec_seq, dec_seq_padded, dec_string, dec_string_padded, str_eq};
use crate::store::IdSet;

verus! {

/// A pending test case: a queue file name and its priority.
#[derive(Debug, PartialEq, Eq, Clone)]
pub struct TestCase {
    pub filename: String,
    pub priority: usize,
}

/// The pending test cases, popped highest priority first. Ties are broken
/// arbitrarily.
pub struct TestCaseQueue {
    items: Vec<TestCase>,
}

impl View for TestCaseQueue {
    type V = Seq<TestCase>;

    closed spec fn view(&self) -> Seq<TestCase> {
        self.items@
    }
}

impl TestCaseQueue {
    pub fn new() -> (r: TestCaseQueue)
        ensures
            r@ == Seq::<TestCase>::empty(),
    {
        TestCaseQueue { items: Vec::new() }
    }

    pub fn len(&self) -> (r: usize)
        ensures
            r == self@.len(),
    {
        self.items.len()
    }

    pub fn push(&mut self, tc: TestCase)
        ensures
            final(self)@ == old(self)@.push(tc),
    {
        self.items.push(tc);
    }

    /// Removes and returns a test case of maximal priority, or `None` when
    /// the queue is empty.
    pub fn pop(&mut self) -> (r: Option<TestCase>)
        ensures
            old(self)@.len() == 0 ==> r is None && final(self)@ == old(self)@,
            old(self)@.len() > 0 ==> match r {
                Some(tc) => {
                    &&& exists|p: int|
                        0 <= p < old(self)@.len() && old(self)@[p] == tc && final(self)@
                            == old(self)@.remove(p)
                    &&& forall|j: int| 0 <= j < old(self)@.len() ==> (#[trigger] old(self)@[j]).priority
                        <= tc.priority
                },
                None => false,
            },
    {
        let n = self.items.len();
        if n == 0 {
            return None;
        }
        let mut best: usize = 0;
        let mut i: usize = 1;
        while i < n
            invariant
                *self == *old(self),
                n == self.items@.len(),
                best < i <= n,
                forall|j: int| 0 <= j < i ==> (#[trigger] self.items@[j]).priority
                    <= self.items@[best as int].priority,
            decreases n - i,
        {
            let better = vstd::std_specs::vec::vec_index(&self.items, i).priority
                > vstd::std_specs::vec::vec_index(&self.items, best).priority;
            if better {
                best = i;
            }
            i = i + 1;
        }
        let tc = self.items.remove(best);
        Some(tc)
    }
}

/// Session statistics; the caller supplies the clock as milliseconds.
pub struct Stats {
    pub total_executions: usize,
    pub new_coverage_count: usize,
    pub crash_count: usize,
    pub start_ms: Option<u64>,
    pub last_status_ms: Option<u64>,
    pub last_log_ms: Option<u64>,
    pub level: usize,
}

/// Milliseconds between state logs.
pub const LOG_INTERVAL_MS: u64 = 30000;

impl Stats {
    /// Fresh statistics at the given time: the session starts now, state
    /// was last logged now, and no status was printed yet.
    pub fn new(now_ms: u64) -> (r: Stats)
        ensures
            r.total_executions == 0,
            r.new_coverage_count == 0,
            r.crash_count == 0,
            r.start_ms == Some(now_ms),
            r.last_status_ms is None,
            r.last_log_ms == Some(now_ms),
            r.level == 0,
    {
        Stats {
            total_executions: 0,
            new_coverage_count: 0,
            crash_count: 0,
            start_ms: Some(now_ms),
            last_status_ms: None,
            last_log_ms: Some(now_ms),
            level: 0,
        }
    }

    /// Whether the status display is due: the last update lies at least a
    /// second in the past, or none was made yet.
    pub fn should_update_status(&self, now_ms: u64) -> (r: bool)
        ensures
            r == match self.last_status_ms {
                Option::None => true,
                Option::Some(t) => t + 1000 <= now_ms,
            },
    {
        match self.last_status_ms {
            Option::None => true,
            Option::Some(t) => now_ms >= t && now_ms - t >= 1000,
        }
    }

    /// Whether a state log is due: the last one lies at least the log
    /// interval in the past, or none was made yet.
    pub fn should_log_state(&self, now_ms: u64) -> (r: bool)
        ensures
            r == match self.last_log_ms {
                Option::None => true,
                Option::Some(t) => t + LOG_INTERVAL_MS <= now_ms,
            },
    {
        match self.last_log_ms {
            Option::None => true,
            Option::Some(t) => now_ms >= t && now_ms - t >= LOG_INTERVAL_MS,
        }
    }
}

/// The name under which a seed is saved: a zero-padded id, with a marker
/// when it brought new coverage.
pub open spec fn seed_name_spec(id: nat, new_coverage: bool) -> Seq<char> {
    if new_coverage {
        "id:"@ + dec_seq_padded(id, 6) + ":+cov"@
    } else {
        "id:"@ + dec_seq_padded(id, 6)
    }
}

/// The name under which a crash is saved: a zero-padded id and the signal.
pub open spec fn crash_name_spec(id: nat, signal: nat) -> Seq<char> {
    "crash:"@ + dec_seq_padded(id, 6) + ",sig:"@ + dec_seq(signal)
}

/// Hands out queue and crash file names with a monotonically increasing id.
pub struct SeedNamer {
    next_id: usize,
}

impl SeedNamer {
    pub closed spec fn next_id_spec(&self) -> int {
        self.next_id as int
    }

    pub fn new() -> (r: SeedNamer)
        ensures
            r.next_id_spec() == 0,
    {
        SeedNamer { next_id: 0 }
    }

    pub fn next_id(&self) -> (r: usize)
        ensures
            r == self.next_id_spec(),
    {
        self.next_id
    }

    /// The queue file name for the next saved input; advances the id.
    pub fn next_seed_name(&mut self, new_coverage: bool) -> (r: String)
        requires
            old(self).next_id_spec() < usize::MAX,
        ensures
            r@ == seed_name_spec(old(self).next_id_spec() as nat, new_coverage),
            final(self).next_id_spec() == old(self).next_id_spec() + 1,
    {
        let mut s = String::from_str("id:");
        let digits = dec_string_padded(self.next_id, 6);
        s.append(digits.as_str());
        if new_coverage {
            s.append(":+cov");
        }
        self.next_id = self.next_id + 1;
        s
    }

    /// The crash file name for the next saved crash; advances the id, so
    /// distinct crashes get distinct names.
    pub fn crash_name(&mut self, signal: i32) -> (r: String)
        requires
            signal >= 0,
            old(self).next_id_spec() < usize::MAX,
        ensures
            r@ == crash_name_spec(old(self).next_id_spec() as nat, signal as nat),
            final(self).next_id_spec() == old(self).next_id_spec() + 1,
    {
        let mut s = String::from_str("crash:");
        let digits = dec_string_padded(self.next_id, 6);
        s.append(digits.as_str());
        s.append(",sig:");
        let sig = dec_string(signal as usize);
        s.append(sig.as_str());
        self.next_id = self.next_id + 1;
        s
    }
}

/// Crash deduplication by the last block id of the crashing trace, a proxy
/// for the crashing program counter.
pub struct CrashTracker {
    exit_blocks: IdSet,
}

impl View for CrashTracker {
    type V = Set<u32>;

    closed spec fn view(&self) -> Set<u32> {
        self.exit_blocks@
    }
}

impl CrashTracker {
    pub closed spec fn wf(&self) -> bool {
        self.exit_blocks.wf()
    }

    pub fn new() -> (r: CrashTracker)
        ensures
            r.wf(),
            r@ == Set::<u32>::empty(),
    {
        CrashTracker { exit_blocks: IdSet::new() }
    }

    /// Records the last block of a crashing trace; true exactly when this
    /// crash site is new and the input should be saved.
    pub fn record(&mut self, last_block: u32) -> (fresh: bool)
        requires
            old(self).wf(),
        ensures
            final(self).wf(),
            final(self)@ == old(self)@.insert(last_block),
            fresh == !old(self)@.contains(last_block),
    {
        self.exit_blocks.insert(last_block)
    }
}

/// Number of input-marker arguments in a target command line.
pub open spec fn marker_count(cmd: Seq<String>, upto: int) -> nat
    decreases upto,
{
    if upto <= 0 || upto > cmd.len() {
        0
    } else {
        marker_count(cmd, upto - 1) + (if cmd[upto - 1]@ == "@@"@ {
            1nat
        } else {
            0nat
        })
    }
}

/// Validates the target command line: at most one `@@` input marker is
/// allowed; returns whether the target takes its input by file.
pub fn validate_target_cmd(cmd: &Vec<String>) -> (r: Result<bool, FuzzerError>)
    ensures
        marker_count(cmd@, cmd@.len() as int) <= 1 <==> r is Ok,
        r matches Ok(uses_file) ==> uses_file == (marker_count(cmd@, cmd@.len() as int) == 1),
        r is Err ==> r matches Err(FuzzerError::Configuration(_)),
{
    let n = cmd.len();
    let mut count: usize = 0;
    let mut i: usize = 0;
    while i < n
        invariant
            n == cmd@.len(),
            i <= n,
            count as nat == marker_count(cmd@, i as int),
            count <= i,
        decreases n - i,
    {
        if str_eq(vstd::std_specs::vec::vec_index(cmd, i).as_str(), "@@") {
            count = count + 1;
        }
        i = i + 1;
    }
    if count > 1 {
        Err(
            FuzzerError::Configuration(
                String::from_str(
                    "Multiple @@ markers found in command line. Only one marker is supported.",
                ),
            ),
        )
    } else {
        Ok(count == 1)
    }
}

} // verus!
