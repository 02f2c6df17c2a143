//! The path reducer: walks a trace left to right, one stack frame per
//! function instance, collapsing loop repetitions beyond the unroll bound
//! `k` and recording one reduced buffer per completed (or truncated)
//! function instance.
//!
//! The algorithm is specified as a small-step machine (`step`, `run`) and
//! the executable reducer is proved to compute exactly the machine's run.
use vstd::prelude::*;

use crate::cfg::CfgIndex;

verus! {

/// One loop-stack binding: a block, how many separated occurrences have
/// been kept, and the buffer index of its most recent kept occurrence.
pub ghost struct LsEntry {
    pub block: u32,
    pub times: nat,
    pub idx: nat,
}

/// One function instance being reduced: its entry block, the reduced buffer
/// built so far, and the loop stack.
pub ghost struct Frame {
    pub entry: u32,
    pub buf: Seq<u32>,
    pub ls: Seq<LsEntry>,
}

/// The machine state: a cursor into the trace, a stack of frames (callees
/// above callers), the (entry, reduced buffer) records finalized so far,
/// and whether an unknown entry block has halted the machine.
pub ghost struct RState {
    pub i: int,
    pub stack: Seq<Frame>,
    pub recs: Seq<(u32, Seq<u32>)>,
    pub ok: bool,
}

pub open spec fn init_state() -> RState {
    RState { i: 0, stack: Seq::empty(), recs: Seq::empty(), ok: true }
}

/// First position of `b` in the loop stack, or its length.
pub open spec fn ls_find_from(ls: Seq<LsEntry>, b: u32, j: int) -> int
    decreases ls.len() - j,
{
    if j < 0 || j >= ls.len() {
        ls.len() as int
    } else if ls[j].block == b {
        j
    } else {
        ls_find_from(ls, b, j + 1)
    }
}

pub open spec fn ls_find(ls: Seq<LsEntry>, b: u32) -> int {
    ls_find_from(ls, b, 0)
}

pub open spec fn ls_has(ls: Seq<LsEntry>, b: u32) -> bool {
    ls_find(ls, b) < ls.len()
}

/// Keeps, in order, the entries whose `idx` is at most `cap`.
pub open spec fn ls_retain(ls: Seq<LsEntry>, cap: nat) -> Seq<LsEntry>
    decreases ls.len(),
{
    if ls.len() == 0 {
        Seq::empty()
    } else {
        let rest = ls_retain(ls.drop_last(), cap);
        if ls.last().idx <= cap {
            rest.push(ls.last())
        } else {
            rest
        }
    }
}

/// The buffer cut back to `m` elements; a longer request leaves it unchanged.
pub open spec fn buf_take(buf: Seq<u32>, m: nat) -> Seq<u32> {
    if m <= buf.len() {
        buf.take(m as int)
    } else {
        buf
    }
}

/// Whether the machine has nothing left to do.
pub open spec fn terminal(t: Seq<u32>, s: RState) -> bool {
    !s.ok || (s.i >= t.len() && s.stack.len() == 0)
}

/// One machine step. The cases mirror the algorithm: at a function start,
/// an unknown block halts, a single-block function records immediately,
/// any other entry pushes a frame; inside a frame, a known entry is a call,
/// an exit block finalizes the frame, and any other block goes through the
/// loop stack with unroll bound `k`; at the end of the trace, frames still
/// open are finalized as partial.
pub open spec fn step(cfg: Map<u32, Set<u32>>, t: Seq<u32>, k: nat, s: RState) -> RState {
    if !s.ok {
        s
    } else if s.i >= t.len() {
        if s.stack.len() == 0 {
            s
        } else {
            let f = s.stack.last();
            RState {
                i: s.i,
                stack: s.stack.drop_last(),
                recs: s.recs.push((f.entry, f.buf)),
                ok: true,
            }
        }
    } else {
        let b = t[s.i];
        if s.stack.len() == 0 {
            if !cfg.contains_key(b) {
                RState { i: s.i, stack: s.stack, recs: s.recs, ok: false }
            } else if cfg[b].contains(b) {
                RState { i: s.i + 1, stack: s.stack, recs: s.recs.push((b, seq![b])), ok: true }
            } else {
                RState {
                    i: s.i + 1,
                    stack: s.stack.push(Frame { entry: b, buf: seq![b], ls: Seq::empty() }),
                    recs: s.recs,
                    ok: true,
                }
            }
        } else {
            let f = s.stack.last();
            if cfg.contains_key(b) {
                let st2 = s.stack.update(
                    s.stack.len() - 1,
                    Frame { entry: f.entry, buf: f.buf.push(b), ls: f.ls },
                );
                if cfg[b].contains(b) {
                    RState { i: s.i + 1, stack: st2, recs: s.recs.push((b, seq![b])), ok: true }
                } else {
                    RState {
                        i: s.i + 1,
                        stack: st2.push(Frame { entry: b, buf: seq![b], ls: Seq::empty() }),
                        recs: s.recs,
                        ok: true,
                    }
                }
            } else if cfg.contains_key(f.entry) && cfg[f.entry].contains(b) {
                RState {
                    i: s.i + 1,
                    stack: s.stack.drop_last(),
                    recs: s.recs.push((f.entry, f.buf.push(b))),
                    ok: true,
                }
            } else {
                let f2 = if ls_has(f.ls, b) {
                    let p = ls_find(f.ls, b);
                    let times = f.ls[p].times;
                    let idx = f.ls[p].idx;
                    let ls1 = ls_retain(f.ls, idx);
                    if times < k {
                        let p1 = ls_find(ls1, b);
                        let ls2 = ls1.update(
                            p1,
                            LsEntry { block: b, times: times + 1, idx: f.buf.len() },
                        );
                        Frame { entry: f.entry, buf: f.buf.push(b), ls: ls2 }
                    } else {
                        Frame { entry: f.entry, buf: buf_take(f.buf, idx + 1), ls: ls1 }
                    }
                } else {
                    Frame {
                        entry: f.entry,
                        buf: f.buf.push(b),
                        ls: f.ls.push(LsEntry { block: b, times: 1, idx: f.buf.len() }),
                    }
                };
                RState {
                    i: s.i + 1,
                    stack: s.stack.update(s.stack.len() - 1, f2),
                    recs: s.recs,
                    ok: true,
                }
            }
        }
    }
}

/// Runs the machine to a terminal state.
pub open spec fn run(cfg: Map<u32, Set<u32>>, t: Seq<u32>, k: nat, s: RState) -> RState
    decreases t.len() - s.i, s.stack.len()
        when 0 <= s.i <= t.len()
{
    if terminal(t, s) {
        s
    } else {
        let s2 = step(cfg, t, k, s);
        if terminal(t, s2) {
            s2
        } else {
            run(cfg, t, k, s2)
        }
    }
}

/// The cursor stays in range and moves forward; the step from a
/// non-terminal state either consumes one trace element or pops one frame.
pub proof fn lemma_step_progress(cfg: Map<u32, Set<u32>>, t: Seq<u32>, k: nat, s: RState)
    requires
        0 <= s.i <= t.len(),
        !terminal(t, s),
    ensures
        ({
            let s2 = step(cfg, t, k, s);
            &&& s.i <= s2.i <= t.len()
            &&& (s2.i > s.i || s2.stack.len() < s.stack.len() || !s2.ok)
        }),
{
}

/// Unfolding: from a non-terminal state the run equals the run from the
/// next state.
pub proof fn lemma_run_unfold(cfg: Map<u32, Set<u32>>, t: Seq<u32>, k: nat, s: RState)
    requires
        0 <= s.i <= t.len(),
        !terminal(t, s),
    ensures
        run(cfg, t, k, s) == run(cfg, t, k, step(cfg, t, k, s)),
{
}

/// The run of a terminal state is itself.
pub proof fn lemma_run_terminal(cfg: Map<u32, Set<u32>>, t: Seq<u32>, k: nat, s: RState)
    requires
        0 <= s.i <= t.len(),
        terminal(t, s),
    ensures
        run(cfg, t, k, s) == s,
{
}

/// Structural soundness of a machine state: every loop-stack index points
/// into its frame's buffer, and no more records and open frames exist than
/// trace elements consumed.
pub open spec fn state_wf(s: RState) -> bool {
    &&& 0 <= s.i
    &&& s.recs.len() + s.stack.len() <= s.i
    &&& forall|fi: int|
        0 <= fi < s.stack.len() ==> frame_wf(#[trigger] s.stack[fi])
}

pub open spec fn frame_wf(f: Frame) -> bool {
    &&& f.buf.len() >= 1
    &&& forall|j: int| 0 <= j < f.ls.len() ==> (#[trigger] f.ls[j]).idx < f.buf.len()
}

/// A step preserves structural soundness.
pub proof fn lemma_step_preserves_wf(cfg: Map<u32, Set<u32>>, t: Seq<u32>, k: nat, s: RState)
    requires
        state_wf(s),
        0 <= s.i <= t.len(),
        !terminal(t, s),
    ensures
        state_wf(step(cfg, t, k, s)),
    decreases 0int,
{
    let s2 = step(cfg, t, k, s);
    if s.i >= t.len() {
    } else {
        let b = t[s.i];
        if s.stack.len() == 0 {
        } else {
            let f = s.stack.last();
            assert(frame_wf(f));
            if cfg.contains_key(b) {
                assert(frame_wf(Frame { entry: f.entry, buf: f.buf.push(b), ls: f.ls }));
            } else if cfg.contains_key(f.entry) && cfg[f.entry].contains(b) {
            } else {
                if ls_has(f.ls, b) {
                    let p = ls_find(f.ls, b);
                    lemma_ls_find_in_range(f.ls, b);
                    let times = f.ls[p].times;
                    let idx = f.ls[p].idx;
                    let ls1 = ls_retain(f.ls, idx);
                    lemma_ls_retain_entries(f.ls, idx);
                    if times < k {
                        assert(ls1.contains(f.ls[p])) by {
                            assert(f.ls.contains(f.ls[p]));
                        }
                        lemma_ls_find_in_range(ls1, b);
                        let p1 = ls_find(ls1, b);
                        assert(p1 < ls1.len()) by {
                            let q = choose|q: int| 0 <= q < ls1.len() && ls1[q] == f.ls[p];
                            assert(ls1[q].block == b);
                        }
                        let ls2 = ls1.update(
                            p1,
                            LsEntry { block: b, times: times + 1, idx: f.buf.len() },
                        );
                        assert(frame_wf(Frame { entry: f.entry, buf: f.buf.push(b), ls: ls2 }))
                            by {
                            assert forall|j: int| 0 <= j < ls2.len() implies (#[trigger] ls2[j]).idx
                                < f.buf.push(b).len() by {
                                if j != p1 {
                                    assert(ls2[j] == ls1[j]);
                                    assert(ls1[j].idx <= idx);
                                    assert(idx < f.buf.len());
                                }
                            }
                        }
                    } else {
                        let bt = buf_take(f.buf, idx + 1);
                        assert(frame_wf(Frame { entry: f.entry, buf: bt, ls: ls1 })) by {
                            assert(idx < f.buf.len());
                            assert(bt.len() == idx + 1);
                            assert(forall|j: int|
                                0 <= j < ls1.len() ==> (#[trigger] ls1[j]).idx <= idx);
                        }
                    }
                } else {
                    assert(frame_wf(
                        Frame {
                            entry: f.entry,
                            buf: f.buf.push(b),
                            ls: f.ls.push(LsEntry { block: b, times: 1, idx: f.buf.len() }),
                        },
                    ));
                }
            }
        }
    }
}

/// Every entry of the retained stack is an entry of the original with
/// `idx` at most the cap, and membership is preserved for such entries.
pub proof fn lemma_ls_retain_entries(ls: Seq<LsEntry>, cap: nat)
    ensures
        forall|j: int|
            0 <= j < ls_retain(ls, cap).len() ==> ls.contains(#[trigger] ls_retain(ls, cap)[j])
                && ls_retain(ls, cap)[j].idx <= cap,
        forall|e: LsEntry| ls.contains(e) && e.idx <= cap ==> ls_retain(ls, cap).contains(e),
    decreases ls.len(),
{
    if ls.len() > 0 {
        let rest = ls.drop_last();
        lemma_ls_retain_entries(rest, cap);
        let r = ls_retain(ls, cap);
        let rr = ls_retain(rest, cap);
        assert forall|j: int| 0 <= j < r.len() implies ls.contains(#[trigger] r[j]) && r[j].idx
            <= cap by {
            if ls.last().idx <= cap && j == r.len() - 1 {
                assert(ls[ls.len() - 1] == ls.last());
            } else {
                assert(r[j] == rr[j]);
                assert(rest.contains(rr[j]));
                let p = choose|p: int| 0 <= p < rest.len() && rest[p] == rr[j];
                assert(ls[p] == rr[j]);
            }
        }
        assert forall|e: LsEntry| ls.contains(e) && e.idx <= cap implies r.contains(e) by {
            let p = choose|p: int| 0 <= p < ls.len() && ls[p] == e;
            if p == ls.len() - 1 {
                assert(r[r.len() - 1] == e);
            } else {
                assert(rest[p] == e);
                assert(rest.contains(e));
                assert(rr.contains(e));
                let q = choose|q: int| 0 <= q < rr.len() && rr[q] == e;
                if ls.last().idx <= cap {
                    assert(r[q] == e);
                } else {
                    assert(r[q] == e);
                }
            }
        }
    }
}

/// The found position is in range exactly when the block is present, and
/// it carries the block.
pub proof fn lemma_ls_find_in_range(ls: Seq<LsEntry>, b: u32)
    ensures
        0 <= ls_find(ls, b) <= ls.len(),
        ls_find(ls, b) < ls.len() ==> ls[ls_find(ls, b)].block == b,
        forall|j: int| 0 <= j < ls_find(ls, b) ==> (#[trigger] ls[j]).block != b,
{
    lemma_ls_find_from_props(ls, b, 0);
}

proof fn lemma_ls_find_from_props(ls: Seq<LsEntry>, b: u32, j: int)
    requires
        0 <= j <= ls.len(),
    ensures
        j <= ls_find_from(ls, b, j) <= ls.len(),
        ls_find_from(ls, b, j) < ls.len() ==> ls[ls_find_from(ls, b, j)].block == b,
        forall|p: int| j <= p < ls_find_from(ls, b, j) ==> (#[trigger] ls[p]).block != b,
    decreases ls.len() - j,
{
    if j < ls.len() && ls[j].block != b {
        lemma_ls_find_from_props(ls, b, j + 1);
    }
}

/// Running from a sound state yields a sound state; in particular no more
/// records are produced than trace elements exist.
pub proof fn lemma_run_preserves_wf(cfg: Map<u32, Set<u32>>, t: Seq<u32>, k: nat, s: RState)
    requires
        state_wf(s),
        0 <= s.i <= t.len(),
    ensures
        state_wf(run(cfg, t, k, s)),
        run(cfg, t, k, s).i <= t.len(),
        run(cfg, t, k, s).recs.len() + run(cfg, t, k, s).stack.len() <= t.len(),
    decreases t.len() - s.i, s.stack.len(),
{
    if terminal(t, s) {
    } else {
        lemma_step_preserves_wf(cfg, t, k, s);
        lemma_step_progress(cfg, t, k, s);
        let s2 = step(cfg, t, k, s);
        if terminal(t, s2) {
            assert(run(cfg, t, k, s) == s2);
        } else {
            lemma_run_preserves_wf(cfg, t, k, s2);
        }
    }
}

/// A step never touches any frame below the top of the stack: recursion
/// into a callee leaves the caller's buffer and loop stack unchanged until
/// the callee (and everything above it) has been popped.
pub proof fn lemma_step_preserves_lower_frames(
    cfg: Map<u32, Set<u32>>,
    t: Seq<u32>,
    k: nat,
    s: RState,
    fi: int,
)
    requires
        0 <= s.i <= t.len(),
        0 <= fi < s.stack.len() - 1,
    ensures
        fi < step(cfg, t, k, s).stack.len(),
        step(cfg, t, k, s).stack[fi] == s.stack[fi],
{
}

/// The state after `n` machine steps.
pub open spec fn iterate(cfg: Map<u32, Set<u32>>, t: Seq<u32>, k: nat, s: RState, n: nat) -> RState
    decreases n,
{
    if n == 0 {
        s
    } else {
        iterate(cfg, t, k, step(cfg, t, k, s), (n - 1) as nat)
    }
}

/// Cross-function isolation: as long as callee frames sit above it, a
/// caller's frame — its reduced buffer and its loop stack — is unchanged by
/// any number of machine steps.
pub proof fn lemma_steps_preserve_lower_frames(
    cfg: Map<u32, Set<u32>>,
    t: Seq<u32>,
    k: nat,
    s: RState,
    n: nat,
    fi: int,
)
    requires
        0 <= fi,
        forall|m: nat|
            m < n ==> 0 <= #[trigger] iterate(cfg, t, k, s, m).i <= t.len() && iterate(
                cfg,
                t,
                k,
                s,
                m,
            ).stack.len() > fi + 1,
    ensures
        n > 0 ==> iterate(cfg, t, k, s, n).stack.len() > fi,
        n > 0 ==> iterate(cfg, t, k, s, n).stack[fi] == s.stack[fi],
    decreases n,
{
    if n > 0 {
        assert(iterate(cfg, t, k, s, 0) == s);
        assert(0 <= s.i <= t.len() && s.stack.len() > fi + 1);
        lemma_step_preserves_lower_frames(cfg, t, k, s, fi);
        let s2 = step(cfg, t, k, s);
        if n == 1 {
            assert(iterate(cfg, t, k, s2, 0) == s2);
            assert(iterate(cfg, t, k, s, 1) == s2);
        } else {
            assert forall|m: nat| m < (n - 1) as nat implies 0 <= #[trigger] iterate(
                cfg,
                t,
                k,
                s2,
                m,
            ).i <= t.len() && iterate(cfg, t, k, s2, m).stack.len() > fi + 1 by {
                lemma_iterate_shift(cfg, t, k, s, m);
                assert(iterate(cfg, t, k, s2, m) == iterate(cfg, t, k, s, (m + 1) as nat));
            }
            lemma_steps_preserve_lower_frames(cfg, t, k, s2, (n - 1) as nat, fi);
            lemma_iterate_shift(cfg, t, k, s, (n - 1) as nat);
            assert(iterate(cfg, t, k, s2, (n - 1) as nat) == iterate(cfg, t, k, s, n));
        }
    }
}

proof fn lemma_iterate_shift(cfg: Map<u32, Set<u32>>, t: Seq<u32>, k: nat, s: RState, m: nat)
    ensures
        iterate(cfg, t, k, step(cfg, t, k, s), m) == iterate(cfg, t, k, s, (m + 1) as nat),
    decreases m,
{
    if m > 0 {
        lemma_iterate_shift(cfg, t, k, step(cfg, t, k, s), (m - 1) as nat);
    }
}

/// One frame of the executable reducer.
pub struct RFrame {
    pub entry: u32,
    pub buf: Vec<u32>,
    pub ls: Vec<(u32, usize, usize)>,
}

/// The abstract view of one executable loop-stack slot.
pub open spec fn slot_abs(s: (u32, usize, usize)) -> LsEntry {
    LsEntry { block: s.0, times: s.1 as nat, idx: s.2 as nat }
}

pub open spec fn ls_abs(s: Seq<(u32, usize, usize)>) -> Seq<LsEntry> {
    s.map_values(|x: (u32, usize, usize)| slot_abs(x))
}

pub open spec fn frame_abs(f: RFrame) -> Frame {
    Frame { entry: f.entry, buf: f.buf@, ls: ls_abs(f.ls@) }
}

pub open spec fn stack_abs(s: Seq<RFrame>) -> Seq<Frame> {
    s.map_values(|f: RFrame| frame_abs(f))
}

pub open spec fn recs_abs(s: Seq<(u32, Vec<u32>)>) -> Seq<(u32, Seq<u32>)> {
    s.map_values(|p: (u32, Vec<u32>)| (p.0, p.1@))
}

/// First position of `b` in an executable loop stack.
fn ls_find_exec(ls: &Vec<(u32, usize, usize)>, b: u32) -> (r: usize)
    ensures
        r as int == ls_find(ls_abs(ls@), b),
{
    let n = ls.len();
    let mut j: usize = 0;
    while j < n
        invariant
            n == ls@.len(),
            j <= n,
            ls_abs(ls@).len() == n,
            ls_find(ls_abs(ls@), b) == ls_find_from(ls_abs(ls@), b, j as int),
        decreases n - j,
    {
        if vstd::std_specs::vec::vec_index(ls, j).0 == b {
            proof {
                assert(ls_abs(ls@)[j as int].block == b);
            }
            return j;
        }
        proof {
            assert(ls_abs(ls@)[j as int].block != b);
        }
        j = j + 1;
    }
    n
}

/// The entries with `idx` at most `cap`, in order.
fn ls_retain_exec(ls: &Vec<(u32, usize, usize)>, cap: usize) -> (r: Vec<(u32, usize, usize)>)
    ensures
        ls_abs(r@) == ls_retain(ls_abs(ls@), cap as nat),
{
    let n = ls.len();
    let mut r: Vec<(u32, usize, usize)> = Vec::new();
    let mut j: usize = 0;
    proof {
        assert(ls_abs(r@) =~= ls_retain(ls_abs(ls@.take(0)), cap as nat));
    }
    while j < n
        invariant
            n == ls@.len(),
            j <= n,
            ls_abs(r@) == ls_retain(ls_abs(ls@.take(j as int)), cap as nat),
        decreases n - j,
    {
        let slot = *vstd::std_specs::vec::vec_index(ls, j);
        let ghost r0 = r@;
        if slot.2 <= cap {
            r.push(slot);
        }
        proof {
            let pre = ls_abs(ls@.take(j as int));
            let post = ls_abs(ls@.take(j as int + 1));
            assert(post.drop_last() =~= pre) by {
                assert(ls@.take(j as int + 1).drop_last() =~= ls@.take(j as int));
            }
            assert(post.last() == slot_abs(ls@[j as int]));
            if slot.2 <= cap {
                assert(ls_abs(r@) =~= ls_abs(r0).push(slot_abs(slot)));
            }
            assert(ls_abs(r@) == ls_retain(post, cap as nat));
        }
        j = j + 1;
    }
    proof {
        assert(ls@.take(n as int) =~= ls@);
    }
    r
}

/// Runs the reducer over a whole trace: the records of completed (or
/// partial) function instances in order, and whether every function start
/// was a known entry block. Computes exactly the machine's run from the
/// initial state.
pub fn reduce_trace(cfg: &CfgIndex, path: &Vec<u32>, k: usize) -> (res: (Vec<(u32, Vec<u32>)>, bool))
    requires
        cfg.wf(),
    ensures
        ({
            let fs = run(cfg@, path@, k as nat, init_state());
            &&& res.1 == fs.ok
            &&& recs_abs(res.0@) == fs.recs
        }),
{
    let n = path.len();
    let mut i: usize = 0;
    let mut stack: Vec<RFrame> = Vec::new();
    let mut recs: Vec<(u32, Vec<u32>)> = Vec::new();
    proof {
        assert(stack_abs(stack@) =~= Seq::<Frame>::empty());
        assert(recs_abs(recs@) =~= Seq::<(u32, Seq<u32>)>::empty());
        assert(RState { i: 0, stack: stack_abs(stack@), recs: recs_abs(recs@), ok: true }
            == init_state());
    }
    while !(i == n && stack.len() == 0)
        invariant
            cfg.wf(),
            n == path@.len(),
            i <= n,
            state_wf(RState { i: i as int, stack: stack_abs(stack@), recs: recs_abs(recs@), ok: true }),
            forall|fi: int|
                0 <= fi < stack@.len() ==> cfg@.contains_key((#[trigger] stack@[fi]).entry),
            run(
                cfg@,
                path@,
                k as nat,
                RState { i: i as int, stack: stack_abs(stack@), recs: recs_abs(recs@), ok: true },
            ) == run(cfg@, path@, k as nat, init_state()),
        decreases n - i, stack.len(),
    {
        let ghost scur = RState {
            i: i as int,
            stack: stack_abs(stack@),
            recs: recs_abs(recs@),
            ok: true,
        };
        proof {
            assert(!terminal(path@, scur));
            lemma_run_unfold(cfg@, path@, k as nat, scur);
            lemma_step_preserves_wf(cfg@, path@, k as nat, scur);
            lemma_step_progress(cfg@, path@, k as nat, scur);
        }
        let ghost snext = step(cfg@, path@, k as nat, scur);
        if i == n {
            // end of trace: finalize the top frame as a partial path
            let f = stack.pop().unwrap();
            proof {
                assert(stack_abs(stack@.push(f)) =~= stack_abs(stack@).push(frame_abs(f)));
                assert(frame_abs(f) == scur.stack.last());
            }
            recs.push((f.entry, f.buf));
            proof {
                assert(stack_abs(stack@) =~= scur.stack.drop_last());
                assert(recs_abs(recs@) =~= scur.recs.push((frame_abs(f).entry, frame_abs(f).buf)));
                assert(RState {
                    i: i as int,
                    stack: stack_abs(stack@),
                    recs: recs_abs(recs@),
                    ok: true,
                } == snext);
            }
        } else {
            let b = *vstd::std_specs::vec::vec_index(path, i);
            if stack.len() == 0 {
                if !cfg.is_entry(b) {
                    proof {
                        assert(snext == RState { i: scur.i, stack: scur.stack, recs: scur.recs, ok: false });
                        assert(terminal(path@, snext));
                        assert(run(cfg@, path@, k as nat, init_state()) == snext);
                    }
                    return (recs, false);
                }
                if cfg.is_exit_of(b, b) {
                    let mut single: Vec<u32> = Vec::new();
                    single.push(b);
                    proof {
                        assert(single@ =~= seq![b]);
                    }
                    recs.push((b, single));
                    proof {
                        assert(recs_abs(recs@) =~= scur.recs.push((b, seq![b])));
                    }
                } else {
                    let mut buf: Vec<u32> = Vec::new();
                    buf.push(b);
                    let nf = RFrame { entry: b, buf, ls: Vec::new() };
                    proof {
                        assert(frame_abs(nf) == Frame { entry: b, buf: seq![b], ls: Seq::empty() })
                            by {
                            assert(nf.buf@ =~= seq![b]);
                            assert(ls_abs(nf.ls@) =~= Seq::<LsEntry>::empty());
                        }
                    }
                    stack.push(nf);
                    proof {
                        assert(stack_abs(stack@) =~= scur.stack.push(
                            Frame { entry: b, buf: seq![b], ls: Seq::empty() },
                        ));
                    }
                }
                i = i + 1;
            } else {
                let is_call = cfg.is_entry(b);
                if is_call {
                    let mut f = stack.pop().unwrap();
                    let ghost fa = frame_abs(f);
                    proof {
                        assert(fa == scur.stack.last());
                    }
                    f.buf.push(b);
                    proof {
                        assert(frame_abs(f) == Frame { entry: fa.entry, buf: fa.buf.push(b), ls: fa.ls });
                    }
                    stack.push(f);
                    proof {
                        assert(stack_abs(stack@) =~= scur.stack.update(
                            scur.stack.len() - 1,
                            Frame { entry: fa.entry, buf: fa.buf.push(b), ls: fa.ls },
                        ));
                    }
                    if cfg.is_exit_of(b, b) {
                        let mut single: Vec<u32> = Vec::new();
                        single.push(b);
                        proof {
                            assert(single@ =~= seq![b]);
                        }
                        recs.push((b, single));
                        proof {
                            assert(recs_abs(recs@) =~= scur.recs.push((b, seq![b])));
                        }
                    } else {
                        let mut buf: Vec<u32> = Vec::new();
                        buf.push(b);
                        let nf = RFrame { entry: b, buf, ls: Vec::new() };
                        proof {
                            assert(frame_abs(nf) == Frame {
                                entry: b,
                                buf: seq![b],
                                ls: Seq::empty(),
                            }) by {
                                assert(nf.buf@ =~= seq![b]);
                                assert(ls_abs(nf.ls@) =~= Seq::<LsEntry>::empty());
                            }
                        }
                        stack.push(nf);
                        proof {
                            assert(stack_abs(stack@) =~= snext.stack);
                        }
                    }
                    i = i + 1;
                } else {
                    let li = stack.len() - 1;
                    let entry = vstd::std_specs::vec::vec_index(&stack, li).entry;
                    proof {
                        assert(stack@[li as int].entry == entry);
                        assert(frame_abs(stack@[li as int]) == scur.stack.last());
                        assert(cfg@.contains_key(entry));
                    }
                    if cfg.is_exit_of(entry, b) {
                        let mut f = stack.pop().unwrap();
                        let ghost fa = frame_abs(f);
                        f.buf.push(b);
                        recs.push((f.entry, f.buf));
                        proof {
                            assert(stack_abs(stack@) =~= scur.stack.drop_last());
                            assert(recs_abs(recs@) =~= scur.recs.push((fa.entry, fa.buf.push(b))));
                        }
                        i = i + 1;
                    } else {
                        let mut f = stack.pop().unwrap();
                        let ghost fa = frame_abs(f);
                        proof {
                            assert(fa == scur.stack.last());
                            assert(frame_wf(fa));
                        }
                        let pos = ls_find_exec(&f.ls, b);
                        proof {
                            lemma_ls_find_in_range(fa.ls, b);
                        }
                        if pos < f.ls.len() {
                            let slot = *vstd::std_specs::vec::vec_index(&f.ls, pos);
                            let times = slot.1;
                            let idx = slot.2;
                            proof {
                                assert(slot_abs(f.ls@[pos as int]) == fa.ls[pos as int]);
                                assert(fa.ls[pos as int].times == times as nat);
                                assert(fa.ls[pos as int].idx == idx as nat);
                            }
                            let mut newls = ls_retain_exec(&f.ls, idx);
                            if times < k {
                                proof {
                                    lemma_ls_retain_entries(fa.ls, idx as nat);
                                    assert(fa.ls.contains(fa.ls[pos as int]));
                                    lemma_ls_find_in_range(ls_retain(fa.ls, idx as nat), b);
                                    assert(ls_retain(fa.ls, idx as nat).contains(fa.ls[pos as int]));
                                    let q = choose|q: int|
                                        0 <= q < ls_retain(fa.ls, idx as nat).len() && ls_retain(
                                            fa.ls,
                                            idx as nat,
                                        )[q] == fa.ls[pos as int];
                                    assert(ls_retain(fa.ls, idx as nat)[q].block == b);
                                    assert(ls_has(ls_retain(fa.ls, idx as nat), b));
                                }
                                let p1 = ls_find_exec(&newls, b);
                                let blen = f.buf.len();
                                let ghost nl0 = newls@;
                                let slot2 = vstd::std_specs::vec::vec_index_mut(&mut newls, p1);
                                *slot2 = (b, times + 1, blen);
                                proof {
                                    assert(newls@ =~= nl0.update(p1 as int, (b, (times + 1) as usize, blen)));
                                    assert(ls_abs(newls@) =~= ls_abs(nl0).update(
                                        p1 as int,
                                        LsEntry { block: b, times: times as nat + 1, idx: blen as nat },
                                    ));
                                }
                                f.ls = newls;
                                f.buf.push(b);
                                proof {
                                    assert(frame_abs(f) == Frame {
                                        entry: fa.entry,
                                        buf: fa.buf.push(b),
                                        ls: ls_retain(fa.ls, idx as nat).update(
                                            ls_find(ls_retain(fa.ls, idx as nat), b),
                                            LsEntry {
                                                block: b,
                                                times: fa.ls[ls_find(fa.ls, b)].times + 1,
                                                idx: fa.buf.len(),
                                            },
                                        ),
                                    });
                                }
                            } else {
                                let bl = f.buf.len();
                                proof {
                                    assert(fa.ls[pos as int].idx < fa.buf.len());
                                    assert(idx < bl);
                                }
                                f.buf.truncate(idx + 1);
                                f.ls = newls;
                                proof {
                                    assert(f.buf@ =~= buf_take(fa.buf, idx as nat + 1));
                                    assert(frame_abs(f) == Frame {
                                        entry: fa.entry,
                                        buf: buf_take(fa.buf, idx as nat + 1),
                                        ls: ls_retain(fa.ls, idx as nat),
                                    });
                                }
                            }
                        } else {
                            let blen = f.buf.len();
                            let ghost ls0 = f.ls@;
                            f.ls.push((b, 1, blen));
                            f.buf.push(b);
                            proof {
                                assert(ls_abs(f.ls@) =~= ls_abs(ls0).push(
                                    LsEntry { block: b, times: 1, idx: blen as nat },
                                ));
                                assert(frame_abs(f) == Frame {
                                    entry: fa.entry,
                                    buf: fa.buf.push(b),
                                    ls: fa.ls.push(LsEntry { block: b, times: 1, idx: fa.buf.len() }),
                                });
                            }
                        }
                        stack.push(f);
                        proof {
                            assert(stack_abs(stack@) =~= scur.stack.update(
                                scur.stack.len() - 1,
                                frame_abs(f),
                            ));
                            assert(stack_abs(stack@) =~= snext.stack);
                        }
                        i = i + 1;
                    }
                }
            }
        }
        proof {
            assert(RState {
                i: i as int,
                stack: stack_abs(stack@),
                recs: recs_abs(recs@),
                ok: true,
            } == snext) by {
                assert(stack_abs(stack@) =~= snext.stack);
                assert(recs_abs(recs@) =~= snext.recs);
            }
            assert forall|fi: int| 0 <= fi < stack@.len() implies cfg@.contains_key(
                (#[trigger] stack@[fi]).entry,
            ) by {
                assert(frame_abs(stack@[fi]) == stack_abs(stack@)[fi]);
            }
        }
    }
    proof {
        let scur = RState { i: i as int, stack: stack_abs(stack@), recs: recs_abs(recs@), ok: true };
        assert(terminal(path@, scur));
        assert(run(cfg@, path@, k as nat, init_state()) == scur);
    }
    (recs, true)
}

} // verus!
