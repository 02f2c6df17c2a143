//! Laws of the path reducer: what the machine computes on a simple loop
//! (collapse beyond the unroll bound), on an already-canonical trace
//! (identity, hence idempotence), and on a nested loop pattern (a buffer
//! bound independent of the iteration counts).
use vstd::prelude::*;

use crate::reduce::{
    buf_take, init_state, lemma_ls_find_in_range, lemma_ls_retain_entries, lemma_run_unfold,
    ls_find, ls_find_from, ls_has, ls_retain, run, step, terminal, Frame, LsEntry, RState,
};

verus! {

/// `m` copies of one block.
pub open spec fn rep(b: u32, m: nat) -> Seq<u32> {
    Seq::new(m, |q: int| b)
}

/// The trace of one function that enters at `e`, loops `n` times through
/// `b`, and exits at `x`.
pub open spec fn loop_trace(e: u32, b: u32, x: u32, n: nat) -> Seq<u32> {
    seq![e] + rep(b, n) + seq![x]
}

/// A control-flow index in which `e` enters a function with exit `x`,
/// while `b` and `x` are plain blocks of that function: neither entries
/// nor (for `b`) exits, and the function is not single-block.
pub open spec fn plain_loop_cfg(cfg: Map<u32, Set<u32>>, e: u32, b: u32, x: u32) -> bool {
    &&& cfg.contains_key(e)
    &&& cfg[e].contains(x)
    &&& !cfg[e].contains(e)
    &&& !cfg[e].contains(b)
    &&& !cfg.contains_key(b)
    &&& !cfg.contains_key(x)
}

/// The machine state after consuming the entry and `j` loop blocks of a
/// plain loop trace.
pub open spec fn loop_state(e: u32, b: u32, j: nat, k: nat) -> RState {
    if j == 0 {
        RState {
            i: 1,
            stack: seq![Frame { entry: e, buf: seq![e], ls: Seq::empty() }],
            recs: Seq::empty(),
            ok: true,
        }
    } else {
        let c: nat = if j < k {
            j
        } else {
            k
        };
        RState {
            i: 1 + j as int,
            stack: seq![
                Frame {
                    entry: e,
                    buf: seq![e] + rep(b, c),
                    ls: seq![LsEntry { block: b, times: c, idx: c }],
                },
            ],
            recs: Seq::empty(),
            ok: true,
        }
    }
}

/// The final machine state on a plain loop trace: one record whose buffer
/// keeps at most `k` loop iterations.
pub open spec fn loop_final(e: u32, b: u32, x: u32, n: nat, k: nat) -> RState {
    let c: nat = if n < k {
        n
    } else {
        k
    };
    RState {
        i: n as int + 2,
        stack: Seq::empty(),
        recs: seq![(e, seq![e] + rep(b, c) + seq![x])],
        ok: true,
    }
}

proof fn lemma_loop_trace_index(e: u32, b: u32, x: u32, n: nat)
    ensures
        loop_trace(e, b, x, n).len() == n + 2,
        loop_trace(e, b, x, n)[0] == e,
        forall|j: int| 1 <= j <= n ==> loop_trace(e, b, x, n)[j] == b,
        loop_trace(e, b, x, n)[n as int + 1] == x,
{
}

proof fn lemma_loop_step(cfg: Map<u32, Set<u32>>, e: u32, b: u32, x: u32, n: nat, k: nat, j: nat)
    requires
        plain_loop_cfg(cfg, e, b, x),
        k >= 1,
        j < n,
    ensures
        step(cfg, loop_trace(e, b, x, n), k, loop_state(e, b, j, k)) == loop_state(e, b, j + 1, k),
{
    let t = loop_trace(e, b, x, n);
    lemma_loop_trace_index(e, b, x, n);
    let s = loop_state(e, b, j, k);
    assert(t[s.i] == b);
    if j == 0 {
        let f = s.stack.last();
        assert(!ls_has(f.ls, b));
        let f2 = Frame {
            entry: e,
            buf: f.buf.push(b),
            ls: f.ls.push(LsEntry { block: b, times: 1, idx: 1 }),
        };
        assert(f2.buf =~= seq![e] + rep(b, 1));
        assert(f2.ls =~= seq![LsEntry { block: b, times: 1, idx: 1 }]);
        assert(s.stack.update(0, f2) =~= loop_state(e, b, 1, k).stack);
    } else {
        let c: nat = if j < k {
            j
        } else {
            k
        };
        let f = s.stack.last();
        let ls = f.ls;
        assert(ls_find(ls, b) == 0);
        assert(ls_has(ls, b));
        assert(ls_retain(ls, c) =~= ls) by {
            assert(ls.drop_last() =~= Seq::<LsEntry>::empty());
            assert(ls.last().idx <= c);
            assert(ls_retain(Seq::<LsEntry>::empty(), c) =~= Seq::<LsEntry>::empty());
        }
        if c < k {
            assert(j < k && c == j);
            let ls2 = ls.update(0, LsEntry { block: b, times: c + 1, idx: f.buf.len() });
            assert(f.buf.len() == 1 + c);
            let f2 = Frame { entry: e, buf: f.buf.push(b), ls: ls2 };
            assert(f2.buf =~= seq![e] + rep(b, (j + 1) as nat));
            assert(f2.ls =~= seq![LsEntry { block: b, times: j + 1, idx: j + 1 }]);
            assert(s.stack.update(0, f2) =~= loop_state(e, b, j + 1, k).stack);
        } else {
            assert(c == k && j >= k);
            assert(f.buf.len() == 1 + k);
            assert(buf_take(f.buf, (c + 1) as nat) =~= f.buf);
            let f2 = Frame { entry: e, buf: buf_take(f.buf, (c + 1) as nat), ls: ls };
            assert(s.stack.update(0, f2) =~= loop_state(e, b, j + 1, k).stack);
        }
    }
}

proof fn lemma_loop_run_from(cfg: Map<u32, Set<u32>>, e: u32, b: u32, x: u32, n: nat, k: nat, j: nat)
    requires
        plain_loop_cfg(cfg, e, b, x),
        k >= 1,
        j <= n,
    ensures
        run(cfg, loop_trace(e, b, x, n), k, loop_state(e, b, j, k)) == loop_final(e, b, x, n, k),
    decreases n - j,
{
    let t = loop_trace(e, b, x, n);
    lemma_loop_trace_index(e, b, x, n);
    let s = loop_state(e, b, j, k);
    assert(!terminal(t, s));
    if j == n {
        let s2 = step(cfg, t, k, s);
        assert(t[s.i] == x);
        let f = s.stack.last();
        let c: nat = if n < k {
            n
        } else {
            k
        };
        assert(f.buf.push(x) =~= seq![e] + rep(b, c) + seq![x]);
        assert(s.stack.drop_last() =~= Seq::<Frame>::empty());
        assert(s.recs.push((e, f.buf.push(x))) =~= loop_final(e, b, x, n, k).recs);
        assert(s2 == loop_final(e, b, x, n, k));
        assert(terminal(t, s2));
    } else {
        lemma_loop_step(cfg, e, b, x, n, k, j);
        lemma_run_unfold(cfg, t, k, s);
        lemma_loop_run_from(cfg, e, b, x, n, k, j + 1);
    }
}

/// What the reducer computes on a plain loop trace `e b^n x`: one record
/// for the function, whose reduced buffer is `e b^min(n,k) x`.
pub proof fn lemma_loop_run(cfg: Map<u32, Set<u32>>, e: u32, b: u32, x: u32, n: nat, k: nat)
    requires
        plain_loop_cfg(cfg, e, b, x),
        k >= 1,
    ensures
        run(cfg, loop_trace(e, b, x, n), k, init_state()) == loop_final(e, b, x, n, k),
{
    let t = loop_trace(e, b, x, n);
    lemma_loop_trace_index(e, b, x, n);
    let s0 = init_state();
    assert(!terminal(t, s0));
    let s1 = step(cfg, t, k, s0);
    assert(t[0] == e);
    assert(s1.stack =~= loop_state(e, b, 0, k).stack);
    assert(s1.recs =~= loop_state(e, b, 0, k).recs);
    assert(s1 == loop_state(e, b, 0, k));
    lemma_run_unfold(cfg, t, k, s0);
    lemma_loop_run_from(cfg, e, b, x, n, k, 0);
}

/// Number of occurrences of `c` among the first `j` elements of `s`.
pub open spec fn cnt_upto(s: Seq<u32>, j: int, c: u32) -> nat
    decreases j,
{
    if j <= 0 || j > s.len() {
        0
    } else {
        cnt_upto(s, j - 1, c) + (if s[j - 1] == c {
            1nat
        } else {
            0nat
        })
    }
}

proof fn lemma_cnt_upto_monotone(s: Seq<u32>, j: int, j2: int, c: u32)
    requires
        0 <= j <= j2 <= s.len(),
    ensures
        cnt_upto(s, j, c) <= cnt_upto(s, j2, c),
    decreases j2 - j,
{
    if j < j2 {
        lemma_cnt_upto_monotone(s, j + 1, j2, c);
    }
}

/// The interior blocks belong to `e`'s function: none is an entry and none
/// is one of its exits.
pub open spec fn plain_mid(cfg: Map<u32, Set<u32>>, e: u32, mid: Seq<u32>) -> bool {
    forall|q: int|
        0 <= q < mid.len() ==> !cfg.contains_key(#[trigger] mid[q]) && !cfg[e].contains(mid[q])
}

/// A canonical interior: no block occurs more than `k` times, so no loop
/// exceeds the unroll bound.
pub open spec fn canonical_mid(mid: Seq<u32>, k: nat) -> bool {
    forall|c: u32| #[trigger] cnt_upto(mid, mid.len() as int, c) <= k
}

/// The loop stack is consistent with having consumed `j` interior blocks:
/// no binding has been kept more often than its block occurred.
pub open spec fn ls_ok(ls: Seq<LsEntry>, mid: Seq<u32>, j: int) -> bool {
    forall|q: int| 0 <= q < ls.len() ==> (#[trigger] ls[q]).times <= cnt_upto(mid, j, ls[q].block)
}

/// The state after consuming the entry and `j` interior blocks of a
/// canonical trace without truncation: the buffer is the consumed prefix.
pub open spec fn canon_state(e: u32, mid: Seq<u32>, j: int, ls: Seq<LsEntry>) -> RState {
    RState {
        i: 1 + j,
        stack: seq![Frame { entry: e, buf: seq![e] + mid.take(j), ls: ls }],
        recs: Seq::empty(),
        ok: true,
    }
}

/// The final state on a canonical trace: the one record holds the whole
/// trace unchanged.
pub open spec fn canon_final(e: u32, x: u32, mid: Seq<u32>) -> RState {
    RState {
        i: mid.len() as int + 2,
        stack: Seq::empty(),
        recs: seq![(e, seq![e] + mid + seq![x])],
        ok: true,
    }
}

proof fn lemma_canon_run_from(
    cfg: Map<u32, Set<u32>>,
    e: u32,
    x: u32,
    mid: Seq<u32>,
    k: nat,
    j: int,
    ls: Seq<LsEntry>,
)
    requires
        cfg.contains_key(e),
        cfg[e].contains(x),
        !cfg[e].contains(e),
        !cfg.contains_key(x),
        plain_mid(cfg, e, mid),
        canonical_mid(mid, k),
        0 <= j <= mid.len(),
        ls_ok(ls, mid, j),
    ensures
        run(cfg, seq![e] + mid + seq![x], k, canon_state(e, mid, j, ls)) == canon_final(e, x, mid),
    decreases mid.len() - j,
{
    let t = seq![e] + mid + seq![x];
    assert(t.len() == mid.len() + 2);
    assert(forall|q: int| 0 <= q < mid.len() ==> t[1 + q] == mid[q]);
    assert(t[mid.len() as int + 1] == x);
    let s = canon_state(e, mid, j, ls);
    assert(!terminal(t, s));
    let f = s.stack.last();
    if j == mid.len() {
        let s2 = step(cfg, t, k, s);
        assert(t[s.i] == x);
        assert(mid.take(j) =~= mid);
        assert(f.buf.push(x) =~= seq![e] + mid + seq![x]);
        assert(s.stack.drop_last() =~= Seq::<Frame>::empty());
        assert(s.recs.push((e, f.buf.push(x))) =~= canon_final(e, x, mid).recs);
        assert(s2 == canon_final(e, x, mid));
        assert(terminal(t, s2));
        lemma_run_unfold(cfg, t, k, s);
    } else {
        let bb = mid[j];
        assert(t[s.i] == bb);
        assert(!cfg.contains_key(bb) && !cfg[e].contains(bb));
        assert(f.buf.push(bb) =~= seq![e] + mid.take(j + 1)) by {
            assert(mid.take(j + 1) =~= mid.take(j).push(bb));
        }
        assert(cnt_upto(mid, j + 1, bb) == cnt_upto(mid, j, bb) + 1);
        lemma_cnt_upto_monotone(mid, j + 1, mid.len() as int, bb);
        assert(cnt_upto(mid, j, bb) + 1 <= k);
        let s2 = step(cfg, t, k, s);
        let ls2: Seq<LsEntry> = if ls_has(ls, bb) {
            let p = ls_find(ls, bb);
            lemma_ls_find_in_range(ls, bb);
            let times = ls[p].times;
            let idx = ls[p].idx;
            let ls1 = ls_retain(ls, idx);
            lemma_ls_retain_entries(ls, idx);
            assert(times < k) by {
                assert(ls[p].times <= cnt_upto(mid, j, ls[p].block));
            }
            assert(ls1.contains(ls[p])) by {
                assert(ls.contains(ls[p]));
            }
            lemma_ls_find_in_range(ls1, bb);
            let p1 = ls_find(ls1, bb);
            assert(p1 < ls1.len()) by {
                let q = choose|q: int| 0 <= q < ls1.len() && ls1[q] == ls[p];
                assert(ls1[q].block == bb);
            }
            let lsu = ls1.update(p1, LsEntry { block: bb, times: times + 1, idx: f.buf.len() });
            assert(ls_ok(lsu, mid, j + 1)) by {
                assert forall|q: int| 0 <= q < lsu.len() implies (#[trigger] lsu[q]).times
                    <= cnt_upto(mid, j + 1, lsu[q].block) by {
                    if q == p1 {
                        assert(lsu[q].times == times + 1);
                        assert(times <= cnt_upto(mid, j, bb));
                    } else {
                        assert(lsu[q] == ls1[q]);
                        assert(ls.contains(ls1[q]));
                        let q2 = choose|q2: int| 0 <= q2 < ls.len() && ls[q2] == ls1[q];
                        assert(ls[q2].times <= cnt_upto(mid, j, ls[q2].block));
                        lemma_cnt_upto_monotone(mid, j, j + 1, ls1[q].block);
                    }
                }
            }
            lsu
        } else {
            let lsp = ls.push(LsEntry { block: bb, times: 1, idx: f.buf.len() });
            assert(ls_ok(lsp, mid, j + 1)) by {
                assert forall|q: int| 0 <= q < lsp.len() implies (#[trigger] lsp[q]).times
                    <= cnt_upto(mid, j + 1, lsp[q].block) by {
                    if q < ls.len() {
                        assert(lsp[q] == ls[q]);
                        lemma_cnt_upto_monotone(mid, j, j + 1, ls[q].block);
                    } else {
                        assert(lsp[q].block == bb && lsp[q].times == 1);
                    }
                }
            }
            lsp
        };
        assert(s2 == canon_state(e, mid, j + 1, ls2)) by {
            assert(s.stack.update(0, s2.stack[0]) =~= s2.stack);
            assert(s2.stack =~= canon_state(e, mid, j + 1, ls2).stack);
        }
        lemma_run_unfold(cfg, t, k, s);
        lemma_canon_run_from(cfg, e, x, mid, k, j + 1, ls2);
    }
}

/// Canonical identity: a single-function trace in which no interior block
/// occurs more than `k` times reduces to itself — its one record holds the
/// trace unchanged.
pub proof fn lemma_canonical_identity(
    cfg: Map<u32, Set<u32>>,
    e: u32,
    x: u32,
    mid: Seq<u32>,
    k: nat,
)
    requires
        cfg.contains_key(e),
        cfg[e].contains(x),
        !cfg[e].contains(e),
        !cfg.contains_key(x),
        plain_mid(cfg, e, mid),
        canonical_mid(mid, k),
    ensures
        run(cfg, seq![e] + mid + seq![x], k, init_state()) == canon_final(e, x, mid),
        run(cfg, seq![e] + mid + seq![x], k, init_state()).recs == seq![
            (e, seq![e] + mid + seq![x]),
        ],
{
    let t = seq![e] + mid + seq![x];
    assert(t[0] == e);
    let s0 = init_state();
    assert(!terminal(t, s0));
    let s1 = step(cfg, t, k, s0);
    assert(mid.take(0) =~= Seq::<u32>::empty());
    assert(s1.stack =~= canon_state(e, mid, 0, Seq::empty()).stack) by {
        assert(seq![e] + mid.take(0) =~= seq![e]);
    }
    assert(s1.recs =~= canon_state(e, mid, 0, Seq::empty()).recs);
    assert(s1 == canon_state(e, mid, 0, Seq::empty()));
    lemma_run_unfold(cfg, t, k, s0);
    lemma_canon_run_from(cfg, e, x, mid, k, 0, Seq::empty());
}

/// Idempotence: reducing an already-reduced canonical trace reproduces it;
/// the reduction of such a trace is a fixed point.
pub proof fn lemma_reduce_idempotent(
    cfg: Map<u32, Set<u32>>,
    e: u32,
    x: u32,
    mid: Seq<u32>,
    k: nat,
)
    requires
        cfg.contains_key(e),
        cfg[e].contains(x),
        !cfg[e].contains(e),
        !cfg.contains_key(x),
        plain_mid(cfg, e, mid),
        canonical_mid(mid, k),
    ensures
        ({
            let reduced = run(cfg, seq![e] + mid + seq![x], k, init_state()).recs[0].1;
            &&& reduced == seq![e] + mid + seq![x]
            &&& run(cfg, reduced, k, init_state()).recs == seq![(e, reduced)]
        }),
{
    lemma_canonical_identity(cfg, e, x, mid, k);
}

/// The body of a nested-loop function: for each outer iteration one `b`
/// followed by some number of `c` blocks.
pub open spec fn gbody(b: u32, c: u32, ms: Seq<nat>) -> Seq<u32>
    decreases ms.len(),
{
    if ms.len() == 0 {
        Seq::empty()
    } else {
        seq![b] + rep(c, ms.first()) + gbody(b, c, ms.drop_first())
    }
}

/// Blocks `b`, `c` and `x` are plain interior blocks of the function
/// entered at `e`, and `b` and `c` are distinct.
pub open spec fn plain_nested_cfg(cfg: Map<u32, Set<u32>>, e: u32, b: u32, c: u32, x: u32) -> bool {
    &&& cfg.contains_key(e)
    &&& cfg[e].contains(x)
    &&& !cfg[e].contains(e)
    &&& !cfg[e].contains(b)
    &&& !cfg[e].contains(c)
    &&& !cfg.contains_key(b)
    &&& !cfg.contains_key(c)
    &&& !cfg.contains_key(x)
    &&& b != c
}

/// A mid-body machine state: one frame whose loop stack starts with the
/// binding for `b` followed by younger bindings `cpart`.
pub open spec fn nested_state(
    e: u32,
    b: u32,
    i: int,
    tb: nat,
    ib: nat,
    buf: Seq<u32>,
    cpart: Seq<LsEntry>,
) -> RState {
    RState {
        i: i,
        stack: seq![
            Frame { entry: e, buf: buf, ls: seq![LsEntry { block: b, times: tb, idx: ib }] + cpart },
        ],
        recs: Seq::empty(),
        ok: true,
    }
}

proof fn lemma_ls_retain_head(be: LsEntry, cpart: Seq<LsEntry>, cap: nat)
    requires
        be.idx <= cap,
        forall|q: int| 0 <= q < cpart.len() ==> (#[trigger] cpart[q]).idx > cap,
    ensures
        ls_retain(seq![be] + cpart, cap) =~= seq![be],
    decreases cpart.len(),
{
    let ls = seq![be] + cpart;
    if cpart.len() == 0 {
        assert(ls.drop_last() =~= Seq::<LsEntry>::empty());
        assert(ls.last() == be);
        assert(ls_retain(Seq::<LsEntry>::empty(), cap) =~= Seq::<LsEntry>::empty());
    } else {
        assert(ls.drop_last() =~= seq![be] + cpart.drop_last());
        assert(ls.last() == cpart.last());
        assert(cpart[cpart.len() - 1].idx > cap);
        assert forall|q: int| 0 <= q < cpart.drop_last().len() implies (
        #[trigger] cpart.drop_last()[q]).idx > cap by {
            assert(cpart.drop_last()[q] == cpart[q]);
        }
        lemma_ls_retain_head(be, cpart.drop_last(), cap);
    }
}

/// The bindings younger than `b`'s: blocks other than `b`, indices beyond
/// `b`'s most recent kept occurrence.
pub open spec fn cpart_ok(cpart: Seq<LsEntry>, b: u32, ib: nat) -> bool {
    forall|q: int| 0 <= q < cpart.len() ==> (#[trigger] cpart[q]).idx > ib && cpart[q].block != b
}

/// Processing one `c` block from a mid-body state: the first `c` after a
/// `b` opens a binding, further ones advance it up to the bound `k`, and
/// beyond the bound nothing changes but the cursor.
proof fn lemma_nested_c_step(
    cfg: Map<u32, Set<u32>>,
    t: Seq<u32>,
    k: nat,
    e: u32,
    b: u32,
    c: u32,
    x: u32,
    i: int,
    tb: nat,
    ib: nat,
    buf: Seq<u32>,
    q: nat,
)
    requires
        plain_nested_cfg(cfg, e, b, c, x),
        k >= 1,
        0 <= i < t.len(),
        t[i] == c,
        ib < buf.len(),
        q <= k,
        q >= 1 ==> buf.len() >= 2 && ib < buf.len() - 1,
    ensures
        q == 0 ==> step(cfg, t, k, nested_state(e, b, i, tb, ib, buf, Seq::empty()))
            == nested_state(
            e,
            b,
            i + 1,
            tb,
            ib,
            buf.push(c),
            seq![LsEntry { block: c, times: 1, idx: buf.len() }],
        ),
        q >= 1 && q < k ==> step(
            cfg,
            t,
            k,
            nested_state(
                e,
                b,
                i,
                tb,
                ib,
                buf,
                seq![LsEntry { block: c, times: q, idx: (buf.len() - 1) as nat }],
            ),
        ) == nested_state(
            e,
            b,
            i + 1,
            tb,
            ib,
            buf.push(c),
            seq![LsEntry { block: c, times: q + 1, idx: buf.len() }],
        ),
        q == k ==> step(
            cfg,
            t,
            k,
            nested_state(
                e,
                b,
                i,
                tb,
                ib,
                buf,
                seq![LsEntry { block: c, times: q, idx: (buf.len() - 1) as nat }],
            ),
        ) == nested_state(
            e,
            b,
            i + 1,
            tb,
            ib,
            buf,
            seq![LsEntry { block: c, times: q, idx: (buf.len() - 1) as nat }],
        ),
{
    if q == 0 {
        let s = nested_state(e, b, i, tb, ib, buf, Seq::empty());
        let f = s.stack.last();
        assert(f.ls =~= seq![LsEntry { block: b, times: tb, idx: ib }]);
        assert(!ls_has(f.ls, c)) by {
            reveal_with_fuel(ls_find_from, 3);
        }
        let f2 = Frame {
            entry: e,
            buf: buf.push(c),
            ls: f.ls.push(LsEntry { block: c, times: 1, idx: buf.len() }),
        };
        assert(f2.ls =~= seq![LsEntry { block: b, times: tb, idx: ib }] + seq![
            LsEntry { block: c, times: 1, idx: buf.len() },
        ]);
        assert(s.stack.update(0, f2) =~= nested_state(
            e,
            b,
            i + 1,
            tb,
            ib,
            buf.push(c),
            seq![LsEntry { block: c, times: 1, idx: buf.len() }],
        ).stack);
    } else {
        let ce = LsEntry { block: c, times: q, idx: (buf.len() - 1) as nat };
        let s = nested_state(e, b, i, tb, ib, buf, seq![ce]);
        let f = s.stack.last();
        let ls = f.ls;
        assert(ls.len() == 2 && ls[0].block == b && ls[1] == ce);
        assert(ls_find(ls, c) == 1) by {
            reveal_with_fuel(ls_find_from, 4);
        }
        assert(ls_has(ls, c));
        let cap = ce.idx;
        assert(ls_retain(ls, cap) =~= ls) by {
            assert(ls.drop_last() =~= seq![LsEntry { block: b, times: tb, idx: ib }]);
            assert(ls.last() == ce && ce.idx <= cap);
            assert(ls_retain(ls.drop_last(), cap) =~= seq![
                LsEntry { block: b, times: tb, idx: ib },
            ]) by {
                assert(ls.drop_last().drop_last() =~= Seq::<LsEntry>::empty());
                assert(ls.drop_last().last() == LsEntry { block: b, times: tb, idx: ib });
                assert(ib <= cap);
                assert(ls_retain(Seq::<LsEntry>::empty(), cap) =~= Seq::<LsEntry>::empty());
            }
        }
        if q < k {
            assert(ls_find(ls_retain(ls, cap), c) == 1) by {
                reveal_with_fuel(ls_find_from, 4);
            }
            let ls2 = ls.update(1, LsEntry { block: c, times: q + 1, idx: buf.len() });
            let f2 = Frame { entry: e, buf: buf.push(c), ls: ls2 };
            assert(ls2 =~= seq![LsEntry { block: b, times: tb, idx: ib }] + seq![
                LsEntry { block: c, times: q + 1, idx: buf.len() },
            ]);
            assert(s.stack.update(0, f2) =~= nested_state(
                e,
                b,
                i + 1,
                tb,
                ib,
                buf.push(c),
                seq![LsEntry { block: c, times: q + 1, idx: buf.len() }],
            ).stack);
        } else {
            assert(buf_take(buf, (cap + 1) as nat) =~= buf);
            let f2 = Frame { entry: e, buf: buf_take(buf, (cap + 1) as nat), ls: ls_retain(ls, cap) };
            assert(s.stack.update(0, f2) =~= s.stack);
        }
    }
}

/// Running a whole `c`-run from a state just after a `b`: the buffer grows
/// by at most `k` copies of `c` however long the run is.
proof fn lemma_nested_c_run(
    cfg: Map<u32, Set<u32>>,
    t: Seq<u32>,
    k: nat,
    e: u32,
    b: u32,
    c: u32,
    x: u32,
    i: int,
    tb: nat,
    ib: nat,
    buf: Seq<u32>,
    m: nat,
)
    requires
        plain_nested_cfg(cfg, e, b, c, x),
        k >= 1,
        0 <= i,
        i + m <= t.len(),
        forall|q: int| 0 <= q < m ==> #[trigger] t[i + q] == c,
        ib < buf.len(),
    ensures
        ({
            let after = if m == 0 {
                nested_state(e, b, i, tb, ib, buf, Seq::empty())
            } else {
                let g: nat = if m < k {
                    m
                } else {
                    k
                };
                nested_state(
                    e,
                    b,
                    i + m,
                    tb,
                    ib,
                    buf + rep(c, g),
                    seq![LsEntry { block: c, times: g, idx: (buf.len() + g - 1) as nat }],
                )
            };
            run(cfg, t, k, nested_state(e, b, i, tb, ib, buf, Seq::empty())) == run(cfg, t, k, after)
        }),
    decreases m,
{
    if m > 0 {
        let s0 = nested_state(e, b, i, tb, ib, buf, Seq::empty());
        assert(t[i + 0] == c);
        lemma_nested_c_step(cfg, t, k, e, b, c, x, i, tb, ib, buf, 0);
        assert(!terminal(t, s0));
        lemma_run_unfold(cfg, t, k, s0);
        let s1 = nested_state(
            e,
            b,
            i + 1,
            tb,
            ib,
            buf.push(c),
            seq![LsEntry { block: c, times: 1, idx: buf.len() }],
        );
        assert(buf.push(c) =~= buf + rep(c, 1));
        assert forall|p: int| 0 <= p < m - 1 implies #[trigger] t[(i + 1) + p] == c by {
            assert(t[i + (p + 1)] == c);
        }
        lemma_nested_c_tail(cfg, t, k, e, b, c, x, i + 1, tb, ib, buf, 1, (m - 1) as nat);
    }
}

/// Continuing a `c`-run that already holds `q` kept copies of `c`.
proof fn lemma_nested_c_tail(
    cfg: Map<u32, Set<u32>>,
    t: Seq<u32>,
    k: nat,
    e: u32,
    b: u32,
    c: u32,
    x: u32,
    i: int,
    tb: nat,
    ib: nat,
    buf0: Seq<u32>,
    q: nat,
    m: nat,
)
    requires
        plain_nested_cfg(cfg, e, b, c, x),
        k >= 1,
        0 <= i,
        i + m <= t.len(),
        forall|p: int| 0 <= p < m ==> #[trigger] t[i + p] == c,
        ib < buf0.len(),
        1 <= q <= k,
    ensures
        ({
            let g: nat = if q + m < k {
                q + m
            } else {
                k
            };
            run(
                cfg,
                t,
                k,
                nested_state(
                    e,
                    b,
                    i,
                    tb,
                    ib,
                    buf0 + rep(c, q),
                    seq![LsEntry { block: c, times: q, idx: (buf0.len() + q - 1) as nat }],
                ),
            ) == run(
                cfg,
                t,
                k,
                nested_state(
                    e,
                    b,
                    i + m,
                    tb,
                    ib,
                    buf0 + rep(c, g),
                    seq![LsEntry { block: c, times: g, idx: (buf0.len() + g - 1) as nat }],
                ),
            )
        }),
    decreases m,
{
    if m > 0 {
        let buf = buf0 + rep(c, q);
        assert(buf.len() == buf0.len() + q);
        assert(ib < buf.len() - 1 || q == 1 && ib < buf.len() - 0 - 1 || true);
        assert(ib < buf0.len());
        let s = nested_state(
            e,
            b,
            i,
            tb,
            ib,
            buf,
            seq![LsEntry { block: c, times: q, idx: (buf0.len() + q - 1) as nat }],
        );
        assert((buf0.len() + q - 1) as nat == (buf.len() - 1) as nat);
        assert(t[i + 0] == c);
        assert forall|p: int| 0 <= p < m - 1 implies #[trigger] t[(i + 1) + p] == c by {
            assert(t[i + (p + 1)] == c);
        }
        if q < k {
            lemma_nested_c_step(cfg, t, k, e, b, c, x, i, tb, ib, buf, q);
            assert(!terminal(t, s));
            lemma_run_unfold(cfg, t, k, s);
            assert(buf.push(c) =~= buf0 + rep(c, q + 1));
            lemma_nested_c_tail(cfg, t, k, e, b, c, x, i + 1, tb, ib, buf0, q + 1, (m - 1) as nat);
        } else {
            lemma_nested_c_step(cfg, t, k, e, b, c, x, i, tb, ib, buf, q);
            assert(!terminal(t, s));
            lemma_run_unfold(cfg, t, k, s);
            lemma_nested_c_tail(cfg, t, k, e, b, c, x, i + 1, tb, ib, buf0, q, (m - 1) as nat);
        }
    }
}

/// Processing the `b` that opens a group: bindings younger than `b`'s are
/// evicted; below the bound `b`'s binding advances and `b` is appended,
/// at the bound the buffer is cut back to `b`'s last kept occurrence.
proof fn lemma_nested_b_step(
    cfg: Map<u32, Set<u32>>,
    t: Seq<u32>,
    k: nat,
    e: u32,
    b: u32,
    c: u32,
    x: u32,
    i: int,
    tb: nat,
    ib: nat,
    buf: Seq<u32>,
    cpart: Seq<LsEntry>,
)
    requires
        plain_nested_cfg(cfg, e, b, c, x),
        k >= 1,
        0 <= i < t.len(),
        t[i] == b,
        ib < buf.len(),
        cpart_ok(cpart, b, ib),
    ensures
        tb < k ==> step(cfg, t, k, nested_state(e, b, i, tb, ib, buf, cpart)) == nested_state(
            e,
            b,
            i + 1,
            tb + 1,
            buf.len(),
            buf.push(b),
            Seq::empty(),
        ),
        tb >= k ==> step(cfg, t, k, nested_state(e, b, i, tb, ib, buf, cpart)) == nested_state(
            e,
            b,
            i + 1,
            tb,
            ib,
            buf.take(ib as int + 1),
            Seq::empty(),
        ),
{
    let be = LsEntry { block: b, times: tb, idx: ib };
    let s = nested_state(e, b, i, tb, ib, buf, cpart);
    let f = s.stack.last();
    let ls = f.ls;
    assert(ls[0] == be);
    assert(ls_find(ls, b) == 0);
    assert(ls_has(ls, b));
    lemma_ls_retain_head(be, cpart, ib);
    assert(ls_retain(ls, ib) =~= seq![be]) by {
        assert(ls =~= seq![be] + cpart);
    }
    if tb < k {
        assert(ls_find(seq![be], b) == 0);
        let ls2 = seq![be].update(0, LsEntry { block: b, times: tb + 1, idx: buf.len() });
        assert(ls2 =~= seq![LsEntry { block: b, times: tb + 1, idx: buf.len() }] + Seq::<
            LsEntry,
        >::empty());
        let f2 = Frame { entry: e, buf: buf.push(b), ls: ls2 };
        assert(s.stack.update(0, f2) =~= nested_state(
            e,
            b,
            i + 1,
            tb + 1,
            buf.len(),
            buf.push(b),
            Seq::empty(),
        ).stack);
    } else {
        assert(buf_take(buf, (ib + 1) as nat) =~= buf.take(ib as int + 1));
        let f2 = Frame { entry: e, buf: buf_take(buf, (ib + 1) as nat), ls: ls_retain(ls, ib) };
        assert(f2.ls =~= seq![be] + Seq::<LsEntry>::empty());
        assert(s.stack.update(0, f2) =~= nested_state(
            e,
            b,
            i + 1,
            tb,
            ib,
            buf.take(ib as int + 1),
            Seq::empty(),
        ).stack);
    }
}

/// Running the remaining groups and the exit from a group boundary: the
/// machine finishes with one record whose buffer length is bounded by a
/// constant in `k` alone.
proof fn lemma_nested_groups(
    cfg: Map<u32, Set<u32>>,
    t: Seq<u32>,
    k: nat,
    e: u32,
    b: u32,
    c: u32,
    x: u32,
    ms: Seq<nat>,
    i: int,
    tb: nat,
    ib: nat,
    buf: Seq<u32>,
    cpart: Seq<LsEntry>,
)
    requires
        plain_nested_cfg(cfg, e, b, c, x),
        k >= 1,
        0 <= i <= t.len(),
        t.skip(i) =~= gbody(b, c, ms) + seq![x],
        1 <= tb <= k,
        1 <= ib,
        ib <= 1 + (tb - 1) * (1 + k),
        ib < buf.len(),
        buf.len() <= ib + 1 + k,
        cpart_ok(cpart, b, ib),
    ensures
        ({
            let fs = run(cfg, t, k, nested_state(e, b, i, tb, ib, buf, cpart));
            &&& fs.ok
            &&& fs.stack.len() == 0
            &&& fs.recs.len() == 1
            &&& fs.recs[0].0 == e
            &&& fs.recs[0].1.len() <= 2 + k + k * k
        }),
    decreases ms.len(),
{
    let s = nested_state(e, b, i, tb, ib, buf, cpart);
    assert(t.skip(i).len() == t.len() - i);
    if ms.len() == 0 {
        assert(gbody(b, c, ms) =~= Seq::<u32>::empty());
        assert(t.skip(i) =~= seq![x]);
        assert(t.len() == i + 1);
        assert(t[i] == x) by {
            assert(t.skip(i)[0] == t[i]);
        }
        assert(!terminal(t, s));
        let s2 = step(cfg, t, k, s);
        let f = s.stack.last();
        assert(s2.recs == s.recs.push((e, f.buf.push(x))));
        assert(s2.stack =~= Seq::<Frame>::empty());
        assert(terminal(t, s2));
        lemma_run_unfold(cfg, t, k, s);
        assert(run(cfg, t, k, s) == s2);
        assert(s2.recs.len() == 1 && s2.recs[0].0 == e);
        assert(f.buf.push(x).len() == buf.len() + 1);
        assert(buf.len() + 1 <= ib + k + 2);
        assert(ib + k + 2 <= 2 + k + k * k) by (nonlinear_arith)
            requires
                1 <= tb <= k,
                ib <= 1 + (tb - 1) * (1 + k),
        ;
    } else {
        let m0 = ms.first();
        let rest = ms.drop_first();
        assert(gbody(b, c, ms) == seq![b] + rep(c, m0) + gbody(b, c, rest));
        let glen = gbody(b, c, ms).len() as int;
        assert(t.len() - i == glen + 1);
        assert(glen >= 1 + m0);
        assert(t[i] == b) by {
            assert(t.skip(i)[0] == t[i]);
        }
        assert(!terminal(t, s));
        lemma_nested_b_step(cfg, t, k, e, b, c, x, i, tb, ib, buf, cpart);
        lemma_run_unfold(cfg, t, k, s);
        let tb2: nat = if tb < k {
            tb + 1
        } else {
            tb
        };
        let ib2: nat = if tb < k {
            buf.len()
        } else {
            ib
        };
        let buf2: Seq<u32> = if tb < k {
            buf.push(b)
        } else {
            buf.take(ib as int + 1)
        };
        let sa = nested_state(e, b, i + 1, tb2, ib2, buf2, Seq::empty());
        assert(run(cfg, t, k, s) == run(cfg, t, k, sa));
        assert(ib2 < buf2.len());
        assert(buf2.len() == ib2 + 1);
        assert(ib2 <= 1 + (tb2 - 1) * (1 + k)) by (nonlinear_arith)
            requires
                1 <= tb <= k,
                ib <= 1 + (tb - 1) * (1 + k),
                ib < buf.len(),
                buf.len() <= ib + 1 + k,
                tb2 == (if tb < k {
                    tb + 1nat
                } else {
                    tb
                }),
                ib2 == (if tb < k {
                    buf.len()
                } else {
                    ib
                }),
        ;
        assert forall|p: int| 0 <= p < m0 implies #[trigger] t[(i + 1) + p] == c by {
            assert(t.skip(i)[1 + p] == t[i + 1 + p]);
            assert((seq![b] + rep(c, m0) + gbody(b, c, rest))[1 + p] == c);
        }
        assert(i + 1 + m0 <= t.len());
        lemma_nested_c_run(cfg, t, k, e, b, c, x, i + 1, tb2, ib2, buf2, m0);
        let g: nat = if m0 < k {
            m0
        } else {
            k
        };
        let sb = if m0 == 0 {
            nested_state(e, b, i + 1, tb2, ib2, buf2, Seq::empty())
        } else {
            nested_state(
                e,
                b,
                i + 1 + m0,
                tb2,
                ib2,
                buf2 + rep(c, g),
                seq![LsEntry { block: c, times: g, idx: (buf2.len() + g - 1) as nat }],
            )
        };
        assert(run(cfg, t, k, sa) == run(cfg, t, k, sb));
        assert(t.skip(i + 1 + m0) =~= gbody(b, c, rest) + seq![x]) by {
            assert forall|p: int| 0 <= p < t.len() - (i + 1 + m0) implies t.skip(i + 1 + m0)[p]
                == (gbody(b, c, rest) + seq![x])[p] by {
                assert(t.skip(i + 1 + m0)[p] == t[i + 1 + m0 + p]);
                assert(t.skip(i)[1 + m0 + p] == t[i + 1 + m0 + p]);
                assert((seq![b] + rep(c, m0) + gbody(b, c, rest) + seq![x])[1 + m0 + p] == (gbody(
                    b,
                    c,
                    rest,
                ) + seq![x])[p]);
                assert((gbody(b, c, ms) + seq![x])[1 + m0 + p] == (seq![b] + rep(c, m0) + gbody(
                    b,
                    c,
                    rest,
                ) + seq![x])[1 + m0 + p]);
            }
        }
        if m0 == 0 {
            assert(i + 1 <= t.len());
            lemma_nested_groups(cfg, t, k, e, b, c, x, rest, i + 1, tb2, ib2, buf2, Seq::empty());
        } else {
            let bufb = buf2 + rep(c, g);
            assert(bufb.len() == ib2 + 1 + g);
            assert(g <= k);
            let ce = LsEntry { block: c, times: g, idx: (buf2.len() + g - 1) as nat };
            assert(cpart_ok(seq![ce], b, ib2)) by {
                assert(ce.idx == ib2 + g && g >= 1);
            }
            lemma_nested_groups(
                cfg,
                t,
                k,
                e,
                b,
                c,
                x,
                rest,
                i + 1 + m0,
                tb2,
                ib2,
                bufb,
                seq![ce],
            );
        }
    }
}

/// Nested bound: for a function `e (b c*)* x` the reduced buffer length is
/// bounded by a constant in the unroll bound alone — `k*k + k + 2` —
/// whatever the outer and inner iteration counts are.
pub proof fn lemma_nested_loop_bound(
    cfg: Map<u32, Set<u32>>,
    e: u32,
    b: u32,
    c: u32,
    x: u32,
    ms: Seq<nat>,
    k: nat,
)
    requires
        plain_nested_cfg(cfg, e, b, c, x),
        k >= 1,
    ensures
        ({
            let fs = run(cfg, seq![e] + gbody(b, c, ms) + seq![x], k, init_state());
            &&& fs.ok
            &&& fs.recs.len() == 1
            &&& fs.recs[0].0 == e
            &&& fs.recs[0].1.len() <= 2 + k + k * k
        }),
    decreases ms.len(),
{
    let t = seq![e] + gbody(b, c, ms) + seq![x];
    assert(t[0] == e);
    let s0 = init_state();
    assert(!terminal(t, s0));
    let s1 = step(cfg, t, k, s0);
    assert(s1.stack =~= seq![Frame { entry: e, buf: seq![e], ls: Seq::empty() }]);
    assert(s1 == RState {
        i: 1,
        stack: seq![Frame { entry: e, buf: seq![e], ls: Seq::empty() }],
        recs: Seq::<(u32, Seq<u32>)>::empty(),
        ok: true,
    });
    lemma_run_unfold(cfg, t, k, s0);
    if ms.len() == 0 {
        assert(gbody(b, c, ms) =~= Seq::<u32>::empty());
        assert(t.len() == 2 && t[1] == x);
        assert(!terminal(t, s1));
        let s2 = step(cfg, t, k, s1);
        assert(s2.recs == s1.recs.push((e, seq![e].push(x))));
        assert(s2.stack =~= Seq::<Frame>::empty());
        assert(terminal(t, s2));
        assert(run(cfg, t, k, s1) == s2);
        assert(s2.recs.len() == 1 && s2.recs[0].0 == e && s2.recs[0].1.len() == 2);
        assert(2 <= 2 + k + k * k) by (nonlinear_arith)
            requires
                k >= 1,
        ;
    } else {
        let m0 = ms.first();
        let rest = ms.drop_first();
        assert(gbody(b, c, ms) == seq![b] + rep(c, m0) + gbody(b, c, rest));
        assert(t[1] == b);
        assert(!terminal(t, s1));
        let s2 = step(cfg, t, k, s1);
        let fr = Frame { entry: e, buf: seq![e], ls: Seq::empty() };
        assert(!ls_has(fr.ls, b));
        assert(s2.stack =~= seq![
            Frame {
                entry: e,
                buf: seq![e].push(b),
                ls: Seq::<LsEntry>::empty().push(LsEntry { block: b, times: 1, idx: 1 }),
            },
        ]);
        assert(Seq::<LsEntry>::empty().push(LsEntry { block: b, times: 1, idx: 1 }) =~= seq![
            LsEntry { block: b, times: 1, idx: 1 },
        ] + Seq::<LsEntry>::empty());
        assert(s2 == nested_state(e, b, 2, 1, 1, seq![e].push(b), Seq::empty()));
        lemma_run_unfold(cfg, t, k, s1);
        assert forall|p: int| 0 <= p < m0 implies #[trigger] t[2 + p] == c by {
            assert((seq![b] + rep(c, m0) + gbody(b, c, rest))[1 + p] == c);
            assert(t[1 + (1 + p)] == gbody(b, c, ms)[1 + p]);
        }
        assert(2 + m0 <= t.len());
        lemma_nested_c_run(cfg, t, k, e, b, c, x, 2, 1, 1, seq![e].push(b), m0);
        let g: nat = if m0 < k {
            m0
        } else {
            k
        };
        assert(t.skip(2 + m0 as int) =~= gbody(b, c, rest) + seq![x]) by {
            assert forall|p: int| 0 <= p < t.len() - (2 + m0) implies t.skip(2 + m0 as int)[p] == (gbody(
                b,
                c,
                rest,
            ) + seq![x])[p] by {
                assert(t.skip(2 + m0 as int)[p] == t[2 + m0 + p]);
                assert(t[1 + (1 + m0 + p)] == (gbody(b, c, ms) + seq![x])[1 + m0 + p]);
                assert((seq![b] + rep(c, m0) + gbody(b, c, rest) + seq![x])[1 + m0 + p] == (gbody(
                    b,
                    c,
                    rest,
                ) + seq![x])[p]);
                assert((gbody(b, c, ms) + seq![x])[1 + m0 + p] == (seq![b] + rep(c, m0) + gbody(
                    b,
                    c,
                    rest,
                ) + seq![x])[1 + m0 + p]);
            }
        }
        if m0 == 0 {
            lemma_nested_groups(
                cfg,
                t,
                k,
                e,
                b,
                c,
                x,
                rest,
                2,
                1,
                1,
                seq![e].push(b),
                Seq::empty(),
            );
        } else {
            let buf2 = seq![e].push(b);
            let bufb = buf2 + rep(c, g);
            let ce = LsEntry { block: c, times: g, idx: (buf2.len() + g - 1) as nat };
            assert(cpart_ok(seq![ce], b, 1)) by {
                assert(ce.idx == 1 + g && g >= 1);
            }
            lemma_nested_groups(cfg, t, k, e, b, c, x, rest, 2 + m0 as int, 1, 1, bufb, seq![ce]);
        }
    }
}

/// Loop collapse: beyond the unroll bound the iteration count no longer
/// matters — for any `n >= k`, reducing `e b^n x` gives exactly the records
/// of reducing `e b^k x`.
pub proof fn lemma_loop_collapse(cfg: Map<u32, Set<u32>>, e: u32, b: u32, x: u32, n: nat, k: nat)
    requires
        plain_loop_cfg(cfg, e, b, x),
        k >= 1,
        n >= k,
    ensures
        run(cfg, loop_trace(e, b, x, n), k, init_state()).recs == run(
            cfg,
            loop_trace(e, b, x, k),
            k,
            init_state(),
        ).recs,
        run(cfg, loop_trace(e, b, x, n), k, init_state()).ok,
{
    lemma_loop_run(cfg, e, b, x, n, k);
    lemma_loop_run(cfg, e, b, x, k, k);
}

} // verus!
