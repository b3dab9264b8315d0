//! What holds of the runtime across several operations.

use crate::error::ReactiveError;
use crate::graph::{lemma_no_way_back, lemma_reaches_last_hop, ranked, reaches};
use crate::handle::{Fetched, FlushStep, Refresh};
use crate::model::{Edge, Freshness, Model, NodeKind};
use crate::order::{lemma_ready_from, lemma_ready_iff, lemma_settled_inv, lemma_started_inv};
use crate::scope::lemma_disposed_inv;
use crate::seqs::{lemma_filter_holds, lemma_filter_order, upto};
use crate::steps::{
    lemma_finished_effect_inv, lemma_finished_memo_inv, lemma_subscribed_inv, lemma_upstream_clean,
};
use vstd::prelude::*;

verus! {

/// `after` follows from `before` by a step that is no write and no
/// disposal: a step of a flush, a refresh, the end of an evaluation, or a
/// read that subscribes the observer.
pub open spec fn quiet_step<T>(before: Model<T>, after: Model<T>) -> bool {
    ||| after == before.flushed()
    ||| exists|n: usize| after == #[trigger] before.refreshed(n)
    ||| before.effect_running() && after == before.finished_effect()
    ||| before.memo_running() && exists|v: T, changed: bool|
        after == #[trigger] before.finished_memo(v, changed)
    ||| exists|s: usize|
        before.read_result(s) matches Ok(Fetched::Ready(_)) && after == #[trigger] before.subscribed(s)
}

/// A computation is run only when everything that it depends on, directly
/// or through other nodes, is up to date: it never sees a value that the
/// same flush is still going to replace.
pub proof fn lemma_run_after_upstream<T>(m: Model<T>, x: usize, u: usize)
    requires
        m.inv(),
        m.flush_result() == Ok::<FlushStep, crate::error::ReactiveError>(FlushStep::Run(x))
            || m.refresh_result(x) == Ok::<Refresh, crate::error::ReactiveError>(Refresh::Run(x)),
        reaches(m.edges, u, x),
        u != x,
    ensures
        m.is_clean(u),
        m.state_of(x) == Freshness::Dirty,
{
    lemma_ready_from(m, true, 0);
    lemma_ready_from(m, false, 0);
    lemma_ready_iff(m, x);
    if m.flush_result() == Ok::<FlushStep, crate::error::ReactiveError>(FlushStep::Run(x)) {
        assert(m.pending.contains(x));
        let i = choose|i: int| 0 <= i < m.pending.len() && m.pending[i] == x;
        assert(m.pending[i] < m.nodes.len());
    }
    lemma_upstream_clean(m, x, u);
}

/// What is up to date stays up to date, with its value, until the next
/// write: no node runs twice in one flush.
pub proof fn lemma_quiet_keeps_clean<T>(m: Model<T>, a: Model<T>, n: usize)
    requires
        m.inv(),
        quiet_step(m, a),
        m.is_clean(n),
    ensures
        a.is_clean(n),
        a.value_of(n) == m.value_of(n),
{
    lemma_ready_from(m, true, 0);
    lemma_ready_from(m, false, 0);
    if m.running.len() > 0 {
        let top = m.running.last();
        assert(m.running[m.running.len() - 1] == top);
        if m.depends(n, top) {
            let i = choose|i: int| 0 <= i < m.edges.len() && m.edges[i] == Edge { source: top, subscriber: n };
            assert(m.edges[i].subscriber == n);
        }
    }
}

/// A dirty node becomes clean only at the end of its own evaluation.
pub proof fn lemma_dirty_cleared_by_run<T>(m: Model<T>, a: Model<T>, n: usize)
    requires
        m.inv(),
        quiet_step(m, a),
        n < m.nodes.len(),
        m.state_of(n) == Freshness::Dirty,
        a.is_clean(n),
    ensures
        m.running.len() > 0,
        m.running.last() == n,
        m.live(n),
{
    lemma_ready_from(m, true, 0);
    lemma_ready_from(m, false, 0);
}

/// When nothing is queued, every live node that is not being evaluated is up
/// to date.
pub proof fn lemma_idle_is_clean<T>(m: Model<T>, n: usize)
    requires
        m.inv(),
        m.pending.len() == 0,
        m.live(n),
        !m.is_running(n),
    ensures
        m.is_clean(n),
{
    if !m.is_clean(n) {
        assert(m.pending.contains(n));
    }
}

/// A write makes every direct subscriber of the signal dirty and queues it.
pub proof fn lemma_write_dirties_readers<T>(m: Model<T>, a: usize, v: T, n: usize)
    requires
        m.inv(),
        m.write_error(a) is None,
        m.depends(n, a),
    ensures
        m.written(a, v).state_of(n) == Freshness::Dirty,
        m.written(a, v).pending.contains(n),
{
    crate::invalidate::lemma_written_inv(m, a, v);
    let w = m.written(a, v);
    let i = choose|i: int| 0 <= i < m.edges.len() && m.edges[i] == Edge { source: a, subscriber: n };
    assert(m.live(m.edges[i].subscriber));
    assert(m.kind_of(m.edges[i].subscriber) != NodeKind::Signal);
    assert(n != a);
    assert(w.nodes[n as int] == m.invalidated(a).nodes[n as int]);
    crate::graph::lemma_linked_reaches(m.edges, a, n);
    assert(m.touches(a, n));
    if m.is_running(n) {
        let k = choose|k: int| 0 <= k < m.running.len() && m.running[k] == n;
        assert(m.touches(a, m.running[k]));
    }
    assert(!w.is_running(n));
    assert(w.live(n));
}

/// After a write nothing downstream of the signal is clean: none of it can
/// be read before it has been brought up to date.
pub proof fn lemma_write_stales_downstream<T>(m: Model<T>, a: usize, v: T, n: usize)
    requires
        m.inv(),
        m.write_error(a) is None,
        m.touches(a, n),
    ensures
        !m.written(a, v).is_clean(n),
        m.written(a, v).read_result(n) is Err || m.written(a, v).read_result(n) == Ok::<
            Fetched<T>,
            ReactiveError,
        >(Fetched::Stale),
{
    crate::invalidate::lemma_touched_is_computation(m, a, n);
    assert(m.written(a, v).nodes[n as int] == m.invalidated(a).nodes[n as int]);
}

/// What a read yields is consistent with everything upstream: a node that
/// yields a value depends, directly or through other nodes, on clean nodes
/// only.
pub proof fn lemma_ready_means_settled<T>(m: Model<T>, id: usize, u: usize)
    requires
        m.inv(),
        m.read_result(id) matches Ok(Fetched::Ready(_)),
        reaches(m.edges, u, id),
    ensures
        m.is_clean(u),
{
    if u != id {
        lemma_upstream_clean(m, id, u);
    }
}

/// A memo that computes the value it already held disturbs nothing: no
/// other node changes, and nothing is queued.
pub proof fn lemma_same_value_is_silent<T>(m: Model<T>, v: T, n: usize)
    requires
        m.inv(),
        m.memo_running(),
        n < m.nodes.len(),
        n != m.running.last(),
    ensures
        m.finished_memo(v, false).nodes[n as int] == m.nodes[n as int],
        m.finished_memo(v, false).pending == m.pending,
        m.finished_memo(v, false).edges == m.edges,
{
}

/// A node depends on a signal only through a subscription: one that did not
/// subscribe to the signal, and none of whose dependencies depends on it,
/// is not downstream of it.
pub proof fn lemma_reach_needs_subscription<T>(m: Model<T>, a: usize, n: usize)
    requires
        n != a,
        !m.depends(n, a),
        forall|i: int|
            0 <= i < m.edges.len() && (#[trigger] m.edges[i]).subscriber == n ==> !m.touches(
                a,
                m.edges[i].source,
            ),
    ensures
        !m.touches(a, n),
{
    if m.touches(a, n) {
        let c = lemma_reaches_last_hop(m.edges, a, n);
        let i = choose|i: int| 0 <= i < m.edges.len() && m.edges[i] == Edge { source: c, subscriber: n };
        assert(m.edges[i].subscriber == n);
    }
}

/// A write leaves alone whatever is not downstream of the signal: such a
/// node keeps its state and its value, and is queued only if it was.
pub proof fn lemma_write_spares_strangers<T>(m: Model<T>, a: usize, v: T, n: usize)
    requires
        m.inv(),
        m.write_error(a) is None,
        n < m.nodes.len(),
        n != a,
        !m.touches(a, n),
    ensures
        m.written(a, v).nodes[n as int] == m.nodes[n as int],
        m.written(a, v).pending.contains(n) <==> m.pending.contains(n),
{
    let w = m.written(a, v);
    let fresh = m.newly_pending(a);
    lemma_filter_holds(upto(m.nodes.len()), m.clean_downstream(a));
    if m.depends(n, a) {
        crate::graph::lemma_linked_reaches(m.edges, a, n);
    }
    assert(w.nodes[n as int] == m.invalidated(a).nodes[n as int]);
    if w.pending.contains(n) {
        let i = choose|i: int| 0 <= i < w.pending.len() && w.pending[i] == n;
        if i < m.pending.len() {
            assert(m.pending[i] == n);
        } else {
            assert(fresh[i - m.pending.len()] == n);
            assert(fresh.contains(n));
        }
    }
    if m.pending.contains(n) {
        let i = choose|i: int| 0 <= i < m.pending.len() && m.pending[i] == n;
        assert(w.pending[i] == n);
    }
}

/// Disposing a scope changes no node and no evaluation in progress. A node
/// that outlives the scope is queued after the disposal exactly if it was
/// before, once, and two such nodes keep their order in the queue.
pub proof fn lemma_dispose_spares_others<T>(m: Model<T>, root: usize, x: usize, y: usize)
    requires
        m.inv(),
        m.survives(root, x),
        m.survives(root, y),
    ensures
        m.disposed(root).nodes == m.nodes,
        m.disposed(root).running == m.running,
        m.disposed(root).pending.no_duplicates(),
        m.disposed(root).live(x),
        m.disposed(root).pending.contains(x) <==> m.pending.contains(x),
        forall|i: int, j: int|
            0 <= i < j < m.pending.len() && m.pending[i] == x && m.pending[j] == y ==> exists|
                k: int,
                l: int,
            |
                0 <= k < l < m.disposed(root).pending.len() && #[trigger] m.disposed(root).pending[k] == x
                    && #[trigger] m.disposed(root).pending[l] == y,
{
    let a = m.disposed(root);
    lemma_disposed_inv(m, root);
    lemma_filter_holds(m.pending, m.node_survives(root));
    assert forall|i: int, j: int|
        0 <= i < j < m.pending.len() && m.pending[i] == x && m.pending[j] == y implies exists|
        k: int,
        l: int,
    |
        0 <= k < l < a.pending.len() && #[trigger] a.pending[k] == x && #[trigger] a.pending[l] == y by {
        let at = lemma_filter_order(m.pending, m.node_survives(root), i, j);
        assert(a.pending[at.0] == x && a.pending[at.1] == y);
    }
}

/// The evaluation of a computation that was disposed while it ran ends
/// without any effect on the rest.
pub proof fn lemma_disposed_run_ends_quietly<T>(m: Model<T>, v: T, changed: bool)
    requires
        m.inv(),
        m.running.len() > 0,
        !m.live(m.running.last()),
    ensures
        m.finished_effect() == m.popped(),
        m.finished_memo(v, changed) == m.popped(),
{
}

/// A memo whose value changed makes every one of its subscribers dirty.
pub proof fn lemma_changed_memo_dirties_readers<T>(m: Model<T>, v: T, n: usize)
    requires
        m.inv(),
        m.memo_running(),
        m.live(m.running.last()),
        m.depends(n, m.running.last()),
    ensures
        m.finished_memo(v, true).state_of(n) == Freshness::Dirty,
        m.finished_memo(v, true).pending.contains(n),
{
    let top = m.running.last();
    assert(m.running[m.running.len() - 1] == top);
    let i = choose|i: int| 0 <= i < m.edges.len() && m.edges[i] == Edge { source: top, subscriber: n };
    assert(m.edges[i].subscriber == n);
    assert(m.live(n));
    assert(!m.is_clean(n) && !m.is_running(n));
    assert(m.pending.contains(n));
}

/// A quiet step keeps the invariant.
pub proof fn lemma_quiet_inv<T>(m: Model<T>, a: Model<T>)
    requires
        m.inv(),
        quiet_step(m, a),
    ensures
        a.inv(),
{
    lemma_ready_from(m, true, 0);
    lemma_ready_from(m, false, 0);
    if a == m.flushed() {
        match m.flush_result() {
            Ok(FlushStep::Settled(x)) => {
                lemma_pending_facts(m, x);
                lemma_settled_inv(m, x);
            },
            Ok(FlushStep::Run(x)) => {
                lemma_pending_facts(m, x);
                lemma_started_inv(m, x);
            },
            _ => {},
        }
    } else if exists|n: usize| a == #[trigger] m.refreshed(n) {
        let n = choose|n: usize| a == #[trigger] m.refreshed(n);
        lemma_ready_iff(m, n);
        match m.refresh_result(n) {
            Ok(Refresh::Run(_)) => {
                lemma_started_inv(m, n);
            },
            Ok(Refresh::Fresh) => {
                if !m.is_clean(n) {
                    lemma_settled_inv(m, n);
                }
            },
            _ => {},
        }
    } else if m.effect_running() && a == m.finished_effect() {
        lemma_finished_effect_inv(m);
    } else if m.memo_running() && exists|v: T, changed: bool| a == #[trigger] m.finished_memo(v, changed) {
        let (v, changed) = choose|v: T, changed: bool| a == #[trigger] m.finished_memo(v, changed);
        lemma_finished_memo_inv(m, v, changed);
    } else {
        let s = choose|s: usize|
            m.read_result(s) matches Ok(Fetched::Ready(_)) && a == #[trigger] m.subscribed(s);
        lemma_subscribed_inv(m, s);
    }
}

/// What is queued is live, not clean and not being evaluated.
proof fn lemma_pending_facts<T>(m: Model<T>, x: usize)
    requires
        m.inv(),
        m.pending.contains(x),
    ensures
        m.live(x),
        !m.is_clean(x),
        !m.is_running(x),
        x < m.nodes.len(),
{
    let i = choose|i: int| 0 <= i < m.pending.len() && m.pending[i] == x;
    assert(m.pending[i] < m.nodes.len());
}

/// The evaluation of `n` begins with the step from `before` to `after`.
pub open spec fn begins<T>(before: Model<T>, after: Model<T>, n: usize) -> bool {
    ||| before.flush_result() == Ok::<FlushStep, ReactiveError>(FlushStep::Run(n)) && after
        == before.flushed()
    ||| before.refresh_result(n) == Ok::<Refresh, ReactiveError>(Refresh::Run(n)) && after
        == before.refreshed(n)
}

/// The states that a runtime goes through while nothing is written and
/// nothing is disposed: one flush, for example.
pub open spec fn quiet_trace<T>(trace: Seq<Model<T>>) -> bool {
    &&& trace.len() >= 1
    &&& trace[0].inv()
    &&& forall|k: int| 0 <= k < trace.len() - 1 ==> quiet_step(#[trigger] trace[k], trace[k + 1])
}

/// The invariant holds all along a quiet trace.
pub proof fn lemma_trace_inv<T>(trace: Seq<Model<T>>, k: int)
    requires
        quiet_trace(trace),
        0 <= k < trace.len(),
    ensures
        trace[k].inv(),
    decreases k,
{
    if k > 0 {
        lemma_trace_inv(trace, k - 1);
        assert(quiet_step(trace[k - 1], trace[k - 1 + 1]));
        lemma_quiet_inv(trace[k - 1], trace[k]);
    }
}

/// Through a whole flush, what is up to date stays up to date and keeps its
/// value.
pub proof fn lemma_trace_keeps_clean<T>(trace: Seq<Model<T>>, i: int, j: int, n: usize)
    requires
        quiet_trace(trace),
        0 <= i <= j < trace.len(),
        trace[i].is_clean(n),
    ensures
        trace[j].is_clean(n),
        trace[j].value_of(n) == trace[i].value_of(n),
    decreases j - i,
{
    if i < j {
        lemma_trace_keeps_clean(trace, i, j - 1, n);
        lemma_trace_inv(trace, j - 1);
        assert(quiet_step(trace[j - 1], trace[j - 1 + 1]));
        lemma_quiet_keeps_clean(trace[j - 1], trace[j], n);
    }
}

/// A node whose evaluation has begun is, from then on, being evaluated or
/// clean.
proof fn lemma_trace_after_begin<T>(trace: Seq<Model<T>>, i: int, j: int, n: usize)
    requires
        quiet_trace(trace),
        0 <= i < j < trace.len(),
        begins(trace[i], trace[i + 1], n),
    ensures
        trace[j].is_running(n) || trace[j].is_clean(n),
        trace[j].live(n),
    decreases j - i,
{
    lemma_trace_inv(trace, j - 1);
    let m = trace[j - 1];
    let a = trace[j];
    assert(quiet_step(trace[j - 1], trace[j - 1 + 1]));
    lemma_ready_from(m, true, 0);
    lemma_ready_from(m, false, 0);
    if j == i + 1 {
        if m.flush_result() == Ok::<FlushStep, ReactiveError>(FlushStep::Run(n)) {
            lemma_pending_facts(m, n);
        }
        assert(a == m.started(n));
        assert(a.running[m.running.len() as int] == n);
    } else {
        lemma_trace_after_begin(trace, i, j - 1, n);
        lemma_quiet_live(m, a, n);
        if m.is_clean(n) {
            lemma_quiet_keeps_clean(m, a, n);
        } else {
            lemma_quiet_running(m, a, n);
        }
    }
}

/// A quiet step changes the life of no node.
proof fn lemma_quiet_live<T>(m: Model<T>, a: Model<T>, n: usize)
    requires
        m.inv(),
        quiet_step(m, a),
    ensures
        a.live(n) == m.live(n),
{
    lemma_ready_from(m, true, 0);
    lemma_ready_from(m, false, 0);
}

/// After a quiet step, a live node that was being evaluated still is, or is
/// clean.
proof fn lemma_quiet_running<T>(m: Model<T>, a: Model<T>, n: usize)
    requires
        m.inv(),
        quiet_step(m, a),
        m.is_running(n),
        m.live(n),
    ensures
        a.is_running(n) || a.is_clean(n),
{
    lemma_ready_from(m, true, 0);
    lemma_ready_from(m, false, 0);
    let i = choose|i: int| 0 <= i < m.running.len() && m.running[i] == n;
    if i < m.running.len() - 1 {
        assert(m.popped().running[i] == n);
    }
    assert forall|x: usize| (#[trigger] m.started(x)).running[i] == n by {}
    if a.running == m.running {
        assert(a.running[i] == n);
    }
}

/// No node is evaluated twice while nothing is written: once its evaluation
/// has begun, it does not begin again.
pub proof fn lemma_trace_runs_once<T>(trace: Seq<Model<T>>, i: int, j: int, n: usize)
    requires
        quiet_trace(trace),
        0 <= i < j < trace.len() - 1,
        begins(trace[i], trace[i + 1], n),
    ensures
        !begins(trace[j], trace[j + 1], n),
{
    lemma_trace_after_begin(trace, i, j, n);
    lemma_trace_inv(trace, j);
    let m = trace[j];
    lemma_ready_from(m, true, 0);
    lemma_ready_from(m, false, 0);
    if m.flush_result() == Ok::<FlushStep, ReactiveError>(FlushStep::Run(n)) {
        lemma_pending_facts(m, n);
    }
}

/// The subscriptions never form a cycle: nothing is upstream of what it
/// subscribes to.
pub proof fn lemma_no_cycles<T>(m: Model<T>, n: usize, s: usize)
    requires
        m.inv(),
        m.depends(n, s),
    ensures
        !reaches(m.edges, n, s),
{
    lemma_no_way_back(m.edges, s, n);
}

/// One of the ids in a sequence has the least rank.
proof fn lemma_least_rank(ids: Seq<usize>, rank: spec_fn(usize) -> nat) -> (k: int)
    requires
        ids.len() > 0,
    ensures
        0 <= k < ids.len(),
        forall|i: int| 0 <= i < ids.len() ==> rank(ids[k]) <= rank(#[trigger] ids[i]),
    decreases ids.len(),
{
    if ids.len() == 1 {
        0
    } else {
        let rest = ids.drop_last();
        let k = lemma_least_rank(rest, rank);
        assert forall|i: int| 0 <= i < rest.len() implies rank(rest[k]) <= rank(#[trigger] ids[i]) by {
            assert(rest[i] == ids[i]);
        }
        if rank(ids.last()) < rank(rest[k]) {
            ids.len() - 1
        } else {
            k
        }
    }
}

/// A flush always advances: while work is queued and nothing is being
/// evaluated, the next step settles a node or begins an evaluation. It
/// reports a cycle only to a host that asks for a step in the middle of an
/// evaluation.
pub proof fn lemma_flush_advances<T>(m: Model<T>)
    requires
        m.inv(),
        m.pending.len() > 0,
        m.running.len() == 0,
    ensures
        m.flush_result() is Ok,
        m.flush_result() != Ok::<FlushStep, ReactiveError>(FlushStep::Done),
        m.flushed().pending.len() < m.pending.len(),
{
    let rank = choose|rank: spec_fn(usize) -> nat| #[trigger] ranked(m.edges, rank);
    let k = lemma_least_rank(m.pending, rank);
    let x = m.pending[k];
    assert(m.pending.contains(x));
    lemma_pending_facts(m, x);
    assert(m.sources_clean(x)) by {
        assert forall|i: int| 0 <= i < m.edges.len() && (#[trigger] m.edges[i]).subscriber == x implies m.is_clean(
            m.edges[i].source,
        ) by {
            let s = m.edges[i].source;
            assert(rank(s) < rank(x));
            assert(m.live(s));
            if !m.is_clean(s) {
                assert(m.pending.contains(s));
                let j = choose|j: int| 0 <= j < m.pending.len() && m.pending[j] == s;
                assert(rank(m.pending[k]) <= rank(m.pending[j]));
            }
        }
    }
    lemma_ready_from(m, true, 0);
    lemma_ready_from(m, false, 0);
    assert(m.next_ready() is Some);
    let y = m.next_ready()->0;
    assert(m.pending.contains(y));
    lemma_filter_holds(m.pending, crate::order::other_than(y));
    lemma_shorter_without(m.pending, y);
}

/// A sequence without one of its elements is shorter.
proof fn lemma_shorter_without(ids: Seq<usize>, y: usize)
    requires
        ids.contains(y),
    ensures
        ids.filter(crate::order::other_than(y)).len() < ids.len(),
    decreases ids.len(),
{
    reveal(Seq::filter);
    let rest = ids.drop_last();
    rest.lemma_filter_len(crate::order::other_than(y));
    if ids.last() != y {
        let i = choose|i: int| 0 <= i < ids.len() && ids[i] == y;
        assert(rest[i] == y);
        lemma_shorter_without(rest, y);
    }
}

/// Only a write queues work: a quiet step never makes the queue longer.
/// So a flush whose computations write nothing ends after at most as many
/// steps of the scheduler as nodes were queued.
pub proof fn lemma_quiet_queue_never_grows<T>(m: Model<T>, a: Model<T>)
    requires
        m.inv(),
        quiet_step(m, a),
    ensures
        a.pending.len() <= m.pending.len(),
{
    lemma_ready_from(m, true, 0);
    lemma_ready_from(m, false, 0);
    assert forall|x: usize| (#[trigger] m.pending.filter(crate::order::other_than(x))).len()
        <= m.pending.len() by {
        m.pending.lemma_filter_len(crate::order::other_than(x));
    }
}

} // verus!
